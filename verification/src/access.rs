//! Which row groups of a parquet file are read, and how many rows that yields.

use crate::metrics::counted;
use crate::schema::fields;
use crate::statistics::{can_hold_against, complete, kept_bounds, leaf_roots, predicate_fields};
use datafusion::arrow::datatypes::Schema;
use datafusion::datasource::physical_plan::parquet::{
    ParquetAccessPlan, RowGroupAccessPlanFilter,
};
use datafusion::datasource::physical_plan::ParquetFileMetrics;
use datafusion::parquet::file::metadata::ParquetMetaData;
use datafusion::physical_expr::PhysicalExpr;
use datafusion::physical_optimizer::pruning::{build_pruning_predicate, PruningPredicate};
use datafusion::physical_plan::metrics::{Count, ExecutionPlanMetricsSet};
use std::sync::Arc;
use vstd::prelude::*;

verus! {

/// A plan of which row groups to read. Opaque but for [`accesses`].
#[verifier::external_type_specification]
#[verifier::external_body]
pub struct ExParquetAccessPlan(ParquetAccessPlan);

/// A plan that is being narrowed. Opaque but for [`filter_accesses`].
#[verifier::external_type_specification]
#[verifier::external_body]
pub struct ExRowGroupAccessPlanFilter(RowGroupAccessPlanFilter);

/// The footer of a parquet file. Opaque but for [`row_groups`].
#[verifier::external_type_specification]
#[verifier::external_body]
pub struct ExParquetMetaData(ParquetMetaData);

/// A predicate that can be held against row group statistics.
#[verifier::external_type_specification]
#[verifier::external_body]
pub struct ExPruningPredicate(PruningPredicate);

/// Counters and timers for the reading of one file.
#[verifier::external_type_specification]
#[verifier::external_body]
pub struct ExParquetFileMetrics(ParquetFileMetrics);

/// A run of rows that is read or passed over.
#[derive(Debug, Clone, Copy, PartialEq, Eq)]
pub struct RowSelector {
    pub row_count: usize,
    pub skip: bool,
}

/// How one row group is read.
#[derive(Debug)]
pub enum RowGroupAccess {
    /// Not at all.
    Skip,
    /// All of its rows.
    Scan,
    /// Only the runs of rows that are not marked to be skipped.
    Selection(Vec<RowSelector>),
}

/// How one row group is read, as contracts see it.
pub enum Access {
    Skip,
    Scan,
    Selection(Seq<RowSelector>),
}

impl View for RowGroupAccess {
    type V = Access;

    open spec fn view(&self) -> Access {
        match self {
            RowGroupAccess::Skip => Access::Skip,
            RowGroupAccess::Scan => Access::Scan,
            RowGroupAccess::Selection(runs) => Access::Selection(runs@),
        }
    }
}

/// The accesses of a vector, row group by row group.
pub open spec fn access_views(list: Seq<RowGroupAccess>) -> Seq<Access> {
    list.map_values(|a: RowGroupAccess| a@)
}

/// How a plan reads each row group.
pub uninterp spec fn accesses(plan: ParquetAccessPlan) -> Seq<Access>;

/// How a plan that is being narrowed reads each row group.
pub uninterp spec fn filter_accesses(filter: RowGroupAccessPlanFilter) -> Seq<Access>;

/// One column of one row group.
#[derive(Debug)]
pub struct ColumnChunk {
    pub column: String,
    pub compressed_size: i64,
}

/// What the library reads of a row group's metadata.
#[derive(Debug)]
pub struct RowGroup {
    pub num_rows: i64,
    pub file_offset: Option<i64>,
    pub chunks: Vec<ColumnChunk>,
}

/// A row group, as contracts see it. Each chunk is a column name and a size.
#[verifier::ext_equal]
pub struct RowGroupView {
    pub num_rows: i64,
    pub file_offset: Option<i64>,
    pub chunks: Seq<(Seq<char>, i64)>,
}

impl View for RowGroup {
    type V = RowGroupView;

    open spec fn view(&self) -> RowGroupView {
        RowGroupView {
            num_rows: self.num_rows,
            file_offset: self.file_offset,
            chunks: self.chunks@.map_values(|c: ColumnChunk| (c.column@, c.compressed_size)),
        }
    }
}

/// The row groups of a vector.
pub open spec fn row_group_views(list: Seq<RowGroup>) -> Seq<RowGroupView> {
    list.map_values(|g: RowGroup| g@)
}

/// The row groups that a footer lists.
pub uninterp spec fn row_groups(metadata: ParquetMetaData) -> Seq<RowGroupView>;

/// `count` row groups, read in one and the same way.
pub open spec fn uniform(count: nat, access: Access) -> Seq<Access> {
    Seq::new(count, |i: int| access)
}

/// `ParquetAccessPlan::new_all`: every row group is scanned.
pub assume_specification[ ParquetAccessPlan::new_all ](row_group_count: usize) -> (plan:
    ParquetAccessPlan)
    ensures
        accesses(plan) == uniform(row_group_count as nat, Access::Scan),
;

/// `ParquetAccessPlan::new_none`: every row group is skipped.
pub assume_specification[ ParquetAccessPlan::new_none ](row_group_count: usize) -> (plan:
    ParquetAccessPlan)
    ensures
        accesses(plan) == uniform(row_group_count as nat, Access::Skip),
;

/// `ParquetAccessPlan::clone`: the copy reads every row group in the same way.
pub assume_specification[ <ParquetAccessPlan as Clone>::clone ](plan: &ParquetAccessPlan) -> (copy:
    ParquetAccessPlan)
    ensures
        accesses(copy) == accesses(*plan),
;

/// `ParquetAccessPlan::inner`: the accesses of a plan, copied one by one.
#[verifier::external_body]
pub(crate) fn inner(plan: &ParquetAccessPlan) -> (list: Vec<RowGroupAccess>)
    ensures
        access_views(list@) == accesses(*plan),
{
    let copied = plan.inner().iter().map(|access| match access {
        datafusion::datasource::physical_plan::parquet::RowGroupAccess::Skip => RowGroupAccess::Skip,
        datafusion::datasource::physical_plan::parquet::RowGroupAccess::Scan => RowGroupAccess::Scan,
        datafusion::datasource::physical_plan::parquet::RowGroupAccess::Selection(selection) =>
            RowGroupAccess::Selection(
                selection.iter().map(|s| RowSelector { row_count: s.row_count, skip: s.skip }).collect(),
            ),
    });
    copied.collect()
}

/// `RowGroupAccessPlanFilter::new`: starts from the given plan.
pub assume_specification[ RowGroupAccessPlanFilter::new ](access_plan: ParquetAccessPlan) -> (filter:
    RowGroupAccessPlanFilter)
    ensures
        filter_accesses(filter) == accesses(access_plan),
;

/// `RowGroupAccessPlanFilter::build`: hands the narrowed plan out.
pub assume_specification[ RowGroupAccessPlanFilter::build ](filter: RowGroupAccessPlanFilter) -> (plan:
    ParquetAccessPlan)
    ensures
        accesses(plan) == filter_accesses(filter),
;

/// `after` reads each row group as `before` does, or skips it.
pub open spec fn narrowed(before: Seq<Access>, after: Seq<Access>) -> bool {
    &&& after.len() == before.len()
    &&& forall|i: int|
        0 <= i < after.len() ==> #[trigger] after[i] == before[i] || after[i] is Skip
}

/// `after` may be left of `before` when the statistics in a footer are held against
/// a predicate.
pub uninterp spec fn may_prune_to(
    before: Seq<Access>,
    schema: Schema,
    metadata: ParquetMetaData,
    predicate: PruningPredicate,
    after: Seq<Access>,
) -> bool;

/// `RowGroupAccessPlanFilter::prune_by_statistics`: skips the row groups whose
/// statistics rule the predicate out and leaves the others as they were. The footer
/// has to be complete, and the statistics of the columns that the predicate names have
/// to be such that values can be made of them. Which row groups are skipped is up to
/// the predicate, which may hold functions that do not give the same result twice;
/// what these functions do besides is not said here.
#[verifier::external_body]
pub(crate) fn prune_by_statistics(
    filter: &mut RowGroupAccessPlanFilter,
    schema: &Schema,
    metadata: &ParquetMetaData,
    predicate: &Arc<PruningPredicate>,
    file_metrics: &ParquetFileMetrics,
)
    requires
        filter_accesses(*old(filter)).len() == row_groups(*metadata).len(),
        complete(*metadata),
        can_hold_against(
            fields(*schema),
            leaf_roots(*metadata),
            kept_bounds(*metadata),
            **predicate,
        ),
    ensures
        narrowed(filter_accesses(*old(filter)), filter_accesses(*final(filter))),
        may_prune_to(
            filter_accesses(*old(filter)),
            *schema,
            *metadata,
            **predicate,
            filter_accesses(*final(filter)),
        ),
{
    let descriptor = metadata.file_metadata().schema_descr();
    filter.prune_by_statistics(schema, descriptor, metadata.row_groups(), predicate, file_metrics)
}

/// A condition on rows, held by the query engine. Opaque.
#[verifier::external_body]
#[derive(Debug)]
pub struct Filter {
    pub expr: Arc<dyn PhysicalExpr>,
}

/// `predicate` may be what statistics are held against, in a file with the schema,
/// to find row groups where no row meets the filter; `None` if the filter cannot be
/// held against statistics.
pub uninterp spec fn may_prune_by(
    filter: Filter,
    schema: Schema,
    predicate: Option<Arc<PruningPredicate>>,
) -> bool;

/// `build_pruning_predicate`: the predicate that statistics of a file with the
/// schema are held against, if there is one. It is counted as an error if none
/// could be made of the filter. It is made for the fields of the schema. The filter may
/// change with the query that it belongs to, so that two calls need not give the same
/// predicate.
#[verifier::external_body]
pub(crate) fn pruning_predicate(filter: &Filter, schema: &Arc<Schema>, errors: &mut Count) -> (predicate:
    Option<Arc<PruningPredicate>>)
    ensures
        may_prune_by(*filter, **schema, predicate),
        predicate matches Some(p) ==> predicate_fields(*p) == fields(**schema),
        counted(*final(errors)) == counted(*old(errors)) || predicate is None && counted(
            *final(errors),
        ) == counted(*old(errors)) + 1,
{
    build_pruning_predicate(Arc::clone(&filter.expr), schema, errors)
}

/// `ParquetFileMetrics::new`: registers the metrics of one file.
pub assume_specification[ ParquetFileMetrics::new ](
    partition: usize,
    filename: &str,
    metrics: &ExecutionPlanMetricsSet,
) -> (file_metrics: ParquetFileMetrics)
;

/// `ParquetMetaData::num_row_groups`: how many row groups the footer lists.
pub assume_specification[ ParquetMetaData::num_row_groups ](metadata: &ParquetMetaData) -> (count:
    usize)
    ensures
        count == row_groups(*metadata).len(),
;

/// `ParquetMetaData::row_groups`: the row groups, with what the library reads of
/// each and of its column chunks copied out.
#[verifier::external_body]
pub(crate) fn read_row_groups(metadata: &ParquetMetaData) -> (list: Vec<RowGroup>)
    ensures
        row_group_views(list@) == row_groups(*metadata),
{
    let copied = metadata.row_groups().iter().map(|group| RowGroup {
        num_rows: group.num_rows(),
        file_offset: group.file_offset(),
        chunks: group.columns().iter().map(|chunk| ColumnChunk {
            column: chunk.column_descr().name().to_string(),
            compressed_size: chunk.compressed_size(),
        }).collect(),
    });
    copied.collect()
}

/// The rows that `runs` keeps.
pub open spec fn selected_rows(runs: Seq<RowSelector>) -> nat
    decreases runs.len(),
{
    if runs.len() == 0 {
        0
    } else {
        selected_rows(runs.drop_last()) + if runs.last().skip {
            0
        } else {
            runs.last().row_count as nat
        }
    }
}

/// The rows that one row group yields.
pub open spec fn rows_of(group: RowGroupView, access: Access) -> nat {
    match access {
        Access::Skip => 0,
        Access::Scan => (group.num_rows as usize) as nat,
        Access::Selection(runs) => selected_rows(runs),
    }
}

/// The rows that the first `k` row groups yield.
pub open spec fn rows_of_first(groups: Seq<RowGroupView>, list: Seq<Access>, k: nat) -> nat
    decreases k,
{
    if k == 0 {
        0
    } else {
        rows_of_first(groups, list, (k - 1) as nat) + rows_of(groups[k - 1], list[k - 1])
    }
}

/// The rows that a plan yields. A row group without an access, or an access
/// without a row group, yields none.
pub open spec fn planned_rows(groups: Seq<RowGroupView>, list: Seq<Access>) -> nat {
    rows_of_first(
        groups,
        list,
        if groups.len() < list.len() {
            groups.len()
        } else {
            list.len()
        },
    )
}

proof fn lemma_selected_rows_grow(runs: Seq<RowSelector>, k: int)
    requires
        0 <= k <= runs.len(),
    ensures
        selected_rows(runs.take(k)) <= selected_rows(runs),
    decreases runs.len() - k,
{
    if k == runs.len() {
        assert(runs.take(k) =~= runs);
    } else {
        lemma_selected_rows_grow(runs, k + 1);
        assert(runs.take(k + 1).drop_last() =~= runs.take(k));
    }
}

proof fn lemma_rows_grow(groups: Seq<RowGroupView>, list: Seq<Access>, k: nat, n: nat)
    requires
        k <= n,
    ensures
        rows_of_first(groups, list, k) <= rows_of_first(groups, list, n),
    decreases n,
{
    if k < n {
        lemma_rows_grow(groups, list, k, (n - 1) as nat);
    }
}

/// The rows that `runs` keeps, or `None` when there are more than a `usize` holds.
fn count_selected(runs: &Vec<RowSelector>) -> (rows: Option<usize>)
    ensures
        rows == if selected_rows(runs@) <= usize::MAX {
            Some(selected_rows(runs@) as usize)
        } else {
            None
        },
{
    let mut rows: usize = 0;
    for k in 0..runs.len()
        invariant
            rows == selected_rows(runs@.take(k as int)),
    {
        proof {
            assert(runs@.take(k + 1).drop_last() =~= runs@.take(k as int));
            lemma_selected_rows_grow(runs@, k + 1);
        }
        let run: RowSelector = runs[k];
        if !run.skip {
            match rows.checked_add(run.row_count) {
                Some(sum) => {
                    rows = sum;
                },
                None => {
                    return None;
                },
            }
        }
    }
    proof {
        assert(runs@.take(runs@.len() as int) =~= runs@);
    }
    Some(rows)
}

/// The rows that a plan yields, or `None` when there are more than a `usize` holds.
pub fn count_rows(groups: &Vec<RowGroup>, list: &Vec<RowGroupAccess>) -> (rows: Option<usize>)
    ensures
        rows == {
            let total = planned_rows(row_group_views(groups@), access_views(list@));
            if total <= usize::MAX {
                Some(total as usize)
            } else {
                None
            }
        },
{
    let ghost gs = row_group_views(groups@);
    let ghost ls = access_views(list@);
    let n: usize = if groups.len() < list.len() {
        groups.len()
    } else {
        list.len()
    };
    let mut rows: usize = 0;
    for k in 0..n
        invariant
            n <= groups@.len(),
            n <= list@.len(),
            gs == row_group_views(groups@),
            ls == access_views(list@),
            planned_rows(gs, ls) == rows_of_first(gs, ls, n as nat),
            rows == rows_of_first(gs, ls, k as nat),
    {
        proof {
            assert(gs[k as int] == groups@[k as int]@);
            assert(ls[k as int] == list@[k as int]@);
            lemma_rows_grow(gs, ls, (k + 1) as nat, n as nat);
        }
        let here: usize = match &list[k] {
            RowGroupAccess::Skip => 0,
            RowGroupAccess::Scan => groups[k].num_rows as usize,
            RowGroupAccess::Selection(runs) => match count_selected(runs) {
                Some(selected) => selected,
                None => {
                    return None;
                },
            },
        };
        match rows.checked_add(here) {
            Some(sum) => {
                rows = sum;
            },
            None => {
                return None;
            },
        }
    }
    Some(rows)
}

/// Narrowing a plan twice narrows it.
pub proof fn law_narrowing_is_transitive(a: Seq<Access>, b: Seq<Access>, c: Seq<Access>)
    requires
        narrowed(a, b),
        narrowed(b, c),
    ensures
        narrowed(a, c),
{
    assert forall|i: int| 0 <= i < c.len() implies #[trigger] c[i] == a[i] || c[i] is Skip by {
        assert(c[i] == b[i] || c[i] is Skip);
        assert(b[i] == a[i] || b[i] is Skip);
    }
}

/// A narrowed plan yields no more rows.
pub proof fn law_narrowing_yields_fewer_rows(
    groups: Seq<RowGroupView>,
    before: Seq<Access>,
    after: Seq<Access>,
)
    requires
        narrowed(before, after),
    ensures
        planned_rows(groups, after) <= planned_rows(groups, before),
{
    lemma_fewer_rows(
        groups,
        before,
        after,
        if groups.len() < after.len() {
            groups.len()
        } else {
            after.len()
        },
    );
}

proof fn lemma_fewer_rows(
    groups: Seq<RowGroupView>,
    before: Seq<Access>,
    after: Seq<Access>,
    k: nat,
)
    requires
        narrowed(before, after),
        k <= after.len(),
    ensures
        rows_of_first(groups, after, k) <= rows_of_first(groups, before, k),
    decreases k,
{
    if k > 0 {
        lemma_fewer_rows(groups, before, after, (k - 1) as nat);
        assert(after[k - 1] == before[k - 1] || after[k - 1] is Skip);
    }
}

/// Runs behind one another keep what each part of them keeps.
pub proof fn law_selections_add_up(a: Seq<RowSelector>, b: Seq<RowSelector>)
    ensures
        selected_rows(a + b) == selected_rows(a) + selected_rows(b),
    decreases b.len(),
{
    if b.len() == 0 {
        assert(a + b =~= a);
    } else {
        law_selections_add_up(a, b.drop_last());
        assert((a + b).drop_last() =~= a + b.drop_last());
        assert((a + b).last() == b.last());
    }
}

/// One run keeps all of its rows, or none if it is skipped.
pub proof fn law_one_run_is_kept_or_skipped(row_count: usize, skip: bool)
    ensures
        selected_rows(seq![RowSelector { row_count, skip }]) == if skip {
            0
        } else {
            row_count as nat
        },
{
    let runs = seq![RowSelector { row_count, skip }];
    assert(runs.drop_last() =~= Seq::<RowSelector>::empty());
    reveal_with_fuel(selected_rows, 2);
}

proof fn lemma_rows_of_prefix(
    groups: Seq<RowGroupView>,
    list: Seq<Access>,
    others: Seq<RowGroupView>,
    other_list: Seq<Access>,
    k: nat,
)
    requires
        forall|i: int|
            0 <= i < k ==> #[trigger] groups[i] == others[i] && list[i] == other_list[i],
    ensures
        rows_of_first(groups, list, k) == rows_of_first(others, other_list, k),
    decreases k,
{
    if k > 0 {
        lemma_rows_of_prefix(groups, list, others, other_list, (k - 1) as nat);
        assert(groups[k - 1] == others[k - 1]);
    }
}

proof fn lemma_rows_of_two(
    groups: Seq<RowGroupView>,
    list: Seq<Access>,
    more: Seq<RowGroupView>,
    rest: Seq<Access>,
    k: nat,
)
    requires
        groups.len() == list.len(),
        k <= more.len(),
        k <= rest.len(),
    ensures
        rows_of_first(groups + more, list + rest, groups.len() + k) == rows_of_first(
            groups,
            list,
            groups.len(),
        ) + rows_of_first(more, rest, k),
    decreases k,
{
    if k == 0 {
        lemma_rows_of_prefix(groups + more, list + rest, groups, list, groups.len());
    } else {
        lemma_rows_of_two(groups, list, more, rest, (k - 1) as nat);
        assert((groups + more)[groups.len() + k - 1] == more[k - 1]);
        assert((list + rest)[groups.len() + k - 1] == rest[k - 1]);
    }
}

/// Row groups behind one another yield what each part of them yields.
pub proof fn law_rows_add_up(
    groups: Seq<RowGroup>,
    list: Seq<RowGroupAccess>,
    more: Seq<RowGroup>,
    rest: Seq<RowGroupAccess>,
)
    requires
        groups.len() == list.len(),
    ensures
        planned_rows(row_group_views(groups + more), access_views(list + rest)) == planned_rows(
            row_group_views(groups),
            access_views(list),
        ) + planned_rows(row_group_views(more), access_views(rest)),
{
    let k = if more.len() < rest.len() {
        more.len()
    } else {
        rest.len()
    };
    assert(row_group_views(groups + more) =~= row_group_views(groups) + row_group_views(more));
    assert(access_views(list + rest) =~= access_views(list) + access_views(rest));
    lemma_rows_of_two(
        row_group_views(groups),
        access_views(list),
        row_group_views(more),
        access_views(rest),
        k,
    );
}

/// One row group yields all of its own rows if it is scanned, those of the runs that
/// are not skipped if there is a selection, and none if it is skipped.
pub proof fn law_one_row_group_yields_its_rows(group: RowGroup, access: RowGroupAccess)
    requires
        group.num_rows >= 0,
    ensures
        planned_rows(row_group_views(seq![group]), access_views(seq![access])) == match access {
            RowGroupAccess::Skip => 0,
            RowGroupAccess::Scan => (group.num_rows as usize) as nat,
            RowGroupAccess::Selection(runs) => selected_rows(runs@),
        },
{
    let groups = row_group_views(seq![group]);
    let list = access_views(seq![access]);
    assert(groups[0] == group@);
    assert(list[0] == access@);
    reveal_with_fuel(rows_of_first, 2);
}

/// A row group without an access, and an access without a row group, yield nothing.
pub proof fn law_rows_need_a_row_group_and_an_access(
    groups: Seq<RowGroup>,
    list: Seq<RowGroupAccess>,
    more: Seq<RowGroup>,
    rest: Seq<RowGroupAccess>,
)
    requires
        groups.len() == list.len(),
    ensures
        planned_rows(row_group_views(groups + more), access_views(list)) == planned_rows(
            row_group_views(groups),
            access_views(list),
        ),
        planned_rows(row_group_views(groups), access_views(list + rest)) == planned_rows(
            row_group_views(groups),
            access_views(list),
        ),
        planned_rows(row_group_views(more), Seq::<Access>::empty()) == 0,
        planned_rows(Seq::<RowGroupView>::empty(), access_views(rest)) == 0,
{
    lemma_rows_of_prefix(
        row_group_views(groups + more),
        access_views(list),
        row_group_views(groups),
        access_views(list),
        groups.len(),
    );
    lemma_rows_of_prefix(
        row_group_views(groups),
        access_views(list + rest),
        row_group_views(groups),
        access_views(list),
        groups.len(),
    );
}

proof fn lemma_rows_of_changed(
    groups: Seq<RowGroupView>,
    list: Seq<Access>,
    i: int,
    access: Access,
    k: nat,
)
    requires
        0 <= i < list.len(),
        k <= list.len(),
    ensures
        rows_of_first(groups, list.update(i, access), k) == if i < k {
            rows_of_first(groups, list, k) - rows_of(groups[i], list[i]) + rows_of(
                groups[i],
                access,
            )
        } else {
            rows_of_first(groups, list, k) as int
        },
    decreases k,
{
    if k > 0 {
        lemma_rows_of_changed(groups, list, i, access, (k - 1) as nat);
    }
}

/// Scanning a row group that was skipped yields exactly its rows more, whatever is done
/// with the others. So a plan that scans one row group alone yields its rows.
pub proof fn law_scanning_one_more_yields_its_rows(
    groups: Seq<RowGroup>,
    list: Seq<Access>,
    i: int,
)
    requires
        0 <= i < groups.len(),
        i < list.len(),
        groups[i].num_rows >= 0,
    ensures
        planned_rows(row_group_views(groups), list.update(i, Access::Scan)) == planned_rows(
            row_group_views(groups),
            list.update(i, Access::Skip),
        ) + (groups[i].num_rows as usize) as nat,
        (forall|j: int| 0 <= j < list.len() && j != i ==> #[trigger] list[j] is Skip)
            ==> planned_rows(row_group_views(groups), list.update(i, Access::Scan)) == (
        groups[i].num_rows as usize) as nat,
{
    let views = row_group_views(groups);
    let k = if groups.len() < list.len() {
        groups.len()
    } else {
        list.len()
    };
    assert(views[i] == groups[i]@);
    lemma_rows_of_changed(views, list, i, Access::Scan, k);
    lemma_rows_of_changed(views, list, i, Access::Skip, k);
    if forall|j: int| 0 <= j < list.len() && j != i ==> #[trigger] list[j] is Skip {
        let none = list.update(i, Access::Skip);
        assert forall|j: int| 0 <= j < none.len() implies #[trigger] none[j] is Skip by {
            assert(j != i ==> list[j] is Skip);
        }
        lemma_nothing_scanned(views, none, k);
    }
}

proof fn lemma_nothing_scanned(groups: Seq<RowGroupView>, list: Seq<Access>, k: nat)
    requires
        k <= list.len(),
        forall|j: int| 0 <= j < list.len() ==> #[trigger] list[j] is Skip,
    ensures
        rows_of_first(groups, list, k) == 0,
    decreases k,
{
    if k > 0 {
        lemma_nothing_scanned(groups, list, (k - 1) as nat);
        assert(list[k - 1] is Skip);
    }
}

/// A selection yields what its runs keep, in place of nothing, whatever is done with the
/// other row groups.
pub proof fn law_selecting_yields_what_is_kept(
    groups: Seq<RowGroup>,
    list: Seq<Access>,
    i: int,
    runs: Seq<RowSelector>,
)
    requires
        0 <= i < groups.len(),
        i < list.len(),
    ensures
        planned_rows(row_group_views(groups), list.update(i, Access::Selection(runs)))
            == planned_rows(row_group_views(groups), list.update(i, Access::Skip))
            + selected_rows(runs),
{
    let views = row_group_views(groups);
    let k = if groups.len() < list.len() {
        groups.len()
    } else {
        list.len()
    };
    lemma_rows_of_changed(views, list, i, Access::Selection(runs), k);
    lemma_rows_of_changed(views, list, i, Access::Skip, k);
}

/// What is seen of a row group and its chunks is what they hold.
pub proof fn law_row_groups_are_seen_as_they_are(groups: Seq<RowGroup>, g: int, c: int)
    requires
        0 <= g < groups.len(),
        0 <= c < groups[g].chunks@.len(),
    ensures
        row_group_views(groups).len() == groups.len(),
        row_group_views(groups)[g].num_rows == groups[g].num_rows,
        row_group_views(groups)[g].file_offset == groups[g].file_offset,
        row_group_views(groups)[g].chunks.len() == groups[g].chunks@.len(),
        row_group_views(groups)[g].chunks[c].0 == groups[g].chunks@[c].column@,
        row_group_views(groups)[g].chunks[c].1 == groups[g].chunks@[c].compressed_size,
{
}

} // verus!
