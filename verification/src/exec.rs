//! The operator that puts the columns of two inputs side by side.

use crate::scan::ZipPartitionInfo;
use crate::schema::{
    all_columns, all_metadata, clashing, conflict_at, fields, joinable, joined_fields,
    lemma_columns_of_two, lemma_distinct_has, lemma_distinct_of_unique, lemma_fields_of_two,
    lemma_merged_column_has_origin, lemma_unique_fields, merge_all, mergeable, merged, metadata_conflict, names, schema_view,
    share, shared_fields, shared_views, FieldView, SchemaView,
};
use crate::zip::ZipError;
use datafusion::arrow::datatypes::Schema;
use datafusion::physical_plan::metrics::ExecutionPlanMetricsSet;
use std::sync::Arc;
use vstd::prelude::*;

verus! {

/// Whether an operator comes to an end.
#[derive(Debug, Clone, Copy, PartialEq, Eq, Structural)]
pub enum Boundedness {
    Bounded,
    Unbounded { requires_infinite_memory: bool },
}

/// When an operator hands out its results.
#[derive(Debug, Clone, Copy, PartialEq, Eq, Structural)]
pub enum EmissionType {
    /// As they come up.
    Incremental,
    /// When all input has been seen.
    Final,
    /// Some as they come up and some at the end.
    Both,
}

/// An operator fed by `children` is unbounded if one of them is, and needs
/// infinite memory if one of them does.
pub open spec fn bounded_by(children: Seq<Boundedness>) -> Boundedness {
    if children.contains(Boundedness::Unbounded { requires_infinite_memory: true }) {
        Boundedness::Unbounded { requires_infinite_memory: true }
    } else if children.contains(Boundedness::Unbounded { requires_infinite_memory: false }) {
        Boundedness::Unbounded { requires_infinite_memory: false }
    } else {
        Boundedness::Bounded
    }
}

/// The boundedness of an operator fed by `children`.
pub fn boundedness_from_children(children: &Vec<Boundedness>) -> (boundedness: Boundedness)
    ensures
        boundedness == bounded_by(children@),
{
    let mut unbounded_with_finite_mem: bool = false;
    for k in 0..children.len()
        invariant
            forall|i: int|
                0 <= i < k ==> #[trigger] children@[i] != (Boundedness::Unbounded {
                    requires_infinite_memory: true,
                }),
            unbounded_with_finite_mem <==> exists|i: int|
                0 <= i < k && #[trigger] children@[i] == (Boundedness::Unbounded {
                    requires_infinite_memory: false,
                }),
    {
        match children[k] {
            Boundedness::Unbounded { requires_infinite_memory: true } => {
                proof {
                    assert(children@.contains(children@[k as int]));
                }
                return Boundedness::Unbounded { requires_infinite_memory: true };
            },
            Boundedness::Unbounded { requires_infinite_memory: false } => {
                unbounded_with_finite_mem = true;
            },
            Boundedness::Bounded => {},
        }
    }
    if unbounded_with_finite_mem {
        Boundedness::Unbounded { requires_infinite_memory: false }
    } else {
        Boundedness::Bounded
    }
}

/// A plan to be put side by side with another, and what is known of it. `P` is
/// the plan itself and `Q` tells how its output is partitioned.
#[derive(Debug)]
pub struct ZipInput<P, Q> {
    pub plan: P,
    pub schema: Arc<Schema>,
    pub partitioning: Q,
    pub boundedness: Boundedness,
}

/// What a planner asks of the operator.
#[derive(Debug)]
pub struct ZipProperties<Q> {
    pub partitioning: Q,
    pub emission: EmissionType,
    pub boundedness: Boundedness,
}

/// The operator that puts the columns of two inputs side by side.
#[derive(Debug)]
pub struct ZipExec<P, Q> {
    pub schema: Arc<Schema>,
    pub left_input: P,
    pub right_input: P,
    pub left_info: Option<Arc<ZipPartitionInfo>>,
    pub right_info: Option<Arc<ZipPartitionInfo>>,
    pub metrics: ExecutionPlanMetricsSet,
    pub cache: ZipProperties<Q>,
}

/// The schemas of two inputs.
pub open spec fn pair_views(left: Arc<Schema>, right: Arc<Schema>) -> Seq<SchemaView> {
    seq![schema_view(*left), schema_view(*right)]
}

/// The fields of two inputs, left ones first.
pub open spec fn pair_fields(left: Arc<Schema>, right: Arc<Schema>) -> Seq<FieldView> {
    fields(*left) + fields(*right)
}

/// Columns of one name make one, and no metadata is at odds.
pub open spec fn go_together(left: Arc<Schema>, right: Arc<Schema>) -> bool {
    joinable(pair_fields(left, right)) && !metadata_conflict(pair_views(left, right))
}

/// Columns of one name clash, or metadata is at odds.
pub open spec fn fall_apart(left: Arc<Schema>, right: Arc<Schema>) -> bool {
    clashing(pair_fields(left, right)) || metadata_conflict(pair_views(left, right))
}

/// `operator` puts `left` and `right` side by side.
pub open spec fn zips<P, Q>(
    operator: ZipExec<P, Q>,
    left: ZipInput<P, Q>,
    right: ZipInput<P, Q>,
) -> bool {
    &&& schema_view(*operator.schema) == merged(pair_views(left.schema, right.schema))
    &&& joinable(pair_fields(left.schema, right.schema)) ==> fields(*operator.schema)
        == joined_fields(pair_fields(left.schema, right.schema))
    &&& operator.left_input == left.plan
    &&& operator.right_input == right.plan
    &&& operator.cache.partitioning == left.partitioning
    &&& operator.cache.emission == EmissionType::Incremental
    &&& operator.cache.boundedness == bounded_by(seq![left.boundedness, right.boundedness])
}

/// Another handle on optional partition info.
fn share_info(info: &Option<Arc<ZipPartitionInfo>>) -> (other: Option<Arc<ZipPartitionInfo>>)
    ensures
        other == *info,
{
    match info {
        Some(info) => Some(share(info)),
        None => None,
    }
}

impl<P, Q> ZipExec<P, Q> {
    /// Puts two inputs side by side. Fails when their schemas do not merge.
    pub fn try_new(
        left: ZipInput<P, Q>,
        right: ZipInput<P, Q>,
        left_info: Option<Arc<ZipPartitionInfo>>,
        right_info: Option<Arc<ZipPartitionInfo>>,
    ) -> (operator: Result<ZipExec<P, Q>, ZipError>)
        ensures
            operator matches Ok(o) ==> {
                &&& zips(o, left, right)
                &&& o.left_info == left_info
                &&& o.right_info == right_info
            },
            operator matches Err(e) ==> e is Merge,
            go_together(left.schema, right.schema) ==> operator is Ok,
            fall_apart(left.schema, right.schema) ==> operator is Err,
    {
        let mut parts: Vec<Arc<Schema>> = Vec::new();
        parts.push(share(&left.schema));
        parts.push(share(&right.schema));
        proof {
            assert(shared_views(parts@) =~= pair_views(left.schema, right.schema));
            lemma_fields_of_two(shared_fields(parts@));
        }
        let schema: Schema = match merge_all(&parts) {
            Ok(schema) => schema,
            Err(e) => {
                return Err(ZipError::Merge(e));
            },
        };
        let cache: ZipProperties<Q> = Self::compute_properties(
            left.partitioning,
            left.boundedness,
            right.boundedness,
        );
        Ok(
            ZipExec {
                schema: Arc::new(schema),
                left_input: left.plan,
                right_input: right.plan,
                left_info,
                right_info,
                metrics: ExecutionPlanMetricsSet::new(),
                cache,
            },
        )
    }

    /// The operator is partitioned as its left input is, hands results out as
    /// they come up, and is as bounded as its inputs are.
    pub fn compute_properties(
        left_partitioning: Q,
        left_boundedness: Boundedness,
        right_boundedness: Boundedness,
    ) -> (properties: ZipProperties<Q>)
        ensures
            properties.partitioning == left_partitioning,
            properties.emission == EmissionType::Incremental,
            properties.boundedness == bounded_by(seq![left_boundedness, right_boundedness]),
    {
        let mut children: Vec<Boundedness> = Vec::new();
        children.push(left_boundedness);
        children.push(right_boundedness);
        proof {
            assert(children@ =~= seq![left_boundedness, right_boundedness]);
        }
        ZipProperties {
            partitioning: left_partitioning,
            emission: EmissionType::Incremental,
            boundedness: boundedness_from_children(&children),
        }
    }

    /// The same operator over the first two of `children`.
    pub fn with_new_children(&self, children: Vec<ZipInput<P, Q>>) -> (operator: Result<
        ZipExec<P, Q>,
        ZipError,
    >)
        requires
            children@.len() >= 2,
        ensures
            operator matches Ok(o) ==> {
                &&& zips(o, children@[0], children@[1])
                &&& o.left_info == self.left_info
                &&& o.right_info == self.right_info
            },
            operator matches Err(e) ==> e is Merge,
            go_together(children@[0].schema, children@[1].schema) ==> operator is Ok,
            fall_apart(children@[0].schema, children@[1].schema) ==> operator is Err,
    {
        let mut children = children;
        let left: ZipInput<P, Q> = children.remove(0);
        let right: ZipInput<P, Q> = children.remove(0);
        Self::try_new(left, right, share_info(&self.left_info), share_info(&self.right_info))
    }

    /// The inputs, left first.
    pub fn children(&self) -> (children: Vec<&P>)
        ensures
            children@ == seq![&self.left_input, &self.right_input],
    {
        let mut children: Vec<&P> = Vec::new();
        children.push(&self.left_input);
        children.push(&self.right_input);
        children
    }

    /// Neither input is reordered.
    pub fn maintains_input_order(&self) -> (kept: Vec<bool>)
        ensures
            kept@ == seq![true, true],
    {
        let mut kept: Vec<bool> = Vec::new();
        kept.push(true);
        kept.push(true);
        kept
    }
}

/// Bounded inputs make a bounded operator, and only they do.
pub proof fn law_bounded_exactly_if_children_are(children: Seq<Boundedness>)
    ensures
        bounded_by(children) == Boundedness::Bounded <==> forall|i: int|
            0 <= i < children.len() ==> #[trigger] children[i] == Boundedness::Bounded,
{
    let infinite = Boundedness::Unbounded { requires_infinite_memory: true };
    let finite = Boundedness::Unbounded { requires_infinite_memory: false };
    if bounded_by(children) == Boundedness::Bounded {
        assert forall|i: int| 0 <= i < children.len() implies #[trigger] children[i]
            == Boundedness::Bounded by {
            assert(children.contains(children[i]));
            assert(children[i] != infinite && children[i] != finite);
        }
    }
}

/// Schemas whose columns differ in name go together if their metadata is not at
/// odds.
pub proof fn law_different_inputs_go_together(left: Arc<Schema>, right: Arc<Schema>)
    requires
        mergeable(pair_views(left, right)),
    ensures
        go_together(left, right),
        joined_fields(pair_fields(left, right)) == pair_fields(left, right),
{
    let parts = pair_views(left, right);
    lemma_columns_of_two(parts[0], parts[1]);
    assert(names(pair_fields(left, right)) =~= all_columns(pair_views(left, right)));
    lemma_unique_fields(pair_fields(left, right));
}

/// The schema of the node that puts the first `k` of `parts` together.
pub open spec fn stitched_view(parts: Seq<SchemaView>, k: nat) -> SchemaView
    decreases k,
{
    if k <= 1 {
        parts[0]
    } else {
        merged(seq![stitched_view(parts, (k - 1) as nat), parts[k - 1]])
    }
}

proof fn lemma_first_columns(parts: Seq<SchemaView>, k: nat)
    requires
        0 < k <= parts.len(),
        all_columns(parts).no_duplicates(),
    ensures
        all_columns(parts.take(k as int)) == all_columns(parts.take(k - 1)) + parts[k - 1].columns,
        all_columns(parts.take(k as int)).no_duplicates(),
    decreases parts.len(),
{
    assert(parts.take(k as int).drop_last() =~= parts.take(k - 1));
    if k == parts.len() {
        assert(parts.take(k as int) =~= parts);
    } else {
        let init = parts.drop_last();
        assert(all_columns(init).no_duplicates()) by {
            assert forall|i: int, j: int|
                0 <= i < all_columns(init).len() && 0 <= j < all_columns(init).len() && i
                    != j implies all_columns(init)[i] != all_columns(init)[j] by {
                assert(all_columns(init)[i] == all_columns(parts)[i]);
                assert(all_columns(init)[j] == all_columns(parts)[j]);
            }
        }
        lemma_first_columns(init, k);
        assert(init.take(k as int) =~= parts.take(k as int));
        assert(init.take(k - 1) =~= parts.take(k - 1));
    }
}

/// United metadata gives a key a value that one of the parts gives it.
proof fn lemma_metadata_has_part(parts: Seq<SchemaView>, key: Seq<char>) -> (i: int)
    requires
        all_metadata(parts).contains_key(key),
    ensures
        0 <= i < parts.len(),
        parts[i].metadata.contains_key(key),
        parts[i].metadata[key] == all_metadata(parts)[key],
    decreases parts.len(),
{
    if parts.last().metadata.contains_key(key) {
        parts.len() - 1
    } else {
        lemma_metadata_has_part(parts.drop_last(), key)
    }
}

/// Putting inputs together one after another comes to the same as merging them all
/// at once.
proof fn lemma_stitched_is_merged(parts: Seq<SchemaView>, k: nat)
    requires
        mergeable(parts),
        1 <= k <= parts.len(),
    ensures
        stitched_view(parts, k) == merged(parts.take(k as int)),
        stitched_view(parts, k).columns == all_columns(parts.take(k as int)),
        k >= 2 ==> mergeable(seq![stitched_view(parts, (k - 1) as nat), parts[k - 1]]),
    decreases k,
{
    let now = parts.take(k as int);
    let before = parts.take(k - 1);
    let next = parts[k - 1];
    lemma_first_columns(parts, k);
    lemma_distinct_of_unique(all_columns(now));
    assert(now.drop_last() =~= before);
    assert(now.last() == next);
    if k == 1 {
        assert(before =~= Seq::<SchemaView>::empty());
        assert(all_columns(now) =~= next.columns);
        assert(all_metadata(before) =~= Map::<Seq<char>, Seq<char>>::empty());
        assert(all_metadata(now) == all_metadata(before).union_prefer_right(next.metadata));
        assert(all_metadata(now) =~= next.metadata);
    } else {
        lemma_stitched_is_merged(parts, (k - 1) as nat);
        let whole = stitched_view(parts, (k - 1) as nat);
        lemma_columns_of_two(whole, next);
        assert(all_columns(seq![whole, next]) == all_columns(now));
        assert(all_metadata(seq![whole, next]) == all_metadata(now));
        if metadata_conflict(seq![whole, next]) {
            let (i, j, key) = choose|i: int, j: int, key: Seq<char>|
                conflict_at(seq![whole, next], i, j, key);
            assert(i == 0 && j == 1);
            let from = lemma_metadata_has_part(before, key);
            assert(conflict_at(parts, from, k - 1, key));
        }
    }
}

/// Inputs without a common column and without conflicting metadata can be put
/// together one after another: no step fails to merge.
pub proof fn law_stitching_cannot_fail(parts: Seq<SchemaView>, k: nat)
    requires
        mergeable(parts),
        2 <= k <= parts.len(),
    ensures
        mergeable(seq![stitched_view(parts, (k - 1) as nat), parts[k - 1]]),
{
    lemma_stitched_is_merged(parts, k);
}

/// Put together one after another, such inputs list their columns one input after
/// another, and have the schema of all of them merged at once.
pub proof fn law_stitching_keeps_order(parts: Seq<SchemaView>)
    requires
        mergeable(parts),
        parts.len() > 0,
    ensures
        stitched_view(parts, parts.len()).columns == all_columns(parts),
        stitched_view(parts, parts.len()) == merged(parts),
{
    lemma_stitched_is_merged(parts, parts.len());
    assert(parts.take(parts.len() as int) =~= parts);
}

proof fn lemma_merged_pair_has(left: SchemaView, right: SchemaView, column: Seq<char>)
    requires
        left.columns.contains(column) || right.columns.contains(column),
    ensures
        merged(seq![left, right]).columns.contains(column),
{
    lemma_columns_of_two(left, right);
    let both = left.columns + right.columns;
    if left.columns.contains(column) {
        let at = choose|at: int| 0 <= at < left.columns.len() && left.columns[at] == column;
        assert(both[at] == column);
    } else {
        let at = choose|at: int| 0 <= at < right.columns.len() && right.columns[at] == column;
        assert(both[left.columns.len() + at] == column);
    }
    lemma_distinct_has(both, column);
}

/// Putting inputs together loses no column of any of them.
pub proof fn law_stitching_keeps_columns(
    parts: Seq<SchemaView>,
    k: nat,
    i: int,
    column: Seq<char>,
)
    requires
        1 <= k <= parts.len(),
        0 <= i < k,
        parts[i].columns.contains(column),
    ensures
        stitched_view(parts, k).columns.contains(column),
    decreases k,
{
    if k > 1 {
        if i < k - 1 {
            law_stitching_keeps_columns(parts, (k - 1) as nat, i, column);
        }
        lemma_merged_pair_has(stitched_view(parts, (k - 1) as nat), parts[k - 1], column);
    }
}

/// An operator needs infinite memory exactly if one of its inputs does. It is unbounded
/// in finite memory exactly if one of them is and none needs infinite memory.
pub proof fn law_memory_is_that_of_the_children(children: Seq<Boundedness>)
    ensures
        bounded_by(children) == (Boundedness::Unbounded { requires_infinite_memory: true }) <==> (
        exists|i: int|
            0 <= i < children.len() && #[trigger] children[i] == (Boundedness::Unbounded {
                requires_infinite_memory: true,
            })),
        bounded_by(children) == (Boundedness::Unbounded { requires_infinite_memory: false }) <==> {
            &&& exists|i: int|
                0 <= i < children.len() && #[trigger] children[i] == (Boundedness::Unbounded {
                    requires_infinite_memory: false,
                })
            &&& forall|i: int|
                0 <= i < children.len() ==> #[trigger] children[i] != (Boundedness::Unbounded {
                    requires_infinite_memory: true,
                })
        },
{
    assert forall|i: int| 0 <= i < children.len() implies children.contains(
        #[trigger] children[i],
    ) by {}
}

/// An operator reads its inputs from left to right, is partitioned as the left one is,
/// hands results out as they come up, and comes to an end exactly if both inputs do.
pub proof fn law_operator_goes_by_its_inputs<P, Q>(
    operator: ZipExec<P, Q>,
    left: ZipInput<P, Q>,
    right: ZipInput<P, Q>,
)
    requires
        zips(operator, left, right),
    ensures
        operator.left_input == left.plan,
        operator.right_input == right.plan,
        operator.cache.partitioning == left.partitioning,
        operator.cache.emission is Incremental,
        operator.cache.boundedness is Bounded <==> left.boundedness is Bounded
            && right.boundedness is Bounded,
        forall|column: Seq<char>| #[trigger]
            schema_view(*operator.schema).columns.contains(column) <==> schema_view(
                *left.schema,
            ).columns.contains(column) || schema_view(*right.schema).columns.contains(column),
{
    let children = seq![left.boundedness, right.boundedness];
    law_bounded_exactly_if_children_are(children);
    if operator.cache.boundedness is Bounded {
        assert(children[0] == Boundedness::Bounded);
        assert(children[1] == Boundedness::Bounded);
    }
    let parts = pair_views(left.schema, right.schema);
    assert forall|column: Seq<char>| #[trigger]
        schema_view(*operator.schema).columns.contains(column) <==> schema_view(
            *left.schema,
        ).columns.contains(column) || schema_view(*right.schema).columns.contains(column) by {
        if parts[0].columns.contains(column) || parts[1].columns.contains(column) {
            lemma_merged_pair_has(parts[0], parts[1], column);
        }
        if merged(parts).columns.contains(column) {
            let c = choose|c: int|
                0 <= c < merged(parts).columns.len() && merged(parts).columns[c] == column;
            let f = lemma_merged_column_has_origin(parts, c);
            assert(parts[f].columns.contains(column));
        }
    }
}

} // verus!
