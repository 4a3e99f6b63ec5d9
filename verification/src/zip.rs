//! A table whose columns are spread over several parquet files with the same
//! row groups, read side by side.

use crate::access::{
    accesses, count_rows, filter_accesses, inner, may_prune_by, may_prune_to, narrowed,
    planned_rows, prune_by_statistics, pruning_predicate, read_row_groups, row_group_views,
    row_groups, rows_of_first, uniform, Access, Filter, RowGroup, RowGroupAccess, RowGroupView,
};
use crate::metrics::global_counter;
use crate::partition::{ascending, laid_out};
use crate::schema::{
    all_fields, clashing, columns, fields, joinable, joined_fields,
    law_merger_has_the_columns_of_its_parts, merge_all, merged, metadata_conflict, schema_view,
    share, shared_fields, shared_views, FieldView, SchemaView,
};
use crate::statistics::{
    all_set, can_hold_against, check_readable, columns_named, complete, covers, kept_bounds,
    leaf_roots, predicate_columns, predicate_fields, read_bounds, read_leaf_roots,
    read_unset_bounds, readable, table_view, Bounds,
};
use crate::text::{text_view, texts};
use datafusion::arrow::datatypes::Schema;
use datafusion::arrow::error::ArrowError;
use datafusion::datasource::physical_plan::parquet::{ParquetAccessPlan, RowGroupAccessPlanFilter};
use datafusion::datasource::physical_plan::ParquetFileMetrics;
use datafusion::parquet::file::metadata::ParquetMetaData;
use datafusion::physical_optimizer::pruning::PruningPredicate;
use datafusion::physical_plan::metrics::{Count, ExecutionPlanMetricsSet};
use std::sync::Arc;
use vstd::prelude::*;

verus! {

/// Why files cannot be read as one table.
#[derive(Debug)]
pub enum ZipError {
    /// The schemas of the files cannot be merged.
    Merge(ArrowError),
    /// The footer is not as one that is read from a file, or a row group has no
    /// offset, or its byte range does not fit.
    Footer,
    /// A path does not end in the name of a file.
    Path,
}

/// The last component of a path may be `name`; `None` if it has none that is a name.
/// It is also a matter of the system what separates components.
pub uninterp spec fn may_end_in(path: Seq<char>, name: Option<Seq<char>>) -> bool;

/// A path ends in the step to a parent directory.
pub open spec fn ends_in_parent(path: Seq<char>) -> bool {
    path.len() >= 3 && path.skip(path.len() - 3) == "/.."@
}

/// `std::path::Path::file_name`, as text: the last component of a path. There is none
/// if the path ends in `..`.
#[verifier::external_body]
fn last_component(path: &str) -> (name: Option<String>)
    ensures
        may_end_in(path@, text_view(name)),
        ends_in_parent(path@) ==> name is None,
{
    std::path::Path::new(path).file_name().map(|name| name.to_string_lossy().into_owned())
}

/// The name of the file at a path. Fails when the path does not end in one.
pub fn file_name(path: &str) -> (name: Result<String, ZipError>)
    ensures
        name matches Ok(n) ==> may_end_in(path@, Some(n@)),
        name matches Err(e) ==> e is Path && may_end_in(path@, None),
        ends_in_parent(path@) ==> name is Err,
{
    match last_component(path) {
        Some(name) => Ok(name),
        None => Err(ZipError::Path),
    }
}

/// The sum of the first `k` chunk sizes.
pub open spec fn size_of_first(chunks: Seq<(Seq<char>, i64)>, k: nat) -> int
    decreases k,
{
    if k == 0 {
        0
    } else {
        size_of_first(chunks, (k - 1) as nat) + chunks[k - 1].1
    }
}

/// The size of a row group in the file: that of all its column chunks.
pub open spec fn compressed_size(group: RowGroupView) -> int {
    size_of_first(group.chunks, group.chunks.len())
}

/// The chunk sizes of a row group can be added up one by one.
pub open spec fn sizes_fit(group: RowGroupView) -> bool {
    forall|k: nat|
        k <= group.chunks.len() ==> i64::MIN <= #[trigger] size_of_first(group.chunks, k)
            <= i64::MAX
}

/// A row group has a place in the file.
pub open spec fn located(group: RowGroupView) -> bool {
    &&& group.file_offset is Some
    &&& sizes_fit(group)
    &&& i64::MIN <= group.file_offset->0 + compressed_size(group) <= i64::MAX
}

/// Every row group has a place in the file.
pub open spec fn all_located(groups: Seq<RowGroupView>) -> bool {
    forall|i: int| 0 <= i < groups.len() ==> located(#[trigger] groups[i])
}

/// First byte of each row group, and the byte behind its last.
pub open spec fn byte_ranges(groups: Seq<RowGroupView>) -> Seq<(i64, i64)> {
    groups.map_values(
        |g: RowGroupView| (g.file_offset->0, (g.file_offset->0 + compressed_size(g)) as i64),
    )
}

/// The sum of the first `k` row counts.
pub open spec fn rows_in_first(groups: Seq<RowGroupView>, k: nat) -> int
    decreases k,
{
    if k == 0 {
        0
    } else {
        rows_in_first(groups, (k - 1) as nat) + groups[k - 1].num_rows
    }
}

/// The row counts can be added up one by one.
pub open spec fn rows_fit(groups: Seq<RowGroupView>) -> bool {
    forall|k: nat|
        k <= groups.len() ==> i64::MIN <= #[trigger] rows_in_first(groups, k) <= i64::MAX
}

/// The byte range of a row group, or `None` when it has no place in the file.
fn byte_range(group: &RowGroup) -> (range: Option<(i64, i64)>)
    ensures
        range == if located(group@) {
            Some(
                (group@.file_offset->0, (group@.file_offset->0 + compressed_size(group@)) as i64),
            )
        } else {
            None
        },
{
    let ghost chunks = group@.chunks;
    let start: i64 = match group.file_offset {
        Some(start) => start,
        None => {
            return None;
        },
    };
    let mut size: i64 = 0;
    for k in 0..group.chunks.len()
        invariant
            chunks == group@.chunks,
            size == size_of_first(chunks, k as nat),
            forall|j: nat| j <= k ==> i64::MIN <= #[trigger] size_of_first(chunks, j) <= i64::MAX,
    {
        proof {
            assert(chunks[k as int].1 == group.chunks@[k as int].compressed_size);
            assert(size_of_first(chunks, (k + 1) as nat) == size + chunks[k as int].1);
        }
        match size.checked_add(group.chunks[k].compressed_size) {
            Some(sum) => {
                size = sum;
            },
            None => {
                return None;
            },
        }
    }
    match start.checked_add(size) {
        Some(end) => Some((start, end)),
        None => None,
    }
}

/// Whether each row group has so many chunks.
fn check_chunks(groups: &Vec<RowGroup>, count: usize) -> (same: bool)
    ensures
        same <==> forall|g: int|
            0 <= g < groups@.len() ==> (#[trigger] row_group_views(groups@)[g]).chunks.len()
                == count,
{
    for k in 0..groups.len()
        invariant
            forall|g: int|
                0 <= g < k ==> (#[trigger] row_group_views(groups@)[g]).chunks.len() == count,
    {
        if groups[k].chunks.len() != count {
            proof {
                assert(row_group_views(groups@)[k as int] == groups@[k as int]@);
            }
            return false;
        }
    }
    true
}

/// Whether no bound was left without bytes.
fn check_set(unset: &Vec<Vec<(bool, bool)>>) -> (set: bool)
    ensures
        set == all_set(table_view(unset@)),
{
    let ghost table = table_view(unset@);
    for g in 0..unset.len()
        invariant
            table == table_view(unset@),
            forall|h: int, c: int|
                0 <= h < g && 0 <= c < table[h].len() ==> #[trigger] table[h][c] == (false, false),
    {
        let row: &Vec<(bool, bool)> = &unset[g];
        proof {
            assert(table[g as int] == row@);
        }
        for k in 0..row.len()
            invariant
                g < unset@.len(),
                table == table_view(unset@),
                table[g as int] == row@,
                forall|c: int| 0 <= c < k ==> #[trigger] table[g as int][c] == (false, false),
        {
            if row[k].0 || row[k].1 {
                proof {
                    assert(table[g as int][k as int] != (false, false));
                }
                return false;
            }
        }
    }
    true
}

/// One of the files of a table. Its row groups and their byte ranges are those of
/// its footer.
#[derive(Debug)]
pub struct ZippedFile {
    /// File name.
    pub(crate) file_name: String,
    /// Where the file is.
    pub(crate) path: String,
    /// The size of the file.
    pub(crate) file_size: u64,
    /// The footer of the file.
    pub(crate) metadata: Arc<ParquetMetaData>,
    /// The row groups that the footer lists.
    pub(crate) row_groups: Vec<RowGroup>,
    /// The arrow schema of the file.
    pub(crate) schema: Arc<Schema>,
    /// First byte of each row group, and the byte behind its last.
    pub(crate) row_group_ranges: Vec<(i64, i64)>,
    /// The top-level column that each leaf column is in.
    pub(crate) roots: Vec<usize>,
    /// The bounds that are kept of each leaf column of each row group.
    pub(crate) bounds: Vec<Vec<Option<Bounds>>>,
}

/// What a file is made of.
pub struct FileView {
    pub file_name: Seq<char>,
    pub path: Seq<char>,
    pub file_size: u64,
    pub metadata: Arc<ParquetMetaData>,
    pub groups: Seq<RowGroupView>,
    pub schema: Arc<Schema>,
    pub row_group_ranges: Seq<(i64, i64)>,
    pub roots: Seq<usize>,
    pub bounds: Seq<Seq<Option<Bounds>>>,
}

impl View for ZippedFile {
    type V = FileView;

    open(crate) spec fn view(&self) -> FileView {
        FileView {
            file_name: self.file_name@,
            path: self.path@,
            file_size: self.file_size,
            metadata: self.metadata,
            groups: row_group_views(self.row_groups@),
            schema: self.schema,
            row_group_ranges: self.row_group_ranges@,
            roots: self.roots@,
            bounds: table_view(self.bounds@),
        }
    }
}

impl ZippedFile {
    /// The row groups, as contracts see them.
    pub open spec fn groups(self) -> Seq<RowGroupView> {
        self@.groups
    }

    /// The columns of the file.
    pub open spec fn file_columns(self) -> Seq<Seq<char>> {
        columns(*self@.schema)
    }

    /// The footer is as one that is read from a file, the row groups are its own,
    /// and each has its byte range.
    pub open spec fn wf(self) -> bool {
        &&& complete(*self@.metadata)
        &&& self.groups() == row_groups(*self@.metadata)
        &&& all_located(self.groups())
        &&& self@.row_group_ranges == byte_ranges(self.groups())
        &&& self@.roots == leaf_roots(*self@.metadata)
        &&& self@.bounds == kept_bounds(*self@.metadata)
        &&& covers(self@.bounds, *self@.metadata)
    }

    /// Values can be made of the statistics of the column with a name, if there is
    /// one.
    pub open spec fn can_read(self, name: Seq<char>) -> bool {
        readable(fields(*self@.schema), self@.roots, self@.bounds, name)
    }

    /// The statistics of the file can be held against a predicate.
    pub open spec fn can_hold(self, predicate: PruningPredicate) -> bool {
        can_hold_against(fields(*self@.schema), self@.roots, self@.bounds, predicate)
    }

    /// Where the file is.
    pub fn path(&self) -> (path: &String)
        ensures
            path@ == self@.path,
    {
        &self.path
    }

    /// The arrow schema of the file.
    pub fn schema(&self) -> (schema: &Arc<Schema>)
        ensures
            *schema == self@.schema,
    {
        &self.schema
    }

    /// The row groups of the file.
    pub fn row_groups(&self) -> (groups: &Vec<RowGroup>)
        ensures
            row_group_views(groups@) == self.groups(),
    {
        &self.row_groups
    }

    /// First byte of each row group, and the byte behind its last.
    pub fn row_group_ranges(&self) -> (ranges: &Vec<(i64, i64)>)
        ensures
            ranges@ == self@.row_group_ranges,
    {
        &self.row_group_ranges
    }

    /// Takes a file up from its footer and schema. Fails when the footer is not as
    /// one that is read from a file, or a row group has no place in the file.
    pub fn try_new(
        file_name: String,
        path: String,
        file_size: u64,
        metadata: Arc<ParquetMetaData>,
        schema: Arc<Schema>,
    ) -> (file: Result<ZippedFile, ZipError>)
        ensures
            file is Ok <==> complete(*metadata) && all_located(row_groups(*metadata)),
            file matches Err(e) ==> e is Footer,
            file matches Ok(f) ==> {
                &&& f.wf()
                &&& f@ == (FileView {
                    file_name: file_name@,
                    path: path@,
                    file_size,
                    metadata,
                    groups: row_groups(*metadata),
                    schema,
                    row_group_ranges: byte_ranges(row_groups(*metadata)),
                    roots: leaf_roots(*metadata),
                    bounds: kept_bounds(*metadata),
                })
            },
    {
        let groups: Vec<RowGroup> = read_row_groups(&metadata);
        let ghost gs = row_group_views(groups@);
        let roots: Vec<usize> = read_leaf_roots(&metadata);
        if !check_chunks(&groups, roots.len()) || !check_set(&read_unset_bounds(&metadata)) {
            return Err(ZipError::Footer);
        }
        let bounds: Vec<Vec<Option<Bounds>>> = read_bounds(&metadata);
        let mut ranges: Vec<(i64, i64)> = Vec::new();
        for k in 0..groups.len()
            invariant
                gs == row_group_views(groups@),
                gs == row_groups(*metadata),
                complete(*metadata),
                ranges@.len() == k,
                forall|i: int|
                    0 <= i < k ==> located(#[trigger] gs[i]) && ranges@[i] == byte_ranges(gs)[i],
        {
            proof {
                assert(gs[k as int] == groups@[k as int]@);
            }
            match byte_range(&groups[k]) {
                Some(range) => {
                    ranges.push(range);
                },
                None => {
                    proof {
                        assert(!located(gs[k as int]));
                    }
                    return Err(ZipError::Footer);
                },
            }
        }
        proof {
            assert(ranges@ =~= byte_ranges(gs));
        }
        Ok(
            ZippedFile {
                file_name,
                path,
                file_size,
                metadata,
                row_groups: groups,
                schema,
                row_group_ranges: ranges,
                roots,
                bounds,
            },
        )
    }

    /// Whether the statistics of the file can be held against a predicate that was
    /// made for its fields.
    fn check_predicate(&self, predicate: &PruningPredicate) -> (can: bool)
        requires
            self.wf(),
            predicate_fields(*predicate) == fields(*self@.schema),
        ensures
            can == self.can_hold(*predicate),
    {
        let named: Vec<String> = columns_named(predicate);
        proof {
            assert forall|g: int| 0 <= g < self.bounds@.len() implies (
            #[trigger] self.bounds@[g])@.len() == self.roots@.len() by {
                assert(self@.bounds[g] == self.bounds@[g]@);
            }
        }
        for k in 0..named.len()
            invariant
                self.wf(),
                texts(named@).to_set() == predicate_columns(*predicate),
                forall|g: int|
                    0 <= g < self.bounds@.len() ==> (#[trigger] self.bounds@[g])@.len()
                        == self.roots@.len(),
                forall|i: int| 0 <= i < k ==> self.can_read(#[trigger] texts(named@)[i]),
        {
            proof {
                assert(texts(named@)[k as int] == named@[k as int]@);
                assert(texts(named@).contains(named@[k as int]@));
                assert(predicate_columns(*predicate).contains(named@[k as int]@));
            }
            if !check_readable(&self.schema, &self.roots, &self.bounds, named[k].as_str()) {
                return false;
            }
        }
        proof {
            assert forall|name: Seq<char>| #[trigger]
                predicate_columns(*predicate).contains(name) implies self.can_read(name) by {
                assert(texts(named@).to_set().contains(name));
                let i = choose|i: int| 0 <= i < texts(named@).len() && texts(named@)[i] == name;
                assert(self.can_read(texts(named@)[i]));
            }
        }
        true
    }

    /// A plan that scans all row groups of the file.
    pub fn scan_all_plan(&self) -> (plan: ParquetAccessPlan)
        requires
            self.wf(),
        ensures
            accesses(plan) == uniform(self.groups().len(), Access::Scan),
    {
        ParquetAccessPlan::new_all(self.metadata.num_row_groups())
    }
}

/// The schemas of several files.
pub open spec fn file_views(files: Seq<ZippedFile>) -> Seq<SchemaView> {
    files.map_values(|f: ZippedFile| schema_view(*f@.schema))
}

/// The fields of each of several files.
pub open spec fn file_fields(files: Seq<ZippedFile>) -> Seq<Seq<FieldView>> {
    files.map_values(|f: ZippedFile| fields(*f@.schema))
}

/// The row groups of the first file, which stand for those of the table.
pub open spec fn leading_groups(files: Seq<ZippedFile>) -> Seq<RowGroupView> {
    if files.len() == 0 {
        Seq::empty()
    } else {
        files[0].groups()
    }
}

/// How accesses change while file after file is held against its predicate: a file
/// without one changes nothing, and the others only skip row groups.
pub open spec fn pruning_steps(
    files: Seq<ZippedFile>,
    predicates: Seq<Option<Arc<PruningPredicate>>>,
    steps: Seq<Seq<Access>>,
    k: nat,
) -> bool {
    &&& steps.len() == k + 1
    &&& forall|i: int|
        0 <= i < k ==> narrowed(#[trigger] steps[i], steps[i + 1]) && match predicates[i] {
            Some(predicate) => may_prune_to(
                steps[i],
                *files[i]@.schema,
                *files[i]@.metadata,
                *predicate,
                steps[i + 1],
            ),
            None => steps[i + 1] == steps[i],
        }
}

proof fn lemma_one_more_step(
    files: Seq<ZippedFile>,
    predicates: Seq<Option<Arc<PruningPredicate>>>,
    steps: Seq<Seq<Access>>,
    k: nat,
    after: Seq<Access>,
)
    requires
        pruning_steps(files, predicates, steps, k),
        narrowed(steps.last(), after),
        match predicates[k as int] {
            Some(predicate) => may_prune_to(
                steps.last(),
                *files[k as int]@.schema,
                *files[k as int]@.metadata,
                *predicate,
                after,
            ),
            None => after == steps.last(),
        },
    ensures
        pruning_steps(files, predicates, steps.push(after), k + 1),
{
    let more = steps.push(after);
    assert forall|i: int| 0 <= i < k + 1 implies narrowed(#[trigger] more[i], more[i + 1])
        && match predicates[i] {
        Some(predicate) => may_prune_to(
            more[i],
            *files[i]@.schema,
            *files[i]@.metadata,
            *predicate,
            more[i + 1],
        ),
        None => more[i + 1] == more[i],
    } by {
        if i < k {
            assert(narrowed(steps[i], steps[i + 1]));
        }
    }
}

proof fn lemma_steps_without_predicates(
    files: Seq<ZippedFile>,
    predicates: Seq<Option<Arc<PruningPredicate>>>,
    steps: Seq<Seq<Access>>,
    k: nat,
    i: int,
)
    requires
        pruning_steps(files, predicates, steps, k),
        0 <= i <= k <= predicates.len(),
        forall|j: int| 0 <= j < predicates.len() ==> #[trigger] predicates[j] is None,
    ensures
        steps[i] == steps[0],
    decreases i,
{
    if i > 0 {
        lemma_steps_without_predicates(files, predicates, steps, k, i - 1);
        assert(predicates[i - 1] is None);
        assert(narrowed(steps[i - 1], steps[i]));
    }
}

/// A table made of several files, side by side. Its schema is their merger, and its
/// rows are those of the first file.
#[derive(Debug)]
pub struct ZippedTableProvider {
    /// The files that are read.
    pub(crate) zipped_files: Vec<ZippedFile>,
    /// The merged schema of the files.
    pub(crate) schema: Arc<Schema>,
    pub(crate) metrics: ExecutionPlanMetricsSet,
    /// The number of rows of the table.
    pub(crate) num_rows: i64,
}

impl ZippedTableProvider {
    /// The files of the table.
    pub open(crate) spec fn files(self) -> Seq<ZippedFile> {
        self.zipped_files@
    }

    /// The schema of the table.
    pub open(crate) spec fn table_schema(self) -> Arc<Schema> {
        self.schema
    }

    /// The row groups of the table.
    pub open spec fn groups(self) -> Seq<RowGroupView> {
        leading_groups(self.files())
    }

    /// The number of rows of the table.
    pub open(crate) spec fn rows(self) -> i64 {
        self.num_rows
    }

    /// Every file is well formed, the schema is their merger, and the row count
    /// is that of the first file.
    pub open(crate) spec fn wf(self) -> bool {
        &&& forall|i: int| 0 <= i < self.files().len() ==> (#[trigger] self.files()[i]).wf()
        &&& schema_view(*self.schema) == merged(file_views(self.files()))
        &&& joinable(all_fields(file_fields(self.files()))) ==> fields(*self.schema)
            == joined_fields(all_fields(file_fields(self.files())))
        &&& self.num_rows == rows_in_first(self.groups(), self.groups().len())
    }

    /// All files have as many row groups as the first.
    pub open spec fn in_step(self) -> bool {
        forall|i: int|
            0 <= i < self.files().len() ==> (#[trigger] self.files()[i]).groups().len()
                == self.groups().len()
    }

    /// Values can be made of the statistics of all columns of all files.
    pub open spec fn all_readable(self) -> bool {
        forall|i: int, name: Seq<char>|
            0 <= i < self.files().len() ==> #[trigger] self.files()[i].can_read(name)
    }

    /// There is a predicate or none for each file, and those with one have as many
    /// row groups as the first and can be held against it.
    pub open spec fn can_prune(self, predicates: Seq<Option<Arc<PruningPredicate>>>) -> bool {
        &&& predicates.len() == self.files().len()
        &&& forall|i: int|
            0 <= i < predicates.len() && #[trigger] predicates[i] is Some
                ==> self.files()[i].groups().len() == self.groups().len()
                && self.files()[i].can_hold(*predicates[i]->0)
    }

    /// Each predicate was made for the fields of its file.
    pub open spec fn made_for(self, predicates: Seq<Option<Arc<PruningPredicate>>>) -> bool {
        forall|i: int|
            0 <= i < predicates.len() && #[trigger] predicates[i] is Some ==> predicate_fields(
                *predicates[i]->0,
            ) == fields(*self.files()[i]@.schema)
    }

    /// `access` is how row groups may be read after file after file was held against
    /// its predicate: all of them, but for those that a file ruled out.
    pub open spec fn plans(
        self,
        predicates: Seq<Option<Arc<PruningPredicate>>>,
        access: Seq<Access>,
    ) -> bool {
        exists|steps: Seq<Seq<Access>>|
            {
                &&& #[trigger] pruning_steps(
                    self.files(),
                    predicates,
                    steps,
                    self.files().len(),
                )
                &&& steps.first() == uniform(self.groups().len(), Access::Scan)
                &&& steps.last() == access
            }
    }

    /// Each predicate may be what the filter comes to in its file.
    pub open spec fn stand_for(
        self,
        predicates: Seq<Option<Arc<PruningPredicate>>>,
        filter: Filter,
    ) -> bool {
        &&& predicates.len() == self.files().len()
        &&& forall|i: int|
            0 <= i < predicates.len() ==> may_prune_by(
                filter,
                *self.files()[i]@.schema,
                #[trigger] predicates[i],
            )
    }

    /// `access` is how row groups may be read under a filter.
    pub open spec fn plans_for(self, filter: Filter, access: Seq<Access>) -> bool {
        exists|predicates: Seq<Option<Arc<PruningPredicate>>>|
            {
                &&& #[trigger] self.stand_for(predicates, filter)
                &&& self.can_prune(predicates)
                &&& self.plans(predicates, access)
            }
    }

    /// Predicates that the filter may come to cannot be held against the files.
    pub open spec fn may_be_out_of_step(self, filter: Filter) -> bool {
        exists|predicates: Seq<Option<Arc<PruningPredicate>>>| #[trigger]
            self.stand_for(predicates, filter) && !self.can_prune(predicates)
    }

    /// The files of the table.
    pub fn zipped_files(&self) -> (files: &Vec<ZippedFile>)
        ensures
            files@ == self.files(),
    {
        &self.zipped_files
    }

    /// The schema of the table.
    pub fn schema(&self) -> (schema: Arc<Schema>)
        ensures
            schema == self.table_schema(),
    {
        share(&self.schema)
    }

    /// Puts files together to a table. Fails when their schemas do not merge.
    pub fn try_new(zipped_files: Vec<ZippedFile>) -> (provider: Result<ZippedTableProvider, ZipError>)
        requires
            forall|i: int| 0 <= i < zipped_files@.len() ==> (#[trigger] zipped_files@[i]).wf(),
            rows_fit(leading_groups(zipped_files@)),
        ensures
            provider matches Ok(p) ==> p.wf() && p.files() == zipped_files@,
            provider matches Err(e) ==> e is Merge,
            joinable(all_fields(file_fields(zipped_files@))) && !metadata_conflict(
                file_views(zipped_files@),
            ) ==> provider is Ok,
            clashing(all_fields(file_fields(zipped_files@))) || metadata_conflict(
                file_views(zipped_files@),
            ) ==> provider is Err,
    {
        let mut parts: Vec<Arc<Schema>> = Vec::new();
        for k in 0..zipped_files.len()
            invariant
                parts@.len() == k,
                forall|i: int| 0 <= i < k ==> #[trigger] parts@[i] == zipped_files@[i].schema,
        {
            parts.push(share(&zipped_files[k].schema));
        }
        proof {
            assert(shared_views(parts@) =~= file_views(zipped_files@));
            assert(shared_fields(parts@) =~= file_fields(zipped_files@));
        }
        let schema: Schema = match merge_all(&parts) {
            Ok(schema) => schema,
            Err(e) => {
                return Err(ZipError::Merge(e));
            },
        };
        let ghost groups = leading_groups(zipped_files@);
        let mut num_rows: i64 = 0;
        if zipped_files.len() > 0 {
            let first: &ZippedFile = &zipped_files[0];
            for k in 0..first.row_groups.len()
                invariant
                    groups == row_group_views(first.row_groups@),
                    rows_fit(groups),
                    num_rows == rows_in_first(groups, k as nat),
            {
                proof {
                    assert(groups[k as int] == first.row_groups@[k as int]@);
                    assert(rows_in_first(groups, (k + 1) as nat) == num_rows
                        + groups[k as int].num_rows);
                }
                num_rows += first.row_groups[k].num_rows;
            }
        }
        Ok(
            ZippedTableProvider {
                zipped_files,
                schema: Arc::new(schema),
                metrics: ExecutionPlanMetricsSet::new(),
                num_rows,
            },
        )
    }

    /// Decides which row groups to scan. `predicates` holds, for each file, the
    /// predicate that its statistics are held against, if there is one. A row
    /// group is scanned unless some file rules it out.
    pub fn prune(&self, predicates: &Vec<Option<Arc<PruningPredicate>>>) -> (plan:
        ParquetAccessPlan)
        requires
            self.wf(),
            self.can_prune(predicates@),
        ensures
            self.plans(predicates@, accesses(plan)),
            narrowed(uniform(self.groups().len(), Access::Scan), accesses(plan)),
    {
        let init_plan: ParquetAccessPlan = if self.zipped_files.len() > 0 {
            self.zipped_files[0].scan_all_plan()
        } else {
            ParquetAccessPlan::new_none(0)
        };
        let ghost all = uniform(self.groups().len(), Access::Scan);
        proof {
            assert(accesses(init_plan) =~= all);
        }
        let mut filter: RowGroupAccessPlanFilter = RowGroupAccessPlanFilter::new(init_plan);
        let ghost mut steps: Seq<Seq<Access>> = seq![all];
        for k in 0..self.zipped_files.len()
            invariant
                self.wf(),
                self.can_prune(predicates@),
                all == uniform(self.groups().len(), Access::Scan),
                pruning_steps(self.files(), predicates@, steps, k as nat),
                steps.first() == all,
                steps.last() == filter_accesses(filter),
                narrowed(all, filter_accesses(filter)),
        {
            let zipped_file: &ZippedFile = &self.zipped_files[k];
            let ghost before = filter_accesses(filter);
            let file_metrics: ParquetFileMetrics = ParquetFileMetrics::new(
                0,
                &zipped_file.file_name,
                &self.metrics,
            );
            proof {
                assert(self.files()[k as int] == *zipped_file);
            }
            if let Some(predicate) = &predicates[k] {
                proof {
                    assert(predicates@[k as int] is Some);
                }
                prune_by_statistics(
                    &mut filter,
                    &zipped_file.schema,
                    &zipped_file.metadata,
                    predicate,
                    &file_metrics,
                );
            }
            proof {
                let after = filter_accesses(filter);
                lemma_one_more_step(self.files(), predicates@, steps, k as nat, after);
                crate::access::law_narrowing_is_transitive(all, before, after);
                steps = steps.push(after);
            }
        }
        filter.build()
    }

    /// What the filter comes to in each file.
    fn predicates_for(&self, filter: &Filter) -> (predicates: Vec<Option<Arc<PruningPredicate>>>)
        ensures
            self.stand_for(predicates@, *filter),
            self.made_for(predicates@),
    {
        let mut errors: Count = global_counter(&self.metrics, "num_predicate_creation_errors");
        let mut predicates: Vec<Option<Arc<PruningPredicate>>> = Vec::new();
        for k in 0..self.zipped_files.len()
            invariant
                predicates@.len() == k,
                forall|i: int|
                    0 <= i < k ==> may_prune_by(
                        *filter,
                        *self.files()[i]@.schema,
                        #[trigger] predicates@[i],
                    ),
                self.made_for(predicates@),
        {
            predicates.push(pruning_predicate(filter, &self.zipped_files[k].schema, &mut errors));
        }
        predicates
    }

    /// Whether all files with a predicate have as many row groups as the first and
    /// can be held against it.
    fn check_steps(&self, predicates: &Vec<Option<Arc<PruningPredicate>>>) -> (can: bool)
        requires
            self.wf(),
            predicates@.len() == self.files().len(),
            self.made_for(predicates@),
        ensures
            can == self.can_prune(predicates@),
    {
        for k in 0..predicates.len()
            invariant
                self.wf(),
                predicates@.len() == self.files().len(),
                self.made_for(predicates@),
                forall|i: int|
                    0 <= i < k && #[trigger] predicates@[i] is Some
                        ==> self.files()[i].groups().len() == self.groups().len()
                        && self.files()[i].can_hold(*predicates@[i]->0),
        {
            if let Some(predicate) = &predicates[k] {
                let file: &ZippedFile = &self.zipped_files[k];
                proof {
                    assert(predicates@[k as int] is Some);
                    assert(self.files()[k as int] == *file);
                }
                if file.row_groups.len() != self.zipped_files[0].row_groups.len()
                    || !file.check_predicate(predicate) {
                    return false;
                }
            }
        }
        true
    }

    /// Decides which row groups to scan under a filter: all of them, but for those
    /// whose statistics rule the filter out in some file. `None` if such a file has
    /// other row groups than the first, so that they cannot be told apart, or if no
    /// values can be made of its statistics.
    pub fn create_plan(&self, filter: &Filter) -> (plan: Option<ParquetAccessPlan>)
        requires
            self.wf(),
        ensures
            plan matches Some(p) ==> self.plans_for(*filter, accesses(p)) && narrowed(
                uniform(self.groups().len(), Access::Scan),
                accesses(p),
            ),
            plan is None ==> self.may_be_out_of_step(*filter),
            self.in_step() && self.all_readable() ==> plan is Some,
    {
        let predicates: Vec<Option<Arc<PruningPredicate>>> = self.predicates_for(filter);
        if !self.check_steps(&predicates) {
            proof {
                if self.in_step() && self.all_readable() {
                    assert forall|i: int|
                        0 <= i < predicates@.len() && #[trigger] predicates@[i] is Some implies
                        self.files()[i].groups().len() == self.groups().len()
                        && self.files()[i].can_hold(*predicates@[i]->0) by {
                        assert forall|name: Seq<char>| #[trigger]
                            predicate_columns(*predicates@[i]->0).contains(name) implies
                            self.files()[i].can_read(name) by {}
                    }
                }
            }
            return None;
        }
        Some(self.prune(&predicates))
    }

    /// The number of rows that a plan yields, for the optimizer.
    pub fn estimate_rows(&self, access_plan: &ParquetAccessPlan) -> (rows: usize)
        requires
            planned_rows(self.groups(), accesses(*access_plan)) <= usize::MAX,
        ensures
            rows == planned_rows(self.groups(), accesses(*access_plan)),
    {
        match self.try_estimate_rows(access_plan) {
            Some(rows) => rows,
            None => 0,
        }
    }

    /// The number of rows that a plan yields, or `None` when there are more than
    /// a `usize` holds.
    pub fn try_estimate_rows(&self, access_plan: &ParquetAccessPlan) -> (rows: Option<usize>)
        ensures
            rows == {
                let total = planned_rows(self.groups(), accesses(*access_plan));
                if total <= usize::MAX {
                    Some(total as usize)
                } else {
                    None
                }
            },
    {
        if self.zipped_files.len() == 0 {
            return Some(0);
        }
        let list: Vec<RowGroupAccess> = inner(access_plan);
        count_rows(&self.zipped_files[0].row_groups, &list)
    }

    /// The exact number of rows of the table, for the optimizer.
    pub fn statistics(&self) -> (rows: Option<usize>)
        ensures
            rows == Some(self.rows() as usize),
    {
        Some(self.num_rows as usize)
    }

    /// Tells for each filter that the scan applies it to row groups only, so
    /// that rows may come back that do not pass it.
    pub fn supports_filters_pushdown(&self, filters: usize) -> (answers: Vec<FilterPushDown>)
        ensures
            answers@ == Seq::new(filters as nat, |i: int| FilterPushDown::Inexact),
    {
        let mut answers: Vec<FilterPushDown> = Vec::new();
        for k in 0..filters
            invariant
                answers@ == Seq::new(k as nat, |i: int| FilterPushDown::Inexact),
        {
            answers.push(FilterPushDown::Inexact);
        }
        answers
    }
}

/// Without predicates nothing is ruled out.
pub proof fn law_no_predicate_rules_nothing_out(
    provider: ZippedTableProvider,
    predicates: Seq<Option<Arc<PruningPredicate>>>,
    access: Seq<Access>,
)
    requires
        predicates.len() == provider.files().len(),
        forall|i: int| 0 <= i < predicates.len() ==> #[trigger] predicates[i] is None,
        provider.plans(predicates, access),
    ensures
        access == uniform(provider.groups().len(), Access::Scan),
{
    let k = provider.files().len();
    let steps = choose|steps: Seq<Seq<Access>>|
        {
            &&& #[trigger] pruning_steps(provider.files(), predicates, steps, k)
            &&& steps.first() == uniform(provider.groups().len(), Access::Scan)
            &&& steps.last() == access
        };
    lemma_steps_without_predicates(provider.files(), predicates, steps, k, k as int);
}

/// How well a scan applies a filter.
#[derive(Debug, Clone, Copy, PartialEq, Eq, Structural)]
pub enum FilterPushDown {
    /// Not at all.
    Unsupported,
    /// Some rows that do not pass it may come back.
    Inexact,
    /// Only rows that pass it come back.
    Exact,
}

/// The sizes of chunks, added up.
spec fn sum_of_sizes(chunks: Seq<(Seq<char>, i64)>) -> int {
    chunks.fold_left(0int, |sum: int, chunk: (Seq<char>, i64)| sum + chunk.1)
}

proof fn lemma_size_is_sum(chunks: Seq<(Seq<char>, i64)>, k: nat)
    requires
        k <= chunks.len(),
    ensures
        size_of_first(chunks, k) == sum_of_sizes(chunks.take(k as int)),
    decreases k,
{
    let front = chunks.take(k as int);
    if k > 0 {
        lemma_size_is_sum(chunks, (k - 1) as nat);
        assert(front.drop_last() =~= chunks.take(k - 1));
        assert(front.last() == chunks[k - 1]);
    }
}

proof fn lemma_size_of_all(chunks: Seq<(Seq<char>, i64)>)
    ensures
        size_of_first(chunks, chunks.len()) == chunks.fold_left(
            0int,
            |sum: int, chunk: (Seq<char>, i64)| sum + chunk.1,
        ),
{
    lemma_size_is_sum(chunks, chunks.len());
    assert(chunks.take(chunks.len() as int) =~= chunks);
}

/// The byte range of a row group begins at its offset and is as long as all of its chunks
/// together, each counted once.
pub proof fn law_range_is_as_long_as_its_chunks(groups: Seq<RowGroupView>, g: int)
    requires
        all_located(groups),
        0 <= g < groups.len(),
    ensures
        byte_ranges(groups).len() == groups.len(),
        groups[g].file_offset == Some(byte_ranges(groups)[g].0),
        byte_ranges(groups)[g].1 - byte_ranges(groups)[g].0 == groups[g].chunks.fold_left(
            0int,
            |sum: int, chunk: (Seq<char>, i64)| sum + chunk.1,
        ),
{
    assert(located(groups[g]));
    lemma_size_of_all(groups[g].chunks);
}

/// One more chunk makes the byte range of a row group longer by exactly its size.
pub proof fn law_range_grows_by_each_chunk(group: RowGroupView, column: Seq<char>, size: i64)
    requires
        located(group),
        located(RowGroupView { chunks: group.chunks.push((column, size)), ..group }),
    ensures
        ({
            let longer = RowGroupView { chunks: group.chunks.push((column, size)), ..group };
            let before = byte_ranges(seq![group])[0];
            let after = byte_ranges(seq![longer])[0];
            after.0 == before.0 && after.1 == before.1 + size
        }),
{
    let longer = RowGroupView { chunks: group.chunks.push((column, size)), ..group };
    lemma_size_of_all(group.chunks);
    lemma_size_of_all(longer.chunks);
    assert(longer.chunks.drop_last() =~= group.chunks);
    assert(byte_ranges(seq![group])[0].0 == group.file_offset->0);
    assert(byte_ranges(seq![longer])[0].0 == group.file_offset->0);
}

/// The order of chunks does not matter for the byte range of a row group.
pub proof fn law_range_does_not_depend_on_chunk_order(a: RowGroupView, b: RowGroupView)
    requires
        located(a),
        located(b),
        a.file_offset == b.file_offset,
        a.chunks.to_multiset() == b.chunks.to_multiset(),
    ensures
        byte_ranges(seq![a])[0] == byte_ranges(seq![b])[0],
{
    let add_size = |sum: int, chunk: (Seq<char>, i64)| sum + chunk.1;
    lemma_size_of_all(a.chunks);
    lemma_size_of_all(b.chunks);
    vstd::seq_lib::lemma_fold_left_permutation(a.chunks, b.chunks, add_size, 0int);
}

/// Row groups that take up room and lie behind one another, each with all of its chunks
/// before the next begins, have byte ranges that do not overlap.
pub proof fn law_ranges_do_not_overlap(groups: Seq<RowGroupView>)
    requires
        all_located(groups),
        forall|g: int|
            0 <= g < groups.len() ==> (#[trigger] groups[g]).chunks.fold_left(
                0int,
                |sum: int, chunk: (Seq<char>, i64)| sum + chunk.1,
            ) > 0,
        forall|g: int, h: int|
            0 <= g < h < groups.len() ==> (#[trigger] groups[g]).file_offset->0
                + groups[g].chunks.fold_left(
                0int,
                |sum: int, chunk: (Seq<char>, i64)| sum + chunk.1,
            ) <= (#[trigger] groups[h]).file_offset->0,
    ensures
        laid_out(byte_ranges(groups)),
        ascending(byte_ranges(groups)),
{
    let ranges = byte_ranges(groups);
    assert forall|g: int| 0 <= g < ranges.len() implies (#[trigger] ranges[g]).0 < ranges[g].1 by {
        law_range_is_as_long_as_its_chunks(groups, g);
        assert(groups[g].chunks.len() >= 0);
    }
    assert forall|g: int, h: int| 0 <= g < h < ranges.len() implies ranges[g].1 <= ranges[h].0 by {
        law_range_is_as_long_as_its_chunks(groups, g);
        law_range_is_as_long_as_its_chunks(groups, h);
        assert(groups[g].file_offset->0 <= groups[h].file_offset->0);
    }
}

proof fn lemma_sizes_fit(chunks: Seq<(Seq<char>, i64)>, k: nat)
    requires
        k <= chunks.len(),
        forall|c: int| 0 <= c < chunks.len() ==> (#[trigger] chunks[c]).1 >= 0,
    ensures
        0 <= size_of_first(chunks, k) <= size_of_first(chunks, chunks.len()),
    decreases chunks.len() - k,
{
    if k < chunks.len() {
        lemma_sizes_fit(chunks, k + 1);
        assert(chunks[k as int].1 >= 0);
    }
    lemma_size_not_negative(chunks, k);
}

proof fn lemma_size_not_negative(chunks: Seq<(Seq<char>, i64)>, k: nat)
    requires
        k <= chunks.len(),
        forall|c: int| 0 <= c < chunks.len() ==> (#[trigger] chunks[c]).1 >= 0,
    ensures
        0 <= size_of_first(chunks, k),
    decreases k,
{
    if k > 0 {
        lemma_size_not_negative(chunks, (k - 1) as nat);
        assert(chunks[k - 1].1 >= 0);
    }
}

/// A row group with an offset and chunks of ordinary sizes has a place in the file, if
/// the byte behind it has a number; one without an offset has none.
pub proof fn law_ordinary_row_groups_are_located(group: RowGroupView)
    requires
        forall|c: int| 0 <= c < group.chunks.len() ==> (#[trigger] group.chunks[c]).1 >= 0,
        group.file_offset matches Some(start) ==> start >= 0,
    ensures
        located(group) <==> (group.file_offset is Some && group.file_offset->0
            + group.chunks.fold_left(0int, |sum: int, chunk: (Seq<char>, i64)| sum + chunk.1)
            <= i64::MAX),
{
    lemma_size_of_all(group.chunks);
    if let Some(start) = group.file_offset {
        lemma_sizes_fit(group.chunks, 0);
        if start + compressed_size(group) <= i64::MAX {
            assert forall|k: nat| k <= group.chunks.len() implies i64::MIN
                <= #[trigger] size_of_first(group.chunks, k) <= i64::MAX by {
                lemma_sizes_fit(group.chunks, k);
            }
        }
    }
}

proof fn lemma_rows_are_sum(groups: Seq<RowGroupView>, k: nat)
    requires
        k <= groups.len(),
    ensures
        rows_in_first(groups, k) == groups.take(k as int).fold_left(
            0int,
            |sum: int, group: RowGroupView| sum + group.num_rows,
        ),
    decreases k,
{
    let front = groups.take(k as int);
    if k > 0 {
        lemma_rows_are_sum(groups, (k - 1) as nat);
        assert(front.drop_last() =~= groups.take(k - 1));
        assert(front.last() == groups[k - 1]);
    }
}

/// The rows of a table are those of all row groups of its first file, added up; a table
/// without files has none.
pub proof fn law_table_has_the_rows_of_its_first_file(provider: ZippedTableProvider)
    requires
        provider.wf(),
    ensures
        provider.files().len() == 0 ==> provider.rows() == 0,
        provider.files().len() > 0 ==> provider.rows() == provider.files()[0].groups().fold_left(
            0int,
            |sum: int, group: RowGroupView| sum + group.num_rows,
        ),
{
    let groups = provider.groups();
    lemma_rows_are_sum(groups, groups.len());
    assert(groups.take(groups.len() as int) =~= groups);
}

/// Two tables whose first files have the same row groups, in whatever order, have
/// equally many rows.
pub proof fn law_rows_do_not_depend_on_row_group_order(
    a: ZippedTableProvider,
    b: ZippedTableProvider,
)
    requires
        a.wf(),
        b.wf(),
        a.files().len() > 0,
        b.files().len() > 0,
        a.files()[0].groups().to_multiset() == b.files()[0].groups().to_multiset(),
    ensures
        a.rows() == b.rows(),
{
    let add_rows = |sum: int, group: RowGroupView| sum + group.num_rows;
    law_table_has_the_rows_of_its_first_file(a);
    law_table_has_the_rows_of_its_first_file(b);
    vstd::seq_lib::lemma_fold_left_permutation(
        a.files()[0].groups(),
        b.files()[0].groups(),
        add_rows,
        0int,
    );
}

/// A table whose first file has one more row group has exactly the rows of that row
/// group more.
pub proof fn law_one_more_row_group_adds_its_rows(
    less: ZippedTableProvider,
    more: ZippedTableProvider,
    group: RowGroupView,
)
    requires
        less.wf(),
        more.wf(),
        less.files().len() > 0,
        more.files().len() > 0,
        more.files()[0].groups() == less.files()[0].groups().push(group),
    ensures
        more.rows() == less.rows() + group.num_rows,
{
    law_table_has_the_rows_of_its_first_file(less);
    law_table_has_the_rows_of_its_first_file(more);
    assert(more.files()[0].groups().drop_last() =~= less.files()[0].groups());
}

/// The rows of a table are those that a plan yields which scans all row groups.
pub proof fn law_full_plan_yields_all_rows(provider: ZippedTableProvider)
    requires
        provider.wf(),
        forall|g: int|
            0 <= g < provider.groups().len() ==> 0 <= (#[trigger] provider.groups()[g]).num_rows
                <= usize::MAX,
    ensures
        planned_rows(
            provider.groups(),
            Seq::new(provider.groups().len(), |g: int| Access::Scan),
        ) == provider.rows(),
{
    lemma_full_plan(provider.groups(), provider.groups().len());
}

proof fn lemma_full_plan(groups: Seq<RowGroupView>, k: nat)
    requires
        k <= groups.len(),
        forall|g: int|
            0 <= g < groups.len() ==> 0 <= (#[trigger] groups[g]).num_rows <= usize::MAX,
    ensures
        rows_of_first(groups, Seq::new(groups.len(), |g: int| Access::Scan), k) == rows_in_first(
            groups,
            k,
        ),
    decreases k,
{
    if k > 0 {
        lemma_full_plan(groups, (k - 1) as nat);
        assert(groups[k - 1].num_rows >= 0);
    }
}

/// The row groups of a table are those of its first file, whatever files follow.
pub proof fn law_first_file_stands_for_the_table(files: Seq<ZippedFile>, more: Seq<ZippedFile>)
    requires
        files.len() > 0,
    ensures
        leading_groups(files + more) == files[0].groups(),
        leading_groups(Seq::<ZippedFile>::empty()).len() == 0,
{
}

/// Under a plan each row group is read in full or skipped.
pub proof fn law_plans_read_or_skip(
    provider: ZippedTableProvider,
    predicates: Seq<Option<Arc<PruningPredicate>>>,
    access: Seq<Access>,
    g: int,
)
    requires
        provider.plans(predicates, access),
        0 <= g < access.len(),
    ensures
        access.len() == provider.groups().len(),
        access[g] is Scan || access[g] is Skip,
{
    let n = provider.files().len();
    let steps = choose|steps: Seq<Seq<Access>>|
        {
            &&& #[trigger] pruning_steps(provider.files(), predicates, steps, n)
            &&& steps.first() == uniform(provider.groups().len(), Access::Scan)
            &&& steps.last() == access
        };
    lemma_later_steps_skip_more(provider.files(), predicates, steps, n, 0, n as int);
    assert(steps[n as int] == access);
    assert(steps[0].len() == access.len());
    assert(access[g] == steps[0][g] || access[g] is Skip);
}

proof fn lemma_later_steps_skip_more(
    files: Seq<ZippedFile>,
    predicates: Seq<Option<Arc<PruningPredicate>>>,
    steps: Seq<Seq<Access>>,
    k: nat,
    i: int,
    j: int,
)
    requires
        pruning_steps(files, predicates, steps, k),
        0 <= i <= j <= k,
    ensures
        steps[j].len() == steps[i].len(),
        forall|g: int|
            0 <= g < steps[j].len() ==> #[trigger] steps[j][g] == steps[i][g] || steps[j][g] is Skip,
    decreases j - i,
{
    if i < j {
        lemma_later_steps_skip_more(files, predicates, steps, k, i, j - 1);
        assert(narrowed(steps[j - 1], steps[j - 1 + 1]));
        assert forall|g: int| 0 <= g < steps[j].len() implies #[trigger] steps[j][g] == steps[i][g]
            || steps[j][g] is Skip by {
            assert(steps[j - 1][g] == steps[i][g] || steps[j - 1][g] is Skip);
        }
    }
}

/// A plan heeds the predicates of all files: what each of them rules out of what was left
/// stays ruled out.
pub proof fn law_every_predicate_is_heeded(
    provider: ZippedTableProvider,
    predicates: Seq<Option<Arc<PruningPredicate>>>,
    access: Seq<Access>,
    f: int,
) -> (held: (Seq<Access>, Seq<Access>))
    requires
        provider.plans(predicates, access),
        0 <= f < provider.files().len(),
        predicates[f] is Some,
    ensures
        may_prune_to(
            held.0,
            *provider.files()[f]@.schema,
            *provider.files()[f]@.metadata,
            *predicates[f]->0,
            held.1,
        ),
        held.0.len() == provider.groups().len(),
        held.1.len() == provider.groups().len(),
        access.len() == provider.groups().len(),
        forall|g: int|
            0 <= g < access.len() && (#[trigger] held.1[g]) is Skip ==> access[g] is Skip,
{
    let n = provider.files().len();
    let steps = choose|steps: Seq<Seq<Access>>|
        {
            &&& #[trigger] pruning_steps(provider.files(), predicates, steps, n)
            &&& steps.first() == uniform(provider.groups().len(), Access::Scan)
            &&& steps.last() == access
        };
    assert(narrowed(steps[f], steps[f + 1]));
    lemma_later_steps_skip_more(provider.files(), predicates, steps, n, 0, f);
    lemma_later_steps_skip_more(provider.files(), predicates, steps, n, f + 1, n as int);
    assert(steps[n as int] == access);
    assert forall|g: int| 0 <= g < access.len() && (
    #[trigger] steps[f + 1][g]) is Skip implies access[g] is Skip by {
        assert(access[g] == steps[f + 1][g] || access[g] is Skip);
    }
    (steps[f], steps[f + 1])
}

/// A table has a column exactly if one of its files has, and has it once.
pub proof fn law_table_has_the_columns_of_its_files(provider: ZippedTableProvider, name: Seq<char>)
    requires
        provider.wf(),
    ensures
        columns(*provider.table_schema()).contains(name) <==> exists|f: int|
            0 <= f < provider.files().len() && (
            #[trigger] provider.files()[f]).file_columns().contains(name),
        columns(*provider.table_schema()).no_duplicates(),
{
    let files = provider.files();
    let parts = file_views(files);
    law_merger_has_the_columns_of_its_parts(parts, name);
    assert(columns(*provider.table_schema()) == merged(parts).columns);
    if exists|f: int| 0 <= f < parts.len() && (#[trigger] parts[f]).columns.contains(name) {
        let f = choose|f: int| 0 <= f < parts.len() && (#[trigger] parts[f]).columns.contains(name);
        assert(files[f].file_columns() == parts[f].columns);
    }
    if exists|f: int|
        0 <= f < files.len() && (#[trigger] files[f]).file_columns().contains(name) {
        let f = choose|f: int|
            0 <= f < files.len() && (#[trigger] files[f]).file_columns().contains(name);
        assert(parts[f].columns == files[f].file_columns());
    }
}

proof fn lemma_rows_ascend(groups: Seq<RowGroupView>, k: nat, n: nat)
    requires
        k <= n <= groups.len(),
        forall|g: int| 0 <= g < groups.len() ==> (#[trigger] groups[g]).num_rows >= 0,
    ensures
        0 <= rows_in_first(groups, k) <= rows_in_first(groups, n),
    decreases n,
{
    if n > 0 {
        assert(groups[n - 1].num_rows >= 0);
        if k < n {
            lemma_rows_ascend(groups, k, (n - 1) as nat);
        } else {
            lemma_rows_ascend(groups, (k - 1) as nat, (n - 1) as nat);
        }
    }
}

/// Ordinary row counts can be added up exactly if their sum can be counted.
pub proof fn law_ordinary_rows_fit(groups: Seq<RowGroupView>)
    requires
        forall|g: int| 0 <= g < groups.len() ==> (#[trigger] groups[g]).num_rows >= 0,
    ensures
        rows_fit(groups) <==> groups.fold_left(
            0int,
            |sum: int, group: RowGroupView| sum + group.num_rows,
        ) <= i64::MAX,
{
    lemma_rows_are_sum(groups, groups.len());
    assert(groups.take(groups.len() as int) =~= groups);
    lemma_rows_ascend(groups, 0, groups.len());
    if rows_in_first(groups, groups.len()) <= i64::MAX {
        assert forall|k: nat| k <= groups.len() implies i64::MIN <= #[trigger] rows_in_first(
            groups,
            k,
        ) <= i64::MAX by {
            lemma_rows_ascend(groups, k, groups.len());
        }
    }
}

} // verus!
