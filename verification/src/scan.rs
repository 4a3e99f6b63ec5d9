//! Laying out the scan of a table: which files are read, what of each, and how
//! their scans are put together.

use crate::access::{
    accesses, law_narrowing_yields_fewer_rows, planned_rows, uniform, Access, Filter,
};
use crate::exec::{law_stitching_keeps_order, stitched_view};
use crate::partition::{partition_file, slices_of};
use crate::schema::{
    all_columns, columns, field_name, lemma_distinct_of_unique, mergeable, schema_view, SchemaView,
};
use crate::zip::{file_views, ZippedFile, ZippedTableProvider};
use datafusion::arrow::datatypes::Schema;
use datafusion::datasource::physical_plan::parquet::ParquetAccessPlan;
use datafusion::datasource::physical_plan::FileGroup;
use vstd::prelude::*;

verus! {

/// What identifies the part of a file that a plan node reads.
#[derive(Debug, Clone)]
pub struct ZipPartitionInfo {
    pub path: String,
    pub file_size: u64,
    pub access_plan: ParquetAccessPlan,
    pub row_group_ranges: Vec<(i64, i64)>,
}

impl ZipPartitionInfo {
    pub fn new(
        path: String,
        file_size: u64,
        access_plan: ParquetAccessPlan,
        row_group_ranges: Vec<(i64, i64)>,
    ) -> (info: ZipPartitionInfo)
        ensures
            info.path == path,
            info.file_size == file_size,
            info.access_plan == access_plan,
            info.row_group_ranges == row_group_ranges,
    {
        ZipPartitionInfo { path, file_size, access_plan, row_group_ranges }
    }
}

/// The scan of one file.
#[derive(Debug)]
pub struct FileScan {
    /// Which of the table's files.
    pub file: usize,
    /// The columns to read, by position in the file; all of them if `None`.
    pub projection: Option<Vec<usize>>,
    /// How many rows to read at most.
    pub limit: Option<usize>,
    /// What each partition reads.
    pub file_groups: Vec<FileGroup>,
    /// How many rows the scan yields.
    pub num_rows: usize,
    pub info: ZipPartitionInfo,
}

/// How the scans of files are put together. A number is a position in the list
/// of scans.
#[derive(Debug, PartialEq, Eq)]
pub enum ScanNode {
    /// No file is read.
    Empty,
    /// One scan.
    Source(usize),
    /// Two nodes side by side, with the scans whose partition info they carry.
    Zip {
        left: Box<ScanNode>,
        right: Box<ScanNode>,
        left_info: Option<usize>,
        right_info: Option<usize>,
    },
}

/// The scans of a table and how they are put together.
#[derive(Debug)]
pub struct ScanOutline {
    pub scans: Vec<FileScan>,
    pub root: ScanNode,
}

/// Positions in the file of the columns that `projection` picks from the table;
/// columns that the file lacks are left out.
pub open spec fn projected(
    in_file: Seq<Seq<char>>,
    in_table: Seq<Seq<char>>,
    projection: Seq<usize>,
) -> Seq<usize>
    decreases projection.len(),
{
    if projection.len() == 0 {
        Seq::empty()
    } else {
        let before = projected(in_file, in_table, projection.drop_last());
        match in_file.index_of_first(in_table[projection.last() as int]) {
            Some(i) => before.push(i as usize),
            None => before,
        }
    }
}

/// The columns to read of a file.
pub open spec fn file_projection(
    in_file: Seq<Seq<char>>,
    in_table: Seq<Seq<char>>,
    projection: Option<Seq<usize>>,
) -> Option<Seq<usize>> {
    match projection {
        Some(picked) => Some(projected(in_file, in_table, picked)),
        None => None,
    }
}

/// An optional list of columns, as contracts see it.
pub open spec fn columns_view(list: Option<Vec<usize>>) -> Option<Seq<usize>> {
    match list {
        Some(picked) => Some(picked@),
        None => None,
    }
}

/// An optional list of columns that is only looked at, as contracts see it.
pub open spec fn columns_ref_view(list: Option<&Vec<usize>>) -> Option<Seq<usize>> {
    match list {
        Some(picked) => Some(picked@),
        None => None,
    }
}

/// A file has to be read unless a projection picks none of its columns.
pub open spec fn reads_any(projection: Option<Seq<usize>>) -> bool {
    projection matches Some(picked) ==> picked.len() > 0
}

/// The node that puts the first `k` scans together: the first two side by side,
/// and every later one to the right of what is there.
pub open spec fn stitched(k: nat) -> ScanNode
    decreases k,
{
    if k == 0 {
        ScanNode::Empty
    } else if k == 1 {
        ScanNode::Source(0)
    } else {
        ScanNode::Zip {
            left: Box::new(stitched((k - 1) as nat)),
            right: Box::new(ScanNode::Source((k - 1) as usize)),
            left_info: if k == 2 {
                Some(0)
            } else {
                None
            },
            right_info: Some((k - 1) as usize),
        }
    }
}

/// Puts `count` scans together.
fn stitch(count: usize) -> (root: ScanNode)
    ensures
        root == stitched(count as nat),
{
    if count == 0 {
        return ScanNode::Empty;
    }
    let mut root: ScanNode = ScanNode::Source(0);
    for k in 1..count
        invariant
            count >= 1,
            root == stitched(k as nat),
    {
        let left_info: Option<usize> = if k == 1 {
            Some(0)
        } else {
            None
        };
        root = ScanNode::Zip {
            left: Box::new(root),
            right: Box::new(ScanNode::Source(k)),
            left_info,
            right_info: Some(k),
        };
    }
    root
}

/// Copies byte ranges.
fn copy_ranges(ranges: &Vec<(i64, i64)>) -> (copy: Vec<(i64, i64)>)
    ensures
        copy@ == ranges@,
{
    let mut copy: Vec<(i64, i64)> = Vec::new();
    for k in 0..ranges.len()
        invariant
            copy@ == ranges@.take(k as int),
    {
        copy.push(ranges[k]);
        proof {
            assert(ranges@.take(k + 1) =~= ranges@.take(k as int).push(ranges@[k as int]));
        }
    }
    proof {
        assert(ranges@.take(ranges@.len() as int) =~= ranges@);
    }
    copy
}

/// Positions in the file of the columns that `projection` picks from the table.
fn project(file: &Schema, table: &Schema, projection: &Vec<usize>) -> (picked: Vec<usize>)
    requires
        forall|i: int|
            0 <= i < projection@.len() ==> #[trigger] projection@[i] < columns(*table).len(),
    ensures
        picked@ == projected(columns(*file), columns(*table), projection@),
{
    let mut picked: Vec<usize> = Vec::new();
    for k in 0..projection.len()
        invariant
            forall|i: int|
                0 <= i < projection@.len() ==> #[trigger] projection@[i] < columns(*table).len(),
            picked@ == projected(columns(*file), columns(*table), projection@.take(k as int)),
    {
        let name: String = field_name(table, projection[k]);
        proof {
            assert(projection@.take(k + 1).drop_last() =~= projection@.take(k as int));
            columns(*file).index_of_first_ensures(name@);
        }
        match file.index_of(&name) {
            Ok(i) => {
                picked.push(i);
            },
            Err(_) => {},
        }
    }
    proof {
        assert(projection@.take(projection@.len() as int) =~= projection@);
    }
    picked
}

/// A file is read by a scan with the given projection.
pub open spec fn is_scanned(
    files: Seq<ZippedFile>,
    table: Seq<Seq<char>>,
    projection: Option<Seq<usize>>,
    i: int,
) -> bool {
    reads_any(file_projection(files[i].file_columns(), table, projection))
}

/// Which of the first `k` files are read, in order.
pub open spec fn scanned_files(
    files: Seq<ZippedFile>,
    table: Seq<Seq<char>>,
    projection: Option<Seq<usize>>,
    k: nat,
) -> Seq<int>
    decreases k,
{
    if k == 0 {
        Seq::empty()
    } else {
        let before = scanned_files(files, table, projection, (k - 1) as nat);
        if is_scanned(files, table, projection, k - 1) {
            before.push(k - 1)
        } else {
            before
        }
    }
}

/// What a scan is asked for.
pub struct ScanRequest {
    pub projection: Option<Seq<usize>>,
    pub limit: Option<usize>,
    pub partitions: nat,
    pub access: Seq<Access>,
}

/// `scan` reads `file`, the `i`-th of the table, as requested.
pub open spec fn scan_fits(
    scan: FileScan,
    file: ZippedFile,
    i: int,
    table: Seq<Seq<char>>,
    num_rows: nat,
    request: ScanRequest,
) -> bool {
    &&& scan.file == i
    &&& columns_view(scan.projection) == file_projection(
        file.file_columns(),
        table,
        request.projection,
    )
    &&& scan.limit == request.limit
    &&& scan.num_rows == num_rows
    &&& slices_of(
        scan.file_groups@,
        file@.path,
        file@.file_size,
        file@.row_group_ranges,
        request.partitions,
        request.access,
    )
    &&& scan.info.path@ == file@.path
    &&& scan.info.file_size == file@.file_size
    &&& accesses(scan.info.access_plan) == request.access
    &&& scan.info.row_group_ranges@ == file@.row_group_ranges
}

impl ZippedTableProvider {
    /// The columns of the table.
    pub open spec fn table_columns(self) -> Seq<Seq<char>> {
        columns(*self.table_schema())
    }

    /// The files that a scan with the given projection reads, in order.
    pub open spec fn scanned(self, projection: Option<Seq<usize>>) -> Seq<int> {
        scanned_files(
            self.files(),
            self.table_columns(),
            projection,
            self.files().len(),
        )
    }

    /// The columns that a projection picks exist. Without files none is looked up.
    pub open spec fn can_project(self, projection: Option<Seq<usize>>) -> bool {
        self.files().len() > 0 ==> (projection matches Some(picked) ==> forall|i: int|
            0 <= i < picked.len() ==> #[trigger] picked[i] < self.table_columns().len())
    }

    /// `outline` scans exactly the files that hold a requested column, each as
    /// requested and all with one access plan, and puts the scans together.
    pub open spec fn outline_fits(self, outline: ScanOutline, request: ScanRequest) -> bool {
        let picked = self.scanned(request.projection);
        &&& outline.scans@.len() == picked.len()
        &&& forall|s: int|
            0 <= s < picked.len() ==> scan_fits(
                #[trigger] outline.scans@[s],
                self.files()[picked[s]],
                picked[s],
                self.table_columns(),
                planned_rows(self.groups(), request.access),
                request,
            )
        &&& outline.root == stitched(picked.len())
    }

    /// Lays out the scan of the table under a given access plan. Every file is
    /// scanned with the same plan, so that whole row groups line up.
    pub fn scan_with_plan(
        &self,
        access_plan: &ParquetAccessPlan,
        projection: Option<&Vec<usize>>,
        limit: Option<usize>,
        target_partitions: usize,
    ) -> (outline: ScanOutline)
        requires
            self.can_project(columns_ref_view(projection)),
            self.scanned(columns_ref_view(projection)).len() > 0 ==> target_partitions > 0,
            planned_rows(self.groups(), accesses(*access_plan)) <= usize::MAX,
        ensures
            self.outline_fits(
                outline,
                ScanRequest {
                    projection: columns_ref_view(projection),
                    limit,
                    partitions: target_partitions as nat,
                    access: accesses(*access_plan),
                },
            ),
    {
        let ghost wanted = columns_ref_view(projection);
        let ghost table = self.table_columns();
        let ghost request = ScanRequest {
            projection: wanted,
            limit,
            partitions: target_partitions as nat,
            access: accesses(*access_plan),
        };
        let num_rows: usize = self.estimate_rows(access_plan);
        let mut scans: Vec<FileScan> = Vec::new();
        for k in 0..self.zipped_files.len()
            invariant
                wanted == columns_ref_view(projection),
                table == self.table_columns(),
                request == (ScanRequest {
                    projection: wanted,
                    limit,
                    partitions: target_partitions as nat,
                    access: accesses(*access_plan),
                }),
                self.can_project(wanted),
                self.scanned(wanted).len() > 0 ==> target_partitions > 0,
                num_rows == planned_rows(self.groups(), accesses(*access_plan)),
                scans@.len() == scanned_files(self.files(), table, wanted, k as nat).len(),
                forall|s: int|
                    0 <= s < scans@.len() ==> scan_fits(
                        #[trigger] scans@[s],
                        self.files()[scanned_files(
                            self.files(),
                            table,
                            wanted,
                            k as nat,
                        )[s]],
                        scanned_files(self.files(), table, wanted, k as nat)[s],
                        table,
                        num_rows as nat,
                        request,
                    ),
        {
            let zipped_file: &ZippedFile = &self.zipped_files[k];
            let ghost before = scanned_files(self.files(), table, wanted, k as nat);
            let picked: Option<Vec<usize>> = match projection {
                Some(indices) => Some(project(&zipped_file.schema, &self.schema, indices)),
                None => None,
            };
            let reads: bool = match &picked {
                Some(list) => list.len() > 0,
                None => true,
            };
            if reads {
                proof {
                    assert(is_scanned(self.files(), table, wanted, k as int));
                    lemma_scanned_grows(
                        self.files(),
                        table,
                        wanted,
                        (k + 1) as nat,
                        self.files().len(),
                    );
                }
                let info: ZipPartitionInfo = ZipPartitionInfo::new(
                    zipped_file.path.clone(),
                    zipped_file.file_size,
                    access_plan.clone(),
                    copy_ranges(&zipped_file.row_group_ranges),
                );
                let file_groups: Vec<FileGroup> = partition_file(
                    info.path.clone(),
                    info.file_size,
                    copy_ranges(&info.row_group_ranges),
                    target_partitions,
                    info.access_plan.clone(),
                );
                scans.push(
                    FileScan { file: k, projection: picked, limit, file_groups, num_rows, info },
                );
            }
        }
        let root: ScanNode = stitch(scans.len());
        ScanOutline { scans, root }
    }

    /// Lays out the scan of the table: decides which row groups to read under a
    /// filter, then which files, and how their scans are put together. `None` if
    /// there is no plan, or more rows are read than can be counted.
    pub fn scan(
        &self,
        filter: &Filter,
        projection: Option<&Vec<usize>>,
        limit: Option<usize>,
        target_partitions: usize,
    ) -> (outline: Option<ScanOutline>)
        requires
            self.wf(),
            self.can_project(columns_ref_view(projection)),
            self.scanned(columns_ref_view(projection)).len() > 0 ==> target_partitions > 0,
        ensures
            outline matches Some(o) ==> exists|access: Seq<Access>|
                {
                    &&& #[trigger] self.plans_for(*filter, access)
                    &&& self.outline_fits(
                        o,
                        ScanRequest {
                            projection: columns_ref_view(projection),
                            limit,
                            partitions: target_partitions as nat,
                            access,
                        },
                    )
                },
            outline is None ==> self.may_be_out_of_step(*filter) || exists|access: Seq<Access>|
                #[trigger] self.plans_for(*filter, access) && planned_rows(self.groups(), access)
                    > usize::MAX,
            (self.in_step() && self.all_readable() && planned_rows(
                self.groups(),
                uniform(self.groups().len(), Access::Scan),
            ) <= usize::MAX) ==> outline is Some,
    {
        let access_plan: ParquetAccessPlan = match self.create_plan(filter) {
            Some(plan) => plan,
            None => {
                return None;
            },
        };
        if self.try_estimate_rows(&access_plan).is_none() {
            proof {
                law_narrowing_yields_fewer_rows(
                    self.groups(),
                    uniform(self.groups().len(), Access::Scan),
                    accesses(access_plan),
                );
            }
            return None;
        }
        Some(self.scan_with_plan(&access_plan, projection, limit, target_partitions))
    }
}

proof fn lemma_scanned_grows(
    files: Seq<ZippedFile>,
    table: Seq<Seq<char>>,
    projection: Option<Seq<usize>>,
    k: nat,
    n: nat,
)
    requires
        k <= n,
    ensures
        scanned_files(files, table, projection, k).len() <= scanned_files(
            files,
            table,
            projection,
            n,
        ).len(),
    decreases n,
{
    if k < n {
        lemma_scanned_grows(files, table, projection, k, (n - 1) as nat);
    }
}

/// The scans that a node reads, from left to right.
pub open spec fn sources(node: ScanNode) -> Seq<usize>
    decreases node,
{
    match node {
        ScanNode::Empty => Seq::empty(),
        ScanNode::Source(scan) => seq![scan],
        ScanNode::Zip { left, right, .. } => sources(*left) + sources(*right),
    }
}

/// Putting `k` scans together reads each of them exactly once, in order.
pub proof fn law_every_scan_is_read_once(k: nat)
    requires
        k <= usize::MAX,
    ensures
        sources(stitched(k)) == Seq::new(k, |i: int| i as usize),
    decreases k,
{
    reveal_with_fuel(sources, 2);
    if k > 1 {
        law_every_scan_is_read_once((k - 1) as nat);
        assert(sources(stitched(k)) =~= sources(stitched((k - 1) as nat)) + seq![
            (k - 1) as usize,
        ]);
    }
    assert(sources(stitched(k)) =~= Seq::new(k, |i: int| i as usize));
}

proof fn lemma_scanned_is_scanned(
    files: Seq<ZippedFile>,
    table: Seq<Seq<char>>,
    projection: Option<Seq<usize>>,
    k: nat,
)
    ensures
        forall|f: int|
            0 <= f < k && is_scanned(files, table, projection, f) <==> #[trigger] scanned_files(
                files,
                table,
                projection,
                k,
            ).contains(f),
    decreases k,
{
    if k > 0 {
        let prev = (k - 1) as nat;
        lemma_scanned_is_scanned(files, table, projection, prev);
        let before = scanned_files(files, table, projection, prev);
        let after = scanned_files(files, table, projection, k);
        assert forall|f: int|
            0 <= f < k && is_scanned(files, table, projection, f) <==> #[trigger] after.contains(
                f,
            ) by {
            if is_scanned(files, table, projection, k - 1) {
                assert(after[after.len() - 1] == k - 1);
                if before.contains(f) {
                    let s = choose|s: int| 0 <= s < before.len() && before[s] == f;
                    assert(after[s] == f);
                }
                if after.contains(f) && f != k - 1 {
                    let s = choose|s: int| 0 <= s < after.len() && after[s] == f;
                    assert(before[s] == f);
                }
            }
        }
    }
}

proof fn lemma_projected_has_column(
    in_file: Seq<Seq<char>>,
    in_table: Seq<Seq<char>>,
    projection: Seq<usize>,
    i: int,
)
    requires
        0 <= i < projection.len(),
        in_file.contains(in_table[projection[i] as int]),
        in_file.len() <= usize::MAX,
    ensures
        exists|j: int|
            0 <= j < projected(in_file, in_table, projection).len() && in_file[#[trigger] projected(
                in_file,
                in_table,
                projection,
            )[j] as int] == in_table[projection[i] as int],
    decreases projection.len(),
{
    let all = projected(in_file, in_table, projection);
    let before = projected(in_file, in_table, projection.drop_last());
    if i == projection.len() - 1 {
        let name = in_table[projection[i] as int];
        in_file.index_of_first_ensures(name);
        let at = in_file.index_of_first(name)->0;
        assert(all[all.len() - 1] == at as usize);
    } else {
        lemma_projected_has_column(in_file, in_table, projection.drop_last(), i);
        let j = choose|j: int|
            0 <= j < before.len() && in_file[#[trigger] before[j] as int]
                == in_table[projection[i] as int];
        assert(all[j] == before[j]);
    }
}

/// Every requested column is read: some scanned file holds it and reads it.
pub proof fn law_requested_columns_are_read(
    provider: ZippedTableProvider,
    projection: Seq<usize>,
    i: int,
) -> (f: int)
    requires
        provider.wf(),
        provider.can_project(Some(projection)),
        0 <= i < projection.len(),
        provider.files().len() > 0,
        forall|k: int|
            0 <= k < provider.files().len() ==> (
            #[trigger] provider.files()[k]).file_columns().len() <= usize::MAX,
    ensures
        provider.scanned(Some(projection)).contains(f),
        ({
            let in_file = provider.files()[f].file_columns();
            let read = projected(in_file, provider.table_columns(), projection);
            exists|j: int|
                0 <= j < read.len() && in_file[#[trigger] read[j] as int]
                    == provider.table_columns()[projection[i] as int]
        }),
{
    let files = provider.files();
    let table = provider.table_columns();
    let name = table[projection[i] as int];
    let views = crate::zip::file_views(files);
    let f = crate::schema::lemma_merged_column_has_origin(views, projection[i] as int);
    assert(views[f].columns == files[f].file_columns());
    lemma_projected_has_column(files[f].file_columns(), table, projection, i);
    assert(is_scanned(files, table, Some(projection), f));
    lemma_scanned_is_scanned(files, table, Some(projection), files.len());
    f
}

proof fn lemma_all_are_scanned(files: Seq<ZippedFile>, table: Seq<Seq<char>>, k: nat)
    ensures
        scanned_files(files, table, None, k) == Seq::new(k, |i: int| i),
    decreases k,
{
    if k > 0 {
        lemma_all_are_scanned(files, table, (k - 1) as nat);
        assert(is_scanned(files, table, None, k - 1));
    }
    assert(scanned_files(files, table, None, k) =~= Seq::new(k, |i: int| i));
}

/// Files without a common column and without conflicting metadata, read in full:
/// every file is read, in order, and the scans put together have the schema of the
/// table, with its columns in its order.
pub proof fn law_full_scan_is_the_table(provider: ZippedTableProvider)
    requires
        provider.wf(),
        provider.files().len() > 0,
        mergeable(file_views(provider.files())),
    ensures
        provider.scanned(None) == Seq::new(provider.files().len(), |i: int| i),
        stitched_view(file_views(provider.files()), provider.files().len()).columns
            == provider.table_columns(),
        stitched_view(file_views(provider.files()), provider.files().len()) == schema_view(
            *provider.table_schema(),
        ),
{
    lemma_all_are_scanned(provider.files(), provider.table_columns(), provider.files().len());
    law_stitching_keeps_order(file_views(provider.files()));
}

/// The columns that the scan of a file reads.
pub open spec fn read_names(
    in_file: Seq<Seq<char>>,
    in_table: Seq<Seq<char>>,
    projection: Seq<usize>,
) -> Seq<Seq<char>> {
    projected(in_file, in_table, projection).map_values(|j: usize| in_file[j as int])
}

/// The columns that the scans of the first `k` files read, file after file.
pub open spec fn all_read(
    files: Seq<ZippedFile>,
    in_table: Seq<Seq<char>>,
    projection: Seq<usize>,
    k: nat,
) -> Seq<Seq<char>>
    decreases k,
{
    if k == 0 {
        Seq::empty()
    } else {
        all_read(files, in_table, projection, (k - 1) as nat) + read_names(
            files[k - 1].file_columns(),
            in_table,
            projection,
        )
    }
}

/// The columns of the table that a projection picks.
pub open spec fn requested(in_table: Seq<Seq<char>>, projection: Seq<usize>) -> Seq<Seq<char>> {
    projection.map_values(|p: usize| in_table[p as int])
}

/// The picked columns whose places in the table are from `low` up to `high`.
spec fn within(in_table: Seq<Seq<char>>, projection: Seq<usize>, low: int, high: int) -> Seq<
    Seq<char>,
>
    decreases projection.len(),
{
    if projection.len() == 0 {
        Seq::empty()
    } else {
        let before = within(in_table, projection.drop_last(), low, high);
        if low <= projection.last() < high {
            before.push(in_table[projection.last() as int])
        } else {
            before
        }
    }
}

proof fn lemma_read_is_within(
    in_file: Seq<Seq<char>>,
    in_table: Seq<Seq<char>>,
    projection: Seq<usize>,
    low: int,
)
    requires
        in_table.no_duplicates(),
        0 <= low <= low + in_file.len() <= in_table.len(),
        in_file.len() <= usize::MAX,
        forall|i: int| 0 <= i < in_file.len() ==> #[trigger] in_file[i] == in_table[low + i],
        forall|i: int| 0 <= i < projection.len() ==> #[trigger] projection[i] < in_table.len(),
    ensures
        read_names(in_file, in_table, projection) == within(
            in_table,
            projection,
            low,
            low + in_file.len(),
        ),
    decreases projection.len(),
{
    if projection.len() > 0 {
        let init = projection.drop_last();
        lemma_read_is_within(in_file, in_table, init, low);
        let p = projection[projection.len() - 1] as int;
        let name = in_table[p];
        in_file.index_of_first_ensures(name);
        let before = projected(in_file, in_table, init);
        if low <= p < low + in_file.len() {
            assert(in_file[p - low] == name);
            assert(in_file.contains(name));
            let at = in_file.index_of_first(name)->0;
            assert(read_names(in_file, in_table, projection) =~= read_names(
                in_file,
                in_table,
                init,
            ).push(name));
        } else if in_file.contains(name) {
            let i = choose|i: int| 0 <= i < in_file.len() && in_file[i] == name;
            assert(in_table[low + i] == in_table[p]);
        }
    } else {
        assert(read_names(in_file, in_table, projection) =~= Seq::<Seq<char>>::empty());
    }
}

/// Each place comes before all later ones.
pub open spec fn ascending_places(projection: Seq<usize>) -> bool {
    forall|i: int, j: int| 0 <= i < j < projection.len() ==> projection[i] < projection[j]
}

proof fn lemma_nothing_within(
    in_table: Seq<Seq<char>>,
    projection: Seq<usize>,
    low: int,
    high: int,
)
    requires
        forall|i: int| 0 <= i < projection.len() ==> #[trigger] projection[i] < low,
    ensures
        within(in_table, projection, low, high) == Seq::<Seq<char>>::empty(),
    decreases projection.len(),
{
    if projection.len() > 0 {
        assert(projection[projection.len() - 1] < low);
        lemma_nothing_within(in_table, projection.drop_last(), low, high);
    }
}

proof fn lemma_within_adds_up(
    in_table: Seq<Seq<char>>,
    projection: Seq<usize>,
    middle: int,
    high: int,
)
    requires
        ascending_places(projection),
        0 <= middle <= high,
    ensures
        within(in_table, projection, 0, middle) + within(in_table, projection, middle, high)
            == within(in_table, projection, 0, high),
    decreases projection.len(),
{
    if projection.len() > 0 {
        let init = projection.drop_last();
        let p = projection[projection.len() - 1];
        assert(ascending_places(init)) by {
            assert forall|i: int, j: int| 0 <= i < j < init.len() implies init[i] < init[j] by {
                assert(projection[i] < projection[j]);
            }
        }
        lemma_within_adds_up(in_table, init, middle, high);
        if p < middle {
            assert forall|i: int| 0 <= i < projection.len() implies #[trigger] projection[i]
                < middle by {
                if i < projection.len() - 1 {
                    assert(projection[i] < projection[projection.len() - 1]);
                }
            }
            lemma_nothing_within(in_table, projection, middle, high);
            assert forall|i: int| 0 <= i < init.len() implies #[trigger] init[i] < middle by {
                assert(projection[i] < middle);
            }
            lemma_nothing_within(in_table, init, middle, high);
        }
    }
    assert(within(in_table, projection, 0, middle) + within(in_table, projection, middle, high)
        =~= within(in_table, projection, 0, high));
}

proof fn lemma_all_within(in_table: Seq<Seq<char>>, projection: Seq<usize>)
    requires
        forall|i: int| 0 <= i < projection.len() ==> #[trigger] projection[i] < in_table.len(),
    ensures
        within(in_table, projection, 0, in_table.len() as int) == requested(in_table, projection),
    decreases projection.len(),
{
    if projection.len() > 0 {
        let init = projection.drop_last();
        assert(projection[projection.len() - 1] < in_table.len());
        assert forall|i: int| 0 <= i < init.len() implies #[trigger] init[i] < in_table.len() by {
            assert(projection[i] < in_table.len());
        }
        lemma_all_within(in_table, init);
    }
    assert(within(in_table, projection, 0, in_table.len() as int) =~= requested(
        in_table,
        projection,
    ));
}

proof fn lemma_all_read_is_within(
    files: Seq<ZippedFile>,
    in_table: Seq<Seq<char>>,
    projection: Seq<usize>,
    k: nat,
)
    requires
        k <= files.len(),
        in_table == all_columns(file_views(files)),
        in_table.no_duplicates(),
        in_table.len() <= usize::MAX,
        ascending_places(projection),
        forall|i: int| 0 <= i < projection.len() ==> #[trigger] projection[i] < in_table.len(),
    ensures
        all_columns(file_views(files).take(k as int)).len() <= in_table.len(),
        all_read(files, in_table, projection, k) == within(
            in_table,
            projection,
            0,
            all_columns(file_views(files).take(k as int)).len() as int,
        ),
    decreases k,
{
    let views = file_views(files);
    lemma_columns_start(views, k as int);
    let high = all_columns(views.take(k as int));
    if k == 0 {
        assert(views.take(0) =~= Seq::<SchemaView>::empty());
        lemma_nothing_below_zero(in_table, projection);
    } else {
        let low = all_columns(views.take(k - 1));
        let in_file = files[k - 1].file_columns();
        lemma_all_read_is_within(files, in_table, projection, (k - 1) as nat);
        assert(views.take(k as int).drop_last() =~= views.take(k - 1));
        assert(views[k - 1].columns == in_file);
        assert(high == low + in_file);
        assert forall|i: int| 0 <= i < in_file.len() implies #[trigger] in_file[i]
            == in_table[low.len() + i] by {
            assert(high[low.len() + i] == in_file[i]);
            assert(in_table.take(high.len() as int)[low.len() + i] == in_table[low.len() + i]);
        }
        lemma_read_is_within(in_file, in_table, projection, low.len() as int);
        lemma_within_adds_up(in_table, projection, low.len() as int, high.len() as int);
    }
}

proof fn lemma_nothing_below_zero(in_table: Seq<Seq<char>>, projection: Seq<usize>)
    ensures
        within(in_table, projection, 0, 0) == Seq::<Seq<char>>::empty(),
    decreases projection.len(),
{
    if projection.len() > 0 {
        lemma_nothing_below_zero(in_table, projection.drop_last());
    }
}

proof fn lemma_columns_start(parts: Seq<SchemaView>, k: int)
    requires
        0 <= k <= parts.len(),
    ensures
        all_columns(parts.take(k)).len() <= all_columns(parts).len(),
        all_columns(parts).take(all_columns(parts.take(k)).len() as int) == all_columns(
            parts.take(k),
        ),
    decreases parts.len(),
{
    if k == parts.len() {
        assert(parts.take(k) =~= parts);
        assert(all_columns(parts).take(all_columns(parts).len() as int) =~= all_columns(parts));
    } else {
        lemma_columns_start(parts.drop_last(), k);
        assert(parts.drop_last().take(k) =~= parts.take(k));
        let start = all_columns(parts.take(k));
        assert(all_columns(parts).take(start.len() as int) =~= all_columns(
            parts.drop_last(),
        ).take(start.len() as int));
    }
}

/// Files without a common column, read in part: where the requested columns are
/// picked in the order of the table, the scans read exactly these, file after file,
/// in that order. A file that is not scanned reads none.
pub proof fn law_scans_list_columns_as_requested(
    provider: ZippedTableProvider,
    projection: Seq<usize>,
)
    requires
        provider.wf(),
        mergeable(file_views(provider.files())),
        provider.table_columns().len() <= usize::MAX,
        ascending_places(projection),
        forall|i: int|
            0 <= i < projection.len() ==> #[trigger] projection[i]
                < provider.table_columns().len(),
    ensures
        all_read(
            provider.files(),
            provider.table_columns(),
            projection,
            provider.files().len(),
        ) == requested(provider.table_columns(), projection),
        forall|f: int|
            0 <= f < provider.files().len() && !is_scanned(
                provider.files(),
                provider.table_columns(),
                Some(projection),
                f,
            ) ==> (#[trigger] read_names(
                provider.files()[f].file_columns(),
                provider.table_columns(),
                projection,
            )).len() == 0,
{
    let files = provider.files();
    let table = provider.table_columns();
    let views = file_views(files);
    lemma_distinct_of_unique(all_columns(views));
    assert(table == all_columns(views));
    lemma_all_read_is_within(files, table, projection, files.len());
    assert(views.take(files.len() as int) =~= views);
    lemma_all_within(table, projection);
}

proof fn lemma_projected_of_two(
    in_file: Seq<Seq<char>>,
    in_table: Seq<Seq<char>>,
    a: Seq<usize>,
    b: Seq<usize>,
)
    ensures
        projected(in_file, in_table, a + b) == projected(in_file, in_table, a) + projected(
            in_file,
            in_table,
            b,
        ),
    decreases b.len(),
{
    let front = projected(in_file, in_table, a);
    if b.len() == 0 {
        assert(a + b =~= a);
        assert(front + projected(in_file, in_table, b) =~= front);
    } else {
        lemma_projected_of_two(in_file, in_table, a, b.drop_last());
        assert((a + b).drop_last() =~= a + b.drop_last());
        assert((a + b).last() == b.last());
        assert(projected(in_file, in_table, a + b) =~= front + projected(in_file, in_table, b));
    }
}

/// What a file reads of two lists of columns is what it reads of each. Of one column it
/// reads the first of that name, or nothing if it has none.
pub proof fn law_columns_are_picked_one_by_one(
    in_file: Seq<Seq<char>>,
    in_table: Seq<Seq<char>>,
    a: Seq<usize>,
    b: Seq<usize>,
)
    requires
        in_file.len() <= usize::MAX,
    ensures
        projected(in_file, in_table, a + b) == projected(in_file, in_table, a) + projected(
            in_file,
            in_table,
            b,
        ),
        a.len() == 1 && !in_file.contains(in_table[a[0] as int]) ==> projected(
            in_file,
            in_table,
            a,
        ).len() == 0,
        a.len() == 1 && in_file.contains(in_table[a[0] as int]) ==> {
            let read = projected(in_file, in_table, a);
            &&& read.len() == 1
            &&& read[0] < in_file.len()
            &&& in_file[read[0] as int] == in_table[a[0] as int]
            &&& forall|j: int| 0 <= j < read[0] ==> in_file[j] != in_table[a[0] as int]
        },
{
    lemma_projected_of_two(in_file, in_table, a, b);
    if a.len() == 1 {
        reveal_with_fuel(projected, 2);
        assert(a.drop_last() =~= Seq::<usize>::empty());
        let name = in_table[a[0] as int];
        in_file.index_of_first_ensures(name);
        if in_file.contains(name) {
            let at = in_file.index_of_first(name)->0;
            assert(0 <= at < in_file.len());
            assert(projected(in_file, in_table, a) =~= seq![at as usize]);
        }
    }
}

proof fn lemma_nothing_picked(
    in_file: Seq<Seq<char>>,
    in_table: Seq<Seq<char>>,
    projection: Seq<usize>,
)
    requires
        forall|i: int|
            0 <= i < projection.len() ==> !in_file.contains(
                in_table[#[trigger] projection[i] as int],
            ),
    ensures
        projected(in_file, in_table, projection).len() == 0,
    decreases projection.len(),
{
    if projection.len() > 0 {
        let init = projection.drop_last();
        assert forall|i: int| 0 <= i < init.len() implies !in_file.contains(
            in_table[#[trigger] init[i] as int],
        ) by {
            assert(init[i] == projection[i]);
        }
        lemma_nothing_picked(in_file, in_table, init);
        let name = in_table[projection[projection.len() - 1] as int];
        in_file.index_of_first_ensures(name);
    }
}

proof fn lemma_scanned_ascends(
    files: Seq<ZippedFile>,
    table: Seq<Seq<char>>,
    projection: Option<Seq<usize>>,
    k: nat,
)
    ensures
        forall|s: int|
            0 <= s < scanned_files(files, table, projection, k).len() ==> 0
                <= #[trigger] scanned_files(files, table, projection, k)[s] < k,
        forall|s: int, t: int|
            0 <= s < t < scanned_files(files, table, projection, k).len()
                ==> #[trigger] scanned_files(files, table, projection, k)[s]
                < #[trigger] scanned_files(files, table, projection, k)[t],
    decreases k,
{
    if k > 0 {
        lemma_scanned_ascends(files, table, projection, (k - 1) as nat);
        let before = scanned_files(files, table, projection, (k - 1) as nat);
        let all = scanned_files(files, table, projection, k);
        assert forall|s: int| 0 <= s < all.len() implies 0 <= #[trigger] all[s] < k by {
            if s < before.len() {
                assert(all[s] == before[s]);
            }
        }
        assert forall|s: int, t: int| 0 <= s < t < all.len() implies #[trigger] all[s]
            < #[trigger] all[t] by {
            assert(all[s] == before[s]);
            if t < before.len() {
                assert(all[t] == before[t]);
            }
        }
    }
}

/// With a projection exactly the files are read that have one of the columns, without one
/// all of them; each is read once, in the order of the files.
pub proof fn law_files_with_a_requested_column_are_read(
    provider: ZippedTableProvider,
    projection: Option<Seq<usize>>,
    f: int,
)
    requires
        0 <= f < provider.files().len(),
        forall|k: int|
            0 <= k < provider.files().len() ==> (
            #[trigger] provider.files()[k]).file_columns().len() <= usize::MAX,
    ensures
        provider.scanned(projection).contains(f) <==> match projection {
            Some(picked) => exists|i: int|
                0 <= i < picked.len() && provider.files()[f].file_columns().contains(
                    provider.table_columns()[#[trigger] picked[i] as int],
                ),
            None => true,
        },
        forall|s: int, t: int|
            0 <= s < t < provider.scanned(projection).len() ==> #[trigger] provider.scanned(
                projection,
            )[s] < #[trigger] provider.scanned(projection)[t],
{
    let files = provider.files();
    let table = provider.table_columns();
    lemma_scanned_is_scanned(files, table, projection, files.len());
    lemma_scanned_ascends(files, table, projection, files.len());
    if let Some(picked) = projection {
        let in_file = files[f].file_columns();
        if exists|i: int|
            0 <= i < picked.len() && in_file.contains(table[#[trigger] picked[i] as int]) {
            let i = choose|i: int|
                0 <= i < picked.len() && in_file.contains(table[#[trigger] picked[i] as int]);
            lemma_projected_has_column(in_file, table, picked, i);
        } else {
            lemma_nothing_picked(in_file, table, picked);
        }
    }
}

/// Each scan of a table is of one of the files: it has its path, its size and its byte
/// ranges, the limit and the access plan that were asked for, and the rows that are
/// read under the plan. No file is scanned twice.
pub proof fn law_scans_are_as_requested(
    provider: ZippedTableProvider,
    outline: ScanOutline,
    request: ScanRequest,
    s: int,
)
    requires
        provider.outline_fits(outline, request),
        0 <= s < outline.scans@.len(),
    ensures
        ({
            let scan = outline.scans@[s];
            let file = provider.files()[scan.file as int];
            &&& scan.file < provider.files().len()
            &&& scan.limit == request.limit
            &&& scan.num_rows == planned_rows(provider.groups(), request.access)
            &&& scan.info.path@ == file@.path
            &&& scan.info.file_size == file@.file_size
            &&& scan.info.row_group_ranges@ == file@.row_group_ranges
            &&& accesses(scan.info.access_plan) == request.access
            &&& scan.projection is Some <==> request.projection is Some
            &&& scan.projection matches Some(read) ==> read@ == projected(
                file.file_columns(),
                provider.table_columns(),
                request.projection->0,
            )
        }),
        forall|t: int|
            s < t < outline.scans@.len() ==> outline.scans@[s].file < (
            #[trigger] outline.scans@[t]).file,
{
    let picked = provider.scanned(request.projection);
    lemma_scanned_ascends(
        provider.files(),
        provider.table_columns(),
        request.projection,
        provider.files().len(),
    );
    assert(scan_fits(
        outline.scans@[s],
        provider.files()[picked[s]],
        picked[s],
        provider.table_columns(),
        planned_rows(provider.groups(), request.access),
        request,
    ));
    assert forall|t: int| s < t < outline.scans@.len() implies outline.scans@[s].file < (
    #[trigger] outline.scans@[t]).file by {
        assert(scan_fits(
            outline.scans@[t],
            provider.files()[picked[t]],
            picked[t],
            provider.table_columns(),
            planned_rows(provider.groups(), request.access),
            request,
        ));
        assert(picked[s] < picked[t]);
    }
}

/// Each node that puts scans together has one scan on its right and all before it on its
/// left, and carries the partition info of each side that is a single scan.
pub proof fn law_nodes_carry_the_info_of_their_scans(k: nat)
    requires
        2 <= k <= usize::MAX,
    ensures
        stitched(k) matches ScanNode::Zip { left, right, left_info, right_info } && {
            &&& *left == stitched((k - 1) as nat)
            &&& *right == ScanNode::Source((k - 1) as usize)
            &&& right_info == Some((k - 1) as usize)
            &&& left_info == match *left {
                ScanNode::Source(scan) => Some(scan),
                _ => None,
            }
        },
        stitched(1) == ScanNode::Source(0),
        stitched(0) is Empty,
{
    reveal_with_fuel(stitched, 2);
}

} // verus!
