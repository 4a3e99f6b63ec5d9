//! Dividing the row groups of a file among partitions, by byte range.

use crate::access::{accesses, Access};
use crate::split::{chunk, chunk_count, chunk_start, lemma_chunk_bounds, split};
use crate::storage::object_location;
use datafusion::datasource::listing::PartitionedFile;
use datafusion::datasource::physical_plan::parquet::ParquetAccessPlan;
use datafusion::datasource::physical_plan::FileGroup;
use std::sync::Arc;
use vstd::prelude::*;

verus! {

/// The files that one partition reads. Opaque but for [`group_files`].
#[verifier::external_type_specification]
#[verifier::external_body]
pub struct ExFileGroup(FileGroup);

/// A byte range of a file, and how its row groups are read.
#[verifier::ext_equal]
pub struct FileSlice {
    pub location: Seq<char>,
    pub size: u64,
    pub start: i64,
    pub end: i64,
    pub access: Seq<Access>,
}

/// The byte ranges of files in a group.
pub uninterp spec fn group_files(group: FileGroup) -> Seq<FileSlice>;

/// `FileGroup::new` on a single `PartitionedFile::new_with_range`, to which
/// `PartitionedFile::with_extensions` attaches the access plan: the group holds
/// one file of the given size, at the location that the object store gives the
/// path, with the given range and plan.
#[verifier::external_body]
pub(crate) fn slice_group(
    path: String,
    file_size: u64,
    start: i64,
    end: i64,
    access_plan: ParquetAccessPlan,
) -> (group: FileGroup)
    ensures
        group_files(group) == seq![
            FileSlice {
                location: object_location(path@),
                size: file_size,
                start,
                end,
                access: accesses(access_plan),
            },
        ],
{
    FileGroup::new(
        vec![
            PartitionedFile::new_with_range(path, file_size, start, end)
                .with_extensions(Arc::new(access_plan)),
        ],
    )
}

/// `r` put into `sorted` behind every range that does not start after it.
pub open spec fn insert_by_start(sorted: Seq<(i64, i64)>, r: (i64, i64)) -> Seq<(i64, i64)>
    decreases sorted.len(),
{
    if sorted.len() == 0 || sorted.last().0 <= r.0 {
        sorted.push(r)
    } else {
        insert_by_start(sorted.drop_last(), r).push(sorted.last())
    }
}

/// `ranges` by ascending start; ranges that start together keep their order.
pub open spec fn sorted_by_start(ranges: Seq<(i64, i64)>) -> Seq<(i64, i64)>
    decreases ranges.len(),
{
    if ranges.len() == 0 {
        Seq::empty()
    } else {
        insert_by_start(sorted_by_start(ranges.drop_last()), ranges.last())
    }
}

/// No range starts before the one in front of it.
pub open spec fn ascending(ranges: Seq<(i64, i64)>) -> bool {
    forall|i: int, j: int| 0 <= i <= j < ranges.len() ==> ranges[i].0 <= ranges[j].0
}

/// From the start of the first range of a run to the end of its last.
pub open spec fn span(run: Seq<(i64, i64)>) -> (i64, i64) {
    (run.first().0, run.last().1)
}

/// The byte range of the `k`-th of `n` partitions.
pub open spec fn partition_range(ranges: Seq<(i64, i64)>, n: nat, k: nat) -> (i64, i64) {
    span(chunk(sorted_by_start(ranges), n, k))
}

proof fn lemma_insert_at(sorted: Seq<(i64, i64)>, r: (i64, i64), p: int)
    requires
        0 <= p <= sorted.len(),
        p > 0 ==> sorted[p - 1].0 <= r.0,
        forall|i: int| p <= i < sorted.len() ==> sorted[i].0 > r.0,
    ensures
        insert_by_start(sorted, r) == sorted.insert(p, r),
    decreases sorted.len() - p,
{
    if p == sorted.len() {
        assert(sorted.insert(p, r) =~= sorted.push(r));
    } else {
        lemma_insert_at(sorted.drop_last(), r, p);
        assert(sorted.insert(p, r) =~= sorted.drop_last().insert(p, r).push(sorted.last()));
    }
}

/// `ranges` by ascending start; ranges that start together keep their order.
fn sort_by_start(ranges: &Vec<(i64, i64)>) -> (sorted: Vec<(i64, i64)>)
    ensures
        sorted@ == sorted_by_start(ranges@),
{
    let mut sorted: Vec<(i64, i64)> = Vec::new();
    for k in 0..ranges.len()
        invariant
            sorted@ == sorted_by_start(ranges@.take(k as int)),
    {
        let r: (i64, i64) = ranges[k];
        let mut p: usize = sorted.len();
        while p > 0 && sorted[p - 1].0 > r.0
            invariant
                0 <= p <= sorted@.len(),
                forall|i: int| p <= i < sorted@.len() ==> sorted@[i].0 > r.0,
            decreases p,
        {
            p -= 1;
        }
        proof {
            lemma_insert_at(sorted@, r, p as int);
            assert(ranges@.take(k + 1).drop_last() =~= ranges@.take(k as int));
        }
        sorted.insert(p, r);
    }
    proof {
        assert(ranges@.take(ranges@.len() as int) =~= ranges@);
    }
    sorted
}

/// The groups of files that read one file in `n` partitions.
pub open spec fn slices_of(
    files: Seq<FileGroup>,
    path: Seq<char>,
    file_size: u64,
    ranges: Seq<(i64, i64)>,
    n: nat,
    access: Seq<Access>,
) -> bool {
    &&& files.len() == chunk_count(ranges.len(), n)
    &&& forall|k: int|
        0 <= k < files.len() ==> group_files(#[trigger] files[k]) == seq![
            FileSlice {
                location: object_location(path),
                size: file_size,
                start: partition_range(ranges, n, k as nat).0,
                end: partition_range(ranges, n, k as nat).1,
                access,
            },
        ]
}

/// Divides the row groups of a file among `partitions` partitions: one group of
/// files for each that gets any, with the byte range from its first row group to
/// the end of its last.
pub fn partition_file(
    path: String,
    file_size: u64,
    row_group_ranges: Vec<(i64, i64)>,
    partitions: usize,
    access_plan: ParquetAccessPlan,
) -> (files: Vec<FileGroup>)
    requires
        partitions > 0,
    ensures
        slices_of(
            files@,
            path@,
            file_size,
            row_group_ranges@,
            partitions as nat,
            accesses(access_plan),
        ),
{
    let sorted: Vec<(i64, i64)> = sort_by_start(&row_group_ranges);
    proof {
        law_sort_keeps_ranges(row_group_ranges@);
        crate::split::law_runs_cover_in_order(sorted@, partitions as nat);
    }
    let runs: Vec<&[(i64, i64)]> = split(sorted.as_slice(), partitions);
    let mut files: Vec<FileGroup> = Vec::new();
    for k in 0..runs.len()
        invariant
            partitions > 0,
            sorted@ == sorted_by_start(row_group_ranges@),
            forall|i: int|
                0 <= i < runs@.len() ==> (#[trigger] runs@[i])@ == chunk(
                    sorted@,
                    partitions as nat,
                    i as nat,
                ),
            forall|i: nat|
                i < runs@.len() ==> (#[trigger] chunk(sorted@, partitions as nat, i)).len() > 0,
            files@.len() == k,
            forall|i: int|
                0 <= i < k ==> group_files(#[trigger] files@[i]) == seq![
                    FileSlice {
                        location: object_location(path@),
                        size: file_size,
                        start: partition_range(row_group_ranges@, partitions as nat, i as nat).0,
                        end: partition_range(row_group_ranges@, partitions as nat, i as nat).1,
                        access: accesses(access_plan),
                    },
                ],
    {
        let run: &[(i64, i64)] = runs[k];
        proof {
            assert(run@ == chunk(sorted@, partitions as nat, k as nat));
        }
        let start: i64 = run[0].0;
        let end: i64 = run[run.len() - 1].1;
        files.push(slice_group(path.clone(), file_size, start, end, access_plan.clone()));
    }
    files
}

proof fn lemma_insert_keeps_ranges(sorted: Seq<(i64, i64)>, r: (i64, i64))
    ensures
        insert_by_start(sorted, r).len() == sorted.len() + 1,
        insert_by_start(sorted, r).to_multiset() == sorted.to_multiset().insert(r),
        ascending(sorted) ==> ascending(insert_by_start(sorted, r)),
        sorted.len() > 0 && ascending(sorted) ==> insert_by_start(sorted, r).last().0
            == if sorted.last().0 <= r.0 {
            r.0
        } else {
            sorted.last().0
        },
    decreases sorted.len(),
{
    broadcast use vstd::seq_lib::group_to_multiset_ensures;

    if sorted.len() == 0 || sorted.last().0 <= r.0 {
    } else {
        let init = sorted.drop_last();
        lemma_insert_keeps_ranges(init, r);
        assert(sorted =~= init.push(sorted.last()));
        assert(insert_by_start(sorted, r).to_multiset() =~= sorted.to_multiset().insert(r));
        if ascending(sorted) {
            let t = insert_by_start(init, r);
            assert forall|i: int, j: int|
                0 <= i <= j < insert_by_start(sorted, r).len() implies insert_by_start(
                sorted,
                r,
            )[i].0 <= insert_by_start(sorted, r)[j].0 by {
                if j == t.len() && i < j {
                    assert(t[i].0 <= t.last().0);
                }
            }
        }
    }
}

/// Sorting neither loses nor invents a range, and the result ascends.
pub proof fn law_sort_keeps_ranges(ranges: Seq<(i64, i64)>)
    ensures
        sorted_by_start(ranges).len() == ranges.len(),
        sorted_by_start(ranges).to_multiset() == ranges.to_multiset(),
        ascending(sorted_by_start(ranges)),
    decreases ranges.len(),
{
    broadcast use vstd::seq_lib::group_to_multiset_ensures;

    if ranges.len() > 0 {
        law_sort_keeps_ranges(ranges.drop_last());
        lemma_insert_keeps_ranges(sorted_by_start(ranges.drop_last()), ranges.last());
        assert(ranges =~= ranges.drop_last().push(ranges.last()));
    } else {
        assert(sorted_by_start(ranges) =~= ranges);
    }
}

/// What a filter keeps of a sequence with one more element.
pub proof fn lemma_filter_push<A>(s: Seq<A>, x: A, keep: spec_fn(A) -> bool)
    ensures
        s.push(x).filter(keep) == if keep(x) {
            s.filter(keep).push(x)
        } else {
            s.filter(keep)
        },
{
    reveal(Seq::filter);
    assert(s.push(x).drop_last() =~= s);
}

proof fn lemma_insert_is_stable(sorted: Seq<(i64, i64)>, r: (i64, i64), start: i64)
    requires
        ascending(sorted),
    ensures
        insert_by_start(sorted, r).filter(|x: (i64, i64)| x.0 == start) == sorted.push(r).filter(
            |x: (i64, i64)| x.0 == start,
        ),
    decreases sorted.len(),
{
    if sorted.len() > 0 && sorted.last().0 > r.0 {
        let here = |x: (i64, i64)| x.0 == start;
        let init = sorted.drop_last();
        lemma_insert_is_stable(init, r, start);
        assert(sorted =~= init.push(sorted.last()));
        lemma_filter_push(insert_by_start(init, r), sorted.last(), here);
        lemma_filter_push(init, sorted.last(), here);
        lemma_filter_push(init, r, here);
        lemma_filter_push(sorted, r, here);
    }
}

/// Ranges that start at the same offset keep their order.
pub proof fn law_sort_is_stable(ranges: Seq<(i64, i64)>, start: i64)
    ensures
        sorted_by_start(ranges).filter(|x: (i64, i64)| x.0 == start) == ranges.filter(
            |x: (i64, i64)| x.0 == start,
        ),
    decreases ranges.len(),
{
    if ranges.len() > 0 {
        let here = |x: (i64, i64)| x.0 == start;
        let init = ranges.drop_last();
        law_sort_is_stable(init, start);
        law_sort_keeps_ranges(init);
        lemma_insert_is_stable(sorted_by_start(init), ranges.last(), start);
        assert(ranges =~= init.push(ranges.last()));
        lemma_filter_push(sorted_by_start(init), ranges.last(), here);
        lemma_filter_push(init, ranges.last(), here);
    } else {
        assert(sorted_by_start(ranges) =~= ranges);
    }
}

/// Row groups that take up room and do not overlap.
pub open spec fn laid_out(ranges: Seq<(i64, i64)>) -> bool {
    &&& forall|i: int| 0 <= i < ranges.len() ==> (#[trigger] ranges[i]).0 < ranges[i].1
    &&& forall|i: int, j: int|
        0 <= i < ranges.len() && 0 <= j < ranges.len() && i != j ==> ranges[i].1 <= ranges[j].0
            || ranges[j].1 <= ranges[i].0
}

/// The byte range of a partition holds the offset `at`.
pub open spec fn in_partition(ranges: Seq<(i64, i64)>, n: nat, k: nat, at: i64) -> bool {
    partition_range(ranges, n, k).0 <= at < partition_range(ranges, n, k).1
}

proof fn lemma_sorting_keeps_layout(ranges: Seq<(i64, i64)>)
    requires
        laid_out(ranges),
    ensures
        laid_out(sorted_by_start(ranges)),
{
    broadcast use vstd::seq_lib::group_to_multiset_ensures;

    let t = sorted_by_start(ranges);
    law_sort_keeps_ranges(ranges);
    assert(ranges.no_duplicates());
    ranges.lemma_multiset_has_no_duplicates();
    assert forall|i: int| 0 <= i < t.len() implies ranges.contains(#[trigger] t[i]) by {
        assert(t.to_multiset().count(t[i]) > 0);
    }
    assert forall|i: int, j: int|
        0 <= i < t.len() && 0 <= j < t.len() && i != j implies t[i].1 <= t[j].0 || t[j].1
        <= t[i].0 by {
        assert(ranges.contains(t[i]) && ranges.contains(t[j]));
        let a = choose|a: int| 0 <= a < ranges.len() && ranges[a] == t[i];
        let b = choose|b: int| 0 <= b < ranges.len() && ranges[b] == t[j];
        if a == b {
            t.lemma_multiset_has_no_duplicates_conv();
            assert(false);
        }
    }
    assert forall|i: int| 0 <= i < t.len() implies (#[trigger] t[i]).0 < t[i].1 by {
        assert(ranges.contains(t[i]));
    }
}

/// Some run holds the item at `m`.
proof fn lemma_item_is_in_a_run(total: nat, n: nat, m: int, upto: nat) -> (k: nat)
    requires
        n > 0,
        upto <= chunk_count(total, n),
        0 <= m < chunk_start(total, n, upto),
    ensures
        k < upto,
        chunk_start(total, n, k) <= m < chunk_start(total, n, k + 1),
    decreases upto,
{
    if upto == 0 {
        lemma_chunk_bounds(total, n, 0);
        assert(0 * (total / n) == 0);
        0
    } else if chunk_start(total, n, (upto - 1) as nat) <= m {
        (upto - 1) as nat
    } else {
        lemma_item_is_in_a_run(total, n, m, (upto - 1) as nat)
    }
}

proof fn lemma_runs_ascend(total: nat, n: nat, i: nat, j: nat)
    requires
        n > 0,
        i <= j <= chunk_count(total, n),
    ensures
        chunk_start(total, n, i) <= chunk_start(total, n, j),
    decreases j,
{
    if i < j {
        lemma_runs_ascend(total, n, i, (j - 1) as nat);
        lemma_chunk_bounds(total, n, (j - 1) as nat);
    }
}

/// Of row groups that do not overlap, each begins in the byte range of exactly
/// one partition, so that each is read once.
pub proof fn law_each_row_group_is_read_once(ranges: Seq<(i64, i64)>, n: nat, g: int) -> (k: nat)
    requires
        n > 0,
        laid_out(ranges),
        0 <= g < ranges.len(),
    ensures
        k < chunk_count(ranges.len(), n),
        in_partition(ranges, n, k, ranges[g].0),
        forall|j: nat|
            j < chunk_count(ranges.len(), n) && #[trigger] in_partition(ranges, n, j, ranges[g].0)
                ==> j == k,
{
    broadcast use vstd::seq_lib::group_to_multiset_ensures;

    let t = sorted_by_start(ranges);
    let total = ranges.len();
    let count = chunk_count(total, n);
    let at = ranges[g].0;
    law_sort_keeps_ranges(ranges);
    lemma_sorting_keeps_layout(ranges);
    assert(t.contains(ranges[g])) by {
        assert(ranges.contains(ranges[g]));
        assert(ranges.to_multiset().count(ranges[g]) > 0);
    }
    let m = choose|m: int| 0 <= m < t.len() && t[m] == ranges[g];
    lemma_chunk_bounds(total, n, count);
    let k = lemma_item_is_in_a_run(total, n, m, count);
    lemma_chunk_bounds(total, n, k);
    lemma_chunk_bounds(total, n, k + 1);
    assert(chunk(t, n, k).first() == t[chunk_start(total, n, k)]);
    assert(chunk(t, n, k).last() == t[chunk_start(total, n, k + 1) - 1]);
    assert(in_partition(ranges, n, k, at));
    assert forall|j: nat| j < count && #[trigger] in_partition(ranges, n, j, at) implies j == k by {
        lemma_chunk_bounds(total, n, j);
        lemma_chunk_bounds(total, n, j + 1);
        let first = chunk_start(total, n, j);
        let last = chunk_start(total, n, j + 1) - 1;
        assert(chunk(t, n, j).first() == t[first]);
        assert(chunk(t, n, j).last() == t[last]);
        if j < k {
            lemma_runs_ascend(total, n, j + 1, k);
            assert(last < m);
            assert(t[last].1 <= t[m].0 || t[m].1 <= t[last].0);
        } else if j > k {
            lemma_runs_ascend(total, n, k + 1, j);
            assert(m < first);
            assert(t[first].1 <= t[m].0 || t[m].1 <= t[first].0);
        }
    }
    k
}

proof fn lemma_ascending_is_sorted(ranges: Seq<(i64, i64)>)
    requires
        ascending(ranges),
    ensures
        sorted_by_start(ranges) == ranges,
    decreases ranges.len(),
{
    if ranges.len() > 0 {
        let init = ranges.drop_last();
        lemma_ascending_is_sorted(init);
        if init.len() > 0 {
            assert(init.last() == ranges[ranges.len() - 2]);
        }
        assert(init.push(ranges.last()) =~= ranges);
    } else {
        assert(sorted_by_start(ranges) =~= ranges);
    }
}

proof fn lemma_partition_by_position(ranges: Seq<(i64, i64)>, n: nat, k: nat, g: int)
    requires
        n > 0,
        laid_out(ranges),
        ascending(ranges),
        0 <= g < ranges.len(),
        k < chunk_count(ranges.len(), n),
    ensures
        in_partition(ranges, n, k, ranges[g].0) <==> chunk_start(ranges.len(), n, k) <= g
            < chunk_start(ranges.len(), n, k + 1),
{
    let total = ranges.len();
    lemma_ascending_is_sorted(ranges);
    lemma_chunk_bounds(total, n, k);
    lemma_chunk_bounds(total, n, k + 1);
    let first = chunk_start(total, n, k);
    let last = chunk_start(total, n, k + 1) - 1;
    assert(chunk(ranges, n, k).first() == ranges[first]);
    assert(chunk(ranges, n, k).last() == ranges[last]);
    if g < first {
        assert(ranges[g].1 <= ranges[first].0 || ranges[first].1 <= ranges[g].0);
    } else if g > last {
        assert(ranges[g].1 <= ranges[last].0 || ranges[last].1 <= ranges[g].0);
    }
}

/// Two files with equally many row groups, each laid out in order, are divided
/// alike: a partition reads the `g`-th row group of one exactly if it reads the
/// `g`-th of the other. So the rows of the two come out side by side.
pub proof fn law_partitions_line_up(
    a: Seq<(i64, i64)>,
    b: Seq<(i64, i64)>,
    n: nat,
    k: nat,
    g: int,
)
    requires
        n > 0,
        a.len() == b.len(),
        laid_out(a) && ascending(a),
        laid_out(b) && ascending(b),
        0 <= g < a.len(),
        k < chunk_count(a.len(), n),
    ensures
        in_partition(a, n, k, a[g].0) <==> in_partition(b, n, k, b[g].0),
{
    lemma_partition_by_position(a, n, k, g);
    lemma_partition_by_position(b, n, k, g);
}

/// A range that starts earlier is sorted before one that starts later.
pub proof fn law_earlier_ranges_come_first(ranges: Seq<(i64, i64)>, i: int, j: int)
    requires
        0 <= i < j < ranges.len(),
    ensures
        sorted_by_start(ranges)[i].0 <= sorted_by_start(ranges)[j].0,
{
    law_sort_keeps_ranges(ranges);
}

/// The byte range of a partition begins where one of the row groups begins, and ends
/// where one of them ends.
pub proof fn law_partitions_begin_and_end_with_row_groups(
    ranges: Seq<(i64, i64)>,
    n: nat,
    k: nat,
) -> (ends: (int, int))
    requires
        n > 0,
        k < chunk_count(ranges.len(), n),
    ensures
        0 <= ends.0 < ranges.len(),
        0 <= ends.1 < ranges.len(),
        partition_range(ranges, n, k).0 == ranges[ends.0].0,
        partition_range(ranges, n, k).1 == ranges[ends.1].1,
{
    broadcast use vstd::seq_lib::group_to_multiset_ensures;

    let t = sorted_by_start(ranges);
    let total = ranges.len();
    law_sort_keeps_ranges(ranges);
    lemma_chunk_bounds(total, n, k);
    lemma_chunk_bounds(total, n, k + 1);
    let first = chunk_start(total, n, k);
    let last = chunk_start(total, n, k + 1) - 1;
    assert(chunk(t, n, k).first() == t[first]);
    assert(chunk(t, n, k).last() == t[last]);
    assert(t.to_multiset().count(t[first]) > 0);
    assert(t.to_multiset().count(t[last]) > 0);
    assert(ranges.contains(t[first]) && ranges.contains(t[last]));
    let a = choose|a: int| 0 <= a < ranges.len() && ranges[a] == t[first];
    let b = choose|b: int| 0 <= b < ranges.len() && ranges[b] == t[last];
    (a, b)
}

/// Of row groups that do not overlap and are laid out in order, a partition reads its
/// share, in a row: with those of the partitions before it, so many that no partition
/// has more than one row group more than another. A row group that begins in the byte
/// range of a partition ends in it.
pub proof fn law_partitions_read_their_share(ranges: Seq<(i64, i64)>, n: nat, k: nat, g: int)
    requires
        n > 0,
        laid_out(ranges),
        ascending(ranges),
        0 <= g < ranges.len(),
        k < chunk_count(ranges.len(), n),
    ensures
        ({
            let share = ranges.len() / n;
            let over = ranges.len() % n;
            in_partition(ranges, n, k, ranges[g].0) <==> k * share + if k < over {
                k
            } else {
                over
            } <= g < (k + 1) * share + if k + 1 < over {
                k + 1
            } else {
                over
            }
        }),
        in_partition(ranges, n, k, ranges[g].0) ==> ranges[g].1 <= partition_range(
            ranges,
            n,
            k,
        ).1,
{
    let total = ranges.len();
    lemma_partition_by_position(ranges, n, k, g);
    lemma_ascending_is_sorted(ranges);
    lemma_chunk_bounds(total, n, k);
    lemma_chunk_bounds(total, n, k + 1);
    let last = chunk_start(total, n, k + 1) - 1;
    assert(chunk(ranges, n, k).last() == ranges[last]);
    if in_partition(ranges, n, k, ranges[g].0) && g < last {
        assert(ranges[g].1 <= ranges[last].0 || ranges[last].1 <= ranges[g].0);
        assert(ranges[g].0 <= ranges[last].0);
        assert(ranges[last].0 < ranges[last].1);
    }
}

/// Each group of files reads one byte range of the file, at its location and with its
/// size, under the given plan.
pub proof fn law_slices_are_of_the_file(
    files: Seq<FileGroup>,
    path: Seq<char>,
    file_size: u64,
    ranges: Seq<(i64, i64)>,
    n: nat,
    access: Seq<Access>,
    k: int,
)
    requires
        n > 0,
        slices_of(files, path, file_size, ranges, n, access),
        0 <= k < files.len(),
    ensures
        files.len() <= n,
        files.len() <= ranges.len(),
        files.len() == n || files.len() == ranges.len(),
        group_files(files[k]).len() == 1,
        group_files(files[k])[0].location == object_location(path),
        group_files(files[k])[0].size == file_size,
        group_files(files[k])[0].access == access,
        group_files(files[k])[0].start == partition_range(ranges, n, k as nat).0,
        group_files(files[k])[0].end == partition_range(ranges, n, k as nat).1,
{
}

} // verus!
