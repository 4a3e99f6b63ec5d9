//! Numbers kept by table and column.

use crate::access::{read_row_groups, row_group_views, row_groups, RowGroup, RowGroupView};
use crate::order::{law_texts_are_totally_ordered, rank_texts, text_less, Rank};
use crate::partition::lemma_filter_push;
use datafusion::parquet::file::metadata::ParquetMetaData;
use vstd::prelude::*;
use vstd::string::*;

verus! {

/// A table and a column of it.
pub type Pair = (Seq<char>, Seq<char>);

/// `a` comes before `b`: by table, and by column within a table.
pub open spec fn pair_less(a: Pair, b: Pair) -> bool {
    text_less(a.0, b.0) || a.0 == b.0 && text_less(a.1, b.1)
}

/// The rank of pair `a` relative to pair `b`.
pub open spec fn pair_rank(a: Pair, b: Pair) -> Rank {
    if a == b {
        Rank::Same
    } else if pair_less(a, b) {
        Rank::Before
    } else {
        Rank::After
    }
}

proof fn lemma_pairs_are_totally_ordered(a: Pair, b: Pair, c: Pair)
    ensures
        !pair_less(a, a),
        a != b ==> (pair_less(a, b) <==> !pair_less(b, a)),
        pair_less(a, b) && pair_less(b, c) ==> pair_less(a, c),
{
    law_texts_are_totally_ordered(a.0, b.0, c.0);
    law_texts_are_totally_ordered(a.1, b.1, c.1);
    law_texts_are_totally_ordered(a.0, a.0, a.0);
    law_texts_are_totally_ordered(b.0, c.0, a.0);
}

/// A table, a column of it and a number.
#[derive(Debug)]
pub struct PairCount {
    pub table: String,
    pub column: String,
    pub count: u64,
}

impl PairCount {
    /// The table and the column.
    pub open spec fn key(self) -> Pair {
        (self.table@, self.column@)
    }

    /// The table, the column and the number.
    pub open spec fn shown(self) -> (Pair, nat) {
        (self.key(), self.count as nat)
    }

    /// How the table and the column stand to others.
    fn rank(&self, table: &str, column: &str) -> (r: Rank)
        ensures
            r == pair_rank(self.key(), (table@, column@)),
    {
        proof {
            law_texts_are_totally_ordered(self.table@, self.table@, self.table@);
        }
        match rank_texts(self.table.as_str(), table) {
            Rank::Before => Rank::Before,
            Rank::After => Rank::After,
            Rank::Same => rank_texts(self.column.as_str(), column),
        }
    }

    /// A copy.
    fn copy(&self) -> (other: PairCount)
        ensures
            other.shown() == self.shown(),
            other.count == self.count,
    {
        PairCount {
            table: self.table.as_str().to_owned(),
            column: self.column.as_str().to_owned(),
            count: self.count,
        }
    }
}

/// A number for each of some pairs of a table and a column, in order.
#[derive(Debug)]
pub struct PairCounts {
    pub(crate) entries: Vec<PairCount>,
}

/// Each pair comes before all later ones.
pub open spec fn ascending_pairs(list: Seq<PairCount>) -> bool {
    forall|i: int, j: int|
        0 <= i < j < list.len() ==> pair_less(
            (#[trigger] list[i]).key(),
            (#[trigger] list[j]).key(),
        )
}

/// Some entry is for the pair.
pub open spec fn holds(list: Seq<PairCount>, key: Pair) -> bool {
    exists|i: int| 0 <= i < list.len() && (#[trigger] list[i]).key() == key
}

/// The number that an entry gives the pair.
pub open spec fn number_of(list: Seq<PairCount>, key: Pair) -> nat {
    list[choose|i: int| 0 <= i < list.len() && (#[trigger] list[i]).key() == key].count as nat
}

/// What `m` gives a pair; nothing if it does not hold the pair.
pub open spec fn under(m: Map<Pair, nat>, key: Pair) -> nat {
    if m.contains_key(key) {
        m[key]
    } else {
        0
    }
}

/// `m` with `more` added to what it gives the pair.
pub open spec fn added(m: Map<Pair, nat>, key: Pair, more: nat) -> Map<Pair, nat> {
    m.insert(key, under(m, key) + more)
}

proof fn lemma_one_entry(list: Seq<PairCount>, i: int)
    requires
        ascending_pairs(list),
        0 <= i < list.len(),
    ensures
        holds(list, list[i].key()),
        number_of(list, list[i].key()) == list[i].count,
{
    let key = list[i].key();
    let j = choose|j: int| 0 <= j < list.len() && (#[trigger] list[j]).key() == key;
    lemma_pairs_are_totally_ordered(key, key, key);
    if i < j {
        assert(pair_less(list[i].key(), list[j].key()));
    }
    if j < i {
        assert(pair_less(list[j].key(), list[i].key()));
    }
}

/// `list` holds what `m` gives to each pair, in the order of the pairs and each once.
pub open spec fn lists(list: Seq<(Pair, nat)>, m: Map<Pair, nat>) -> bool {
    &&& forall|i: int, j: int|
        0 <= i < j < list.len() ==> pair_less((#[trigger] list[i]).0, (#[trigger] list[j]).0)
    &&& forall|i: int|
        0 <= i < list.len() ==> m.contains_key((#[trigger] list[i]).0) && m[list[i].0] == list[i].1
    &&& forall|key: Pair| #[trigger]
        m.contains_key(key) ==> exists|i: int|
            0 <= i < list.len() && (#[trigger] list[i]).0 == key
}

/// The entries list the numbers in the order of the pairs.
pub proof fn law_entries_list_the_numbers(counts: PairCounts)
    requires
        counts.wf(),
    ensures
        lists(shown(counts.listing()), counts.map()),
{
    let list = counts.listing();
    let all = shown(list);
    assert forall|i: int, j: int| 0 <= i < j < all.len() implies pair_less(
        (#[trigger] all[i]).0,
        (#[trigger] all[j]).0,
    ) by {
        assert(pair_less(list[i].key(), list[j].key()));
    }
    assert forall|i: int| 0 <= i < all.len() implies counts.map().contains_key(
        (#[trigger] all[i]).0,
    ) && counts.map()[all[i].0] == all[i].1 by {
        lemma_one_entry(list, i);
    }
    assert forall|key: Pair| #[trigger] counts.map().contains_key(key) implies exists|i: int|
        0 <= i < all.len() && (#[trigger] all[i]).0 == key by {
        let i = choose|i: int| 0 <= i < list.len() && (#[trigger] list[i]).key() == key;
        assert(all[i].0 == key);
    }
}

proof fn lemma_new_entry(before: PairCounts, after: PairCounts, p: int)
    requires
        before.wf(),
        0 <= p <= before.listing().len(),
        after.listing() == before.listing().insert(p, after.listing()[p]),
        forall|i: int|
            0 <= i < p ==> pair_less(
                (#[trigger] before.listing()[i]).key(),
                after.listing()[p].key(),
            ),
        p < before.listing().len() ==> before.listing()[p].key() != after.listing()[p].key()
            && !pair_less(before.listing()[p].key(), after.listing()[p].key()),
    ensures
        after.wf(),
        !before.map().contains_key(after.listing()[p].key()),
        after.map() == before.map().insert(
            after.listing()[p].key(),
            after.listing()[p].count as nat,
        ),
{
    let list = before.listing();
    let longer = after.listing();
    let key = longer[p].key();
    assert forall|i: int| p <= i < list.len() implies pair_less(
        key,
        (#[trigger] list[i]).key(),
    ) by {
        lemma_pairs_are_totally_ordered(key, list[p].key(), list[i].key());
    }
    assert forall|i: int, j: int| 0 <= i < j < longer.len() implies pair_less(
        (#[trigger] longer[i]).key(),
        (#[trigger] longer[j]).key(),
    ) by {
        let a = if i < p {
            i
        } else {
            i - 1
        };
        let b = if j < p {
            j
        } else {
            j - 1
        };
        if i != p && j != p {
            assert(pair_less(list[a].key(), list[b].key()));
        } else if i == p {
            assert(longer[j] == list[b]);
        } else {
            assert(longer[i] == list[a]);
        }
    }
    assert(!holds(list, key)) by {
        if holds(list, key) {
            let i = choose|i: int| 0 <= i < list.len() && (#[trigger] list[i]).key() == key;
            lemma_pairs_are_totally_ordered(key, key, key);
        }
    }
    let expected = before.map().insert(key, longer[p].count as nat);
    lemma_one_entry(longer, p);
    assert forall|k: Pair| #[trigger]
        after.map().contains_key(k) <==> expected.contains_key(k) by {
        if holds(list, k) {
            let i = choose|i: int| 0 <= i < list.len() && (#[trigger] list[i]).key() == k;
            let j = if i < p {
                i
            } else {
                i + 1
            };
            assert(longer[j].key() == k);
        }
        if holds(longer, k) && k != key {
            let i = choose|i: int| 0 <= i < longer.len() && (#[trigger] longer[i]).key() == k;
            let j = if i < p {
                i
            } else {
                i - 1
            };
            assert(list[j].key() == k);
        }
    }
    assert forall|k: Pair| #[trigger] after.map().contains_key(k) implies after.map()[k]
        == expected[k] by {
        if k != key {
            let i = choose|i: int| 0 <= i < longer.len() && (#[trigger] longer[i]).key() == k;
            let j = if i < p {
                i
            } else {
                i - 1
            };
            assert(longer[i] == list[j]);
            lemma_one_entry(longer, i);
            lemma_one_entry(list, j);
        }
    }
    assert(after.map() =~= expected);
}

proof fn lemma_changed_entry(before: PairCounts, after: PairCounts, p: int)
    requires
        before.wf(),
        0 <= p < before.listing().len(),
        after.listing().len() == before.listing().len(),
        after.listing()[p].key() == before.listing()[p].key(),
        forall|i: int|
            0 <= i < before.listing().len() && i != p ==> #[trigger] after.listing()[i]
                == before.listing()[i],
    ensures
        after.wf(),
        before.map().contains_key(before.listing()[p].key()),
        before.map()[before.listing()[p].key()] == before.listing()[p].count,
        after.map() == before.map().insert(
            before.listing()[p].key(),
            after.listing()[p].count as nat,
        ),
{
    let list = before.listing();
    let other = after.listing();
    let key = list[p].key();
    assert forall|i: int| 0 <= i < list.len() implies (#[trigger] other[i]).key()
        == list[i].key() by {}
    assert(after.wf()) by {
        assert forall|i: int, j: int| 0 <= i < j < other.len() implies pair_less(
            (#[trigger] other[i]).key(),
            (#[trigger] other[j]).key(),
        ) by {
            assert(pair_less(list[i].key(), list[j].key()));
        }
    }
    lemma_one_entry(list, p);
    lemma_one_entry(other, p);
    let expected = before.map().insert(key, other[p].count as nat);
    assert forall|k: Pair| #[trigger]
        after.map().contains_key(k) <==> expected.contains_key(k) by {
        if holds(list, k) {
            let i = choose|i: int| 0 <= i < list.len() && (#[trigger] list[i]).key() == k;
            assert(other[i].key() == k);
        }
        if holds(other, k) {
            let i = choose|i: int| 0 <= i < other.len() && (#[trigger] other[i]).key() == k;
            assert(list[i].key() == k);
        }
    }
    assert forall|k: Pair| #[trigger] after.map().contains_key(k) implies after.map()[k]
        == expected[k] by {
        if k != key {
            let i = choose|i: int| 0 <= i < other.len() && (#[trigger] other[i]).key() == k;
            lemma_one_entry(other, i);
            lemma_one_entry(list, i);
        }
    }
    assert(after.map() =~= expected);
}

impl PairCounts {
    /// The numbers, in the order of their pairs.
    pub open(crate) spec fn listing(self) -> Seq<PairCount> {
        self.entries@
    }

    /// The pairs are in order, each once.
    pub open spec fn wf(self) -> bool {
        ascending_pairs(self.listing())
    }

    /// The numbers.
    pub open spec fn map(self) -> Map<Pair, nat> {
        Map::new(|k: Pair| holds(self.listing(), k), |k: Pair| number_of(self.listing(), k))
    }

    /// The numbers, in the order of their pairs.
    pub fn entries(&self) -> (entries: &Vec<PairCount>)
        ensures
            entries@ == self.listing(),
    {
        &self.entries
    }

    /// No numbers.
    pub fn new() -> (empty: PairCounts)
        ensures
            empty.wf(),
            empty.map() == Map::<Pair, nat>::empty(),
    {
        let empty = PairCounts { entries: Vec::new() };
        proof {
            assert(empty.map() =~= Map::<Pair, nat>::empty());
        }
        empty
    }

    /// Where an entry for the pair stands, or belongs.
    fn seek(&self, table: &str, column: &str) -> (p: usize)
        requires
            self.wf(),
        ensures
            p <= self.listing().len(),
            forall|i: int|
                0 <= i < p ==> pair_less((#[trigger] self.listing()[i]).key(), (table@, column@)),
            p < self.listing().len() ==> !pair_less(self.listing()[p as int].key(), (table@, column@)),
    {
        let mut p: usize = 0;
        while p < self.entries.len() && self.entries[p].rank(table, column) == Rank::Before
            invariant
                p <= self.listing().len(),
                forall|i: int|
                    0 <= i < p ==> pair_less((#[trigger] self.listing()[i]).key(), (table@, column@)),
            decreases self.listing().len() - p,
        {
            p += 1;
        }
        proof {
            lemma_pairs_are_totally_ordered((table@, column@), (table@, column@), (table@, column@));
        }
        p
    }

    /// The number of a pair; nothing if there is none.
    pub fn get(&self, table: &str, column: &str) -> (count: u64)
        requires
            self.wf(),
        ensures
            count == under(self.map(), (table@, column@)),
    {
        let p: usize = self.seek(table, column);
        if p < self.entries.len() && self.entries[p].rank(table, column) == Rank::Same {
            proof {
                lemma_one_entry(self.listing(), p as int);
            }
            return self.entries[p].count;
        }
        proof {
            let key = (table@, column@);
            if holds(self.listing(), key) {
                let i = choose|i: int|
                    0 <= i < self.listing().len() && (#[trigger] self.listing()[i]).key() == key;
                lemma_pairs_are_totally_ordered(key, key, key);
                lemma_pairs_are_totally_ordered(key, self.listing()[p as int].key(), key);
                if i > p {
                    assert(pair_less(self.listing()[p as int].key(), self.listing()[i].key()));
                }
            }
        }
        0
    }

    /// Adds to the number of a pair. Leaves all as it is, and says so, if the
    /// sum does not fit.
    pub fn add(&mut self, table: &str, column: &str, more: u64) -> (fits: bool)
        requires
            old(self).wf(),
        ensures
            final(self).wf(),
            fits == (under(old(self).map(), (table@, column@)) + more <= u64::MAX),
            final(self).map() == if fits {
                added(old(self).map(), (table@, column@), more as nat)
            } else {
                old(self).map()
            },
    {
        let p: usize = self.seek(table, column);
        let ghost before = *self;
        if p < self.entries.len() && self.entries[p].rank(table, column) == Rank::Same {
            proof {
                lemma_one_entry(self.listing(), p as int);
            }
            match self.entries[p].count.checked_add(more) {
                Some(sum) => {
                    self.entries[p].count = sum;
                    proof {
                        lemma_changed_entry(before, *self, p as int);
                    }
                    return true;
                },
                None => {
                    return false;
                },
            }
        }
        self.entries.insert(
            p,
            PairCount { table: table.to_owned(), column: column.to_owned(), count: more },
        );
        proof {
            lemma_new_entry(before, *self, p as int);
        }
        true
    }
}

/// The column chunks of all row groups, in order.
pub open spec fn chunks_of(groups: Seq<RowGroupView>) -> Seq<(Seq<char>, i64)>
    decreases groups.len(),
{
    if groups.len() == 0 {
        Seq::empty()
    } else {
        chunks_of(groups.drop_last()) + groups.last().chunks
    }
}

/// `m` with the size of each chunk added to what it gives the chunk's column.
pub open spec fn with_sizes(
    m: Map<Pair, nat>,
    table: Seq<char>,
    chunks: Seq<(Seq<char>, i64)>,
) -> Map<Pair, nat>
    decreases chunks.len(),
{
    if chunks.len() == 0 {
        m
    } else {
        added(
            with_sizes(m, table, chunks.drop_last()),
            (table, chunks.last().0),
            (chunks.last().1 as u64) as nat,
        )
    }
}

/// Every number fits.
pub open spec fn all_fit(m: Map<Pair, nat>) -> bool {
    forall|k: Pair| #[trigger] m.contains_key(k) ==> m[k] <= u64::MAX
}

/// `b` holds all that `a` holds, with no smaller numbers.
spec fn at_most(a: Map<Pair, nat>, b: Map<Pair, nat>) -> bool {
    forall|p: Pair| #[trigger] a.contains_key(p) ==> b.contains_key(p) && a[p] <= b[p]
}

/// Sizes only grow.
proof fn lemma_sizes_grow(m: Map<Pair, nat>, table: Seq<char>, chunks: Seq<(Seq<char>, i64)>, k: int)
    requires
        0 <= k <= chunks.len(),
    ensures
        at_most(with_sizes(m, table, chunks.take(k)), with_sizes(m, table, chunks)),
    decreases chunks.len() - k,
{
    if k == chunks.len() {
        assert(chunks.take(k) =~= chunks);
    } else {
        lemma_sizes_grow(m, table, chunks, k + 1);
        assert(chunks.take(k + 1).drop_last() =~= chunks.take(k));
        let now = with_sizes(m, table, chunks.take(k));
        let next = with_sizes(m, table, chunks.take(k + 1));
        assert forall|p: Pair| #[trigger] now.contains_key(p) implies next.contains_key(p) && now[p]
            <= next[p] by {}
    }
}

/// A number that is too large stays too large.
proof fn lemma_too_large(a: Map<Pair, nat>, b: Map<Pair, nat>, p: Pair)
    requires
        at_most(a, b),
        a.contains_key(p),
        a[p] > u64::MAX,
    ensures
        !all_fit(b),
{
    assert(b.contains_key(p));
}

/// Files add up: the chunks of two files, one after the other, count as the
/// chunks of both together.
pub proof fn law_sizes_add_up(
    m: Map<Pair, nat>,
    table: Seq<char>,
    a: Seq<(Seq<char>, i64)>,
    b: Seq<(Seq<char>, i64)>,
)
    ensures
        with_sizes(m, table, a + b) == with_sizes(with_sizes(m, table, a), table, b),
    decreases b.len(),
{
    if b.len() == 0 {
        assert(a + b =~= a);
    } else {
        law_sizes_add_up(m, table, a, b.drop_last());
        assert((a + b).drop_last() =~= a + b.drop_last());
    }
}

/// The total size of the chunks of a column.
pub open spec fn size_of_column(column: Seq<char>, chunks: Seq<(Seq<char>, i64)>) -> nat
    decreases chunks.len(),
{
    if chunks.len() == 0 {
        0
    } else {
        size_of_column(column, chunks.drop_last()) + if chunks.last().0 == column {
            (chunks.last().1 as u64) as nat
        } else {
            0
        }
    }
}

/// A column of the table gains what its chunks take up; no other number changes.
pub proof fn law_column_gains_its_chunks(
    m: Map<Pair, nat>,
    table: Seq<char>,
    chunks: Seq<(Seq<char>, i64)>,
    pair: Pair,
)
    ensures
        under(with_sizes(m, table, chunks), pair) == under(m, pair) + if pair.0 == table {
            size_of_column(pair.1, chunks)
        } else {
            0
        },
    decreases chunks.len(),
{
    if chunks.len() > 0 {
        law_column_gains_its_chunks(m, table, chunks.drop_last(), pair);
    }
}

impl PairCounts {
    /// These numbers with the sizes of the column chunks of one row group added;
    /// `None` if some sum does not fit.
    fn with_group(self, table: &str, group: &RowGroup) -> (sizes: Option<PairCounts>)
        requires
            self.wf(),
            all_fit(self.map()),
        ensures
            sizes is Some <==> all_fit(with_sizes(self.map(), table@, group@.chunks)),
            sizes matches Some(s) ==> s.wf() && s.map() == with_sizes(
                self.map(),
                table@,
                group@.chunks,
            ),
    {
        let ghost start = self.map();
        let ghost chunks = group@.chunks;
        let mut sizes: PairCounts = self;
        let mut k: usize = 0;
        while k < group.chunks.len()
            invariant
                k <= group.chunks@.len(),
                chunks == group@.chunks,
                start == self.map(),
                sizes.wf(),
                sizes.map() == with_sizes(start, table@, chunks.take(k as int)),
                all_fit(sizes.map()),
            decreases group.chunks@.len() - k,
        {
            let ghost before = sizes.map();
            let size: u64 = group.chunks[k].compressed_size as u64;
            let column: &str = group.chunks[k].column.as_str();
            let fits: bool = sizes.add(table, column, size);
            proof {
                assert(chunks[k as int] == (column@, group.chunks@[k as int].compressed_size));
                assert(chunks.take(k + 1).drop_last() =~= chunks.take(k as int));
                assert(with_sizes(start, table@, chunks.take(k + 1)) == added(
                    before,
                    (table@, column@),
                    size as nat,
                ));
                lemma_sizes_grow(start, table@, chunks, k + 1);
            }
            if !fits {
                proof {
                    lemma_too_large(
                        with_sizes(start, table@, chunks.take(k + 1)),
                        with_sizes(start, table@, chunks),
                        (table@, column@),
                    );
                }
                return None;
            }
            k += 1;
        }
        proof {
            assert(chunks.take(k as int) =~= chunks);
        }
        Some(sizes)
    }

    /// These numbers with the sizes of all column chunks of the row groups
    /// added; `None` if some sum does not fit.
    pub fn with_row_groups(self, table: &str, groups: &Vec<RowGroup>) -> (sizes: Option<PairCounts>)
        requires
            self.wf(),
        ensures
            sizes is Some <==> all_fit(
                with_sizes(self.map(), table@, chunks_of(row_group_views(groups@))),
            ),
            sizes matches Some(s) ==> s.wf() && s.map() == with_sizes(
                self.map(),
                table@,
                chunks_of(row_group_views(groups@)),
            ),
    {
        let ghost start = self.map();
        let ghost views = row_group_views(groups@);
        proof {
            lemma_numbers_fit(self);
            assert(views.take(0) =~= Seq::<RowGroupView>::empty());
        }
        let mut sizes: PairCounts = self;
        let mut k: usize = 0;
        while k < groups.len()
            invariant
                k <= groups@.len(),
                views == row_group_views(groups@),
                start == self.map(),
                sizes.wf(),
                sizes.map() == with_sizes(start, table@, chunks_of(views.take(k as int))),
                all_fit(sizes.map()),
            decreases groups@.len() - k,
        {
            proof {
                let so_far = chunks_of(views.take(k as int));
                let now = chunks_of(views.take(k + 1));
                assert(views.take(k + 1).drop_last() =~= views.take(k as int));
                assert(now == so_far + groups@[k as int]@.chunks);
                law_sizes_add_up(start, table@, so_far, groups@[k as int]@.chunks);
                lemma_chunks_start(views, k + 1);
                lemma_sizes_grow(start, table@, chunks_of(views), now.len() as int);
            }
            match sizes.with_group(table, &groups[k]) {
                Some(more) => {
                    sizes = more;
                },
                None => {
                    proof {
                        let now = with_sizes(start, table@, chunks_of(views.take(k + 1)));
                        let bad = choose|p: Pair| #[trigger]
                            now.contains_key(p) && now[p] > u64::MAX;
                        lemma_too_large(now, with_sizes(start, table@, chunks_of(views)), bad);
                    }
                    return None;
                },
            }
            k += 1;
        }
        proof {
            assert(views.take(k as int) =~= views);
        }
        Some(sizes)
    }

    /// These numbers with the compressed size of every column chunk that a
    /// footer lists added; `None` if some sum does not fit.
    pub fn with_footer(self, table: &str, metadata: &ParquetMetaData) -> (sizes: Option<PairCounts>)
        requires
            self.wf(),
        ensures
            sizes is Some <==> all_fit(
                with_sizes(self.map(), table@, chunks_of(row_groups(*metadata))),
            ),
            sizes matches Some(s) ==> s.wf() && s.map() == with_sizes(
                self.map(),
                table@,
                chunks_of(row_groups(*metadata)),
            ),
    {
        let groups: Vec<RowGroup> = read_row_groups(metadata);
        self.with_row_groups(table, &groups)
    }
}

proof fn lemma_numbers_fit(counts: PairCounts)
    requires
        counts.wf(),
    ensures
        all_fit(counts.map()),
{
}

proof fn lemma_chunks_start(groups: Seq<RowGroupView>, k: int)
    requires
        0 <= k <= groups.len(),
    ensures
        chunks_of(groups.take(k)).len() <= chunks_of(groups).len(),
        chunks_of(groups).take(chunks_of(groups.take(k)).len() as int) == chunks_of(groups.take(k)),
    decreases groups.len(),
{
    if k == groups.len() {
        assert(groups.take(k) =~= groups);
        assert(chunks_of(groups).take(chunks_of(groups).len() as int) =~= chunks_of(groups));
    } else {
        lemma_chunks_start(groups.drop_last(), k);
        assert(groups.drop_last().take(k) =~= groups.take(k));
        let start = chunks_of(groups.take(k));
        assert(chunks_of(groups).take(start.len() as int) =~= chunks_of(groups.drop_last()).take(
            start.len() as int,
        ));
    }
}

/// The entries, each as its pair and its number.
pub open spec fn shown(list: Seq<PairCount>) -> Seq<(Pair, nat)> {
    list.map_values(|e: PairCount| e.shown())
}

/// `e` put into `ranked` behind every entry whose number is no smaller.
pub open spec fn insert_by_count(ranked: Seq<(Pair, nat)>, e: (Pair, nat)) -> Seq<(Pair, nat)>
    decreases ranked.len(),
{
    if ranked.len() == 0 || ranked.last().1 >= e.1 {
        ranked.push(e)
    } else {
        insert_by_count(ranked.drop_last(), e).push(ranked.last())
    }
}

/// `list` by descending number; entries with the same number keep their order.
pub open spec fn by_count(list: Seq<(Pair, nat)>) -> Seq<(Pair, nat)>
    decreases list.len(),
{
    if list.len() == 0 {
        Seq::empty()
    } else {
        insert_by_count(by_count(list.drop_last()), list.last())
    }
}

/// The first `limit` of `list`, or all of it.
pub open spec fn at_most_first(list: Seq<(Pair, nat)>, limit: nat) -> Seq<(Pair, nat)> {
    if list.len() <= limit {
        list
    } else {
        list.take(limit as int)
    }
}

proof fn lemma_insert_by_count_at(ranked: Seq<(Pair, nat)>, e: (Pair, nat), p: int)
    requires
        0 <= p <= ranked.len(),
        p > 0 ==> ranked[p - 1].1 >= e.1,
        forall|i: int| p <= i < ranked.len() ==> (#[trigger] ranked[i]).1 < e.1,
    ensures
        insert_by_count(ranked, e) == ranked.insert(p, e),
    decreases ranked.len() - p,
{
    if p == ranked.len() {
        assert(ranked.insert(p, e) =~= ranked.push(e));
    } else {
        lemma_insert_by_count_at(ranked.drop_last(), e, p);
        assert(ranked.insert(p, e) =~= ranked.drop_last().insert(p, e).push(ranked.last()));
    }
}

impl PairCounts {
    /// The `limit` entries with the largest numbers, largest first; entries with
    /// the same number in the order of their pairs.
    pub fn hottest(&self, limit: usize) -> (list: Vec<PairCount>)
        ensures
            shown(list@) == at_most_first(by_count(shown(self.listing())), limit as nat),
    {
        let ghost all = shown(self.listing());
        let mut ranked: Vec<PairCount> = Vec::new();
        for k in 0..self.entries.len()
            invariant
                all == shown(self.listing()),
                shown(ranked@) == by_count(all.take(k as int)),
        {
            let e: PairCount = self.entries[k].copy();
            let mut p: usize = ranked.len();
            while p > 0 && ranked[p - 1].count < e.count
                invariant
                    0 <= p <= ranked@.len(),
                    forall|i: int| p <= i < ranked@.len() ==> (#[trigger] ranked@[i]).count < e.count,
                decreases p,
            {
                p -= 1;
            }
            proof {
                let before = shown(ranked@);
                assert forall|i: int| p <= i < before.len() implies (#[trigger] before[i]).1
                    < e.shown().1 by {
                    assert(ranked@[i].count < e.count);
                }
                if p > 0 {
                    assert(before[p - 1].1 == ranked@[p - 1].count);
                }
                lemma_insert_by_count_at(before, e.shown(), p as int);
                assert(all.take(k + 1).drop_last() =~= all.take(k as int));
                assert(all.take(k + 1).last() == e.shown());
                assert(shown(ranked@.insert(p as int, e)) =~= before.insert(p as int, e.shown()));
            }
            ranked.insert(p, e);
        }
        proof {
            assert(all.take(all.len() as int) =~= all);
        }
        if ranked.len() > limit {
            let ghost whole = ranked@;
            ranked.truncate(limit);
            proof {
                assert(shown(ranked@) =~= shown(whole).take(limit as int));
            }
        }
        ranked
    }
}

/// Numbers do not grow along the list.
pub open spec fn descending(list: Seq<(Pair, nat)>) -> bool {
    forall|i: int, j: int|
        0 <= i <= j < list.len() ==> (#[trigger] list[i]).1 >= (#[trigger] list[j]).1
}

proof fn lemma_insert_by_count_keeps(ranked: Seq<(Pair, nat)>, e: (Pair, nat))
    requires
        descending(ranked),
    ensures
        insert_by_count(ranked, e).len() == ranked.len() + 1,
        insert_by_count(ranked, e).to_multiset() == ranked.push(e).to_multiset(),
        descending(insert_by_count(ranked, e)),
        insert_by_count(ranked, e).last().1 == if ranked.len() > 0 && ranked.last().1 < e.1 {
            ranked.last().1
        } else {
            e.1
        },
    decreases ranked.len(),
{
    broadcast use vstd::seq_lib::group_to_multiset_ensures;

    if ranked.len() > 0 && ranked.last().1 < e.1 {
        let init = ranked.drop_last();
        lemma_insert_by_count_keeps(init, e);
        let inner = insert_by_count(init, e);
        let result = inner.push(ranked.last());
        assert(ranked =~= init.push(ranked.last()));
        assert forall|i: int, j: int| 0 <= i <= j < result.len() implies (#[trigger] result[i]).1
            >= (#[trigger] result[j]).1 by {
            if j == inner.len() && i < j {
                assert(inner[i].1 >= inner.last().1);
                if init.len() > 0 {
                    assert(init.last().1 >= ranked.last().1);
                }
            }
        }
    }
}

/// Ranking loses no entry, adds none and leaves the largest numbers in front.
pub proof fn law_ranking_keeps_entries(list: Seq<(Pair, nat)>)
    ensures
        by_count(list).len() == list.len(),
        by_count(list).to_multiset() == list.to_multiset(),
        descending(by_count(list)),
    decreases list.len(),
{
    broadcast use vstd::seq_lib::group_to_multiset_ensures;

    if list.len() > 0 {
        law_ranking_keeps_entries(list.drop_last());
        lemma_insert_by_count_keeps(by_count(list.drop_last()), list.last());
        assert(list =~= list.drop_last().push(list.last()));
    } else {
        assert(by_count(list) =~= list);
    }
}

proof fn lemma_insert_by_count_is_stable(ranked: Seq<(Pair, nat)>, e: (Pair, nat), number: nat)
    ensures
        insert_by_count(ranked, e).filter(|x: (Pair, nat)| x.1 == number) == ranked.push(e).filter(
            |x: (Pair, nat)| x.1 == number,
        ),
    decreases ranked.len(),
{
    if ranked.len() > 0 && ranked.last().1 < e.1 {
        let here = |x: (Pair, nat)| x.1 == number;
        let init = ranked.drop_last();
        lemma_insert_by_count_is_stable(init, e, number);
        assert(ranked =~= init.push(ranked.last()));
        lemma_filter_push(insert_by_count(init, e), ranked.last(), here);
        lemma_filter_push(init, ranked.last(), here);
        lemma_filter_push(init, e, here);
        lemma_filter_push(ranked, e, here);
    }
}

/// Entries with the same number keep their order.
pub proof fn law_ranking_is_stable(list: Seq<(Pair, nat)>, number: nat)
    ensures
        by_count(list).filter(|x: (Pair, nat)| x.1 == number) == list.filter(
            |x: (Pair, nat)| x.1 == number,
        ),
    decreases list.len(),
{
    if list.len() > 0 {
        let here = |x: (Pair, nat)| x.1 == number;
        let init = list.drop_last();
        law_ranking_is_stable(init, number);
        lemma_insert_by_count_is_stable(by_count(init), list.last(), number);
        assert(list =~= init.push(list.last()));
        lemma_filter_push(by_count(init), list.last(), here);
        lemma_filter_push(init, list.last(), here);
    } else {
        assert(by_count(list) =~= list);
    }
}

/// Pairs come in the order of their tables, and those of one table in the order of their
/// columns.
pub proof fn law_pairs_come_by_table_and_column(a: Pair, b: Pair)
    ensures
        pair_less(a, b) <==> text_less(a.0, b.0) || a.0 == b.0 && text_less(a.1, b.1),
{
    law_texts_are_totally_ordered(a.0, b.0, a.0);
}

/// Adding to the number of a pair changes it by exactly so much, and no other.
pub proof fn law_adding_changes_one_number(m: Map<Pair, nat>, key: Pair, more: nat, other: Pair)
    ensures
        added(m, key, more).contains_key(key),
        added(m, key, more)[key] == more + if m.contains_key(key) {
            m[key]
        } else {
            0
        },
        other != key ==> (added(m, key, more).contains_key(other) <==> m.contains_key(other)),
        other != key && m.contains_key(other) ==> added(m, key, more)[other] == m[other],
{
}

/// The chunks of row groups behind one another are those of each part of them, and all
/// chunks of a row group are among them.
pub proof fn law_chunks_of_all_row_groups(a: Seq<RowGroupView>, b: Seq<RowGroupView>)
    ensures
        chunks_of(a + b) == chunks_of(a) + chunks_of(b),
        a.len() == 1 ==> chunks_of(a) == a[0].chunks,
    decreases b.len(),
{
    if a.len() == 1 {
        assert(a.drop_last() =~= Seq::<RowGroupView>::empty());
        reveal_with_fuel(chunks_of, 2);
        assert(chunks_of(a) =~= a[0].chunks);
    }
    if b.len() == 0 {
        assert(a + b =~= a);
        assert(chunks_of(a) + chunks_of(b) =~= chunks_of(a));
    } else {
        law_chunks_of_all_row_groups(a, b.drop_last());
        assert((a + b).drop_last() =~= a + b.drop_last());
        assert((a + b).last() == b.last());
        assert(chunks_of(a + b) =~= chunks_of(a) + chunks_of(b));
    }
}

/// One more chunk of a column of a table adds its size to the number of that column, and
/// changes no other number.
pub proof fn law_each_chunk_adds_its_size(
    m: Map<Pair, nat>,
    table: Seq<char>,
    chunks: Seq<(Seq<char>, i64)>,
    column: Seq<char>,
    size: i64,
    other: Pair,
)
    requires
        size >= 0,
        other != (table, column),
    ensures
        under(with_sizes(m, table, chunks.push((column, size))), (table, column)) == under(
            with_sizes(m, table, chunks),
            (table, column),
        ) + size,
        under(with_sizes(m, table, chunks.push((column, size))), other) == under(
            with_sizes(m, table, chunks),
            other,
        ),
        with_sizes(m, table, Seq::empty()) == m,
{
    assert(chunks.push((column, size)).drop_last() =~= chunks);
}

/// The size of a column is that of all chunks that are its own, added up.
pub proof fn law_column_size_is_sum(column: Seq<char>, chunks: Seq<(Seq<char>, i64)>)
    ensures
        size_of_column(column, chunks) == chunks.filter(
            |chunk: (Seq<char>, i64)| chunk.0 == column,
        ).fold_left(0nat, |sum: nat, chunk: (Seq<char>, i64)| sum + (chunk.1 as u64) as nat),
    decreases chunks.len(),
{
    let own = |chunk: (Seq<char>, i64)| chunk.0 == column;
    let add_size = |sum: nat, chunk: (Seq<char>, i64)| sum + (chunk.1 as u64) as nat;
    if chunks.len() > 0 {
        let front = chunks.drop_last();
        law_column_size_is_sum(column, front);
        lemma_filter_push(front, chunks.last(), own);
        assert(front.push(chunks.last()) =~= chunks);
        if own(chunks.last()) {
            assert(chunks.filter(own).drop_last() =~= front.filter(own));
        }
    } else {
        reveal(Seq::filter);
        assert(chunks.filter(own).len() == 0);
    }
}

/// Of the entries of a list, those with the largest numbers are kept, as many as asked for
/// or all, and the larger ones come first. What is left out is no larger than what is kept.
pub proof fn law_largest_numbers_come_first(list: Seq<(Pair, nat)>, limit: nat, i: int, j: int)
    requires
        0 <= i < j < list.len(),
    ensures
        at_most_first(by_count(list), limit).len() == if list.len() < limit {
            list.len()
        } else {
            limit
        },
        i < limit ==> at_most_first(by_count(list), limit)[i] == by_count(list)[i],
        by_count(list)[i].1 >= by_count(list)[j].1,
        by_count(list).to_multiset() == list.to_multiset(),
{
    law_ranking_keeps_entries(list);
}

/// A number that is asked for is the one that is listed with the pair.
pub proof fn law_numbers_are_those_listed(counts: PairCounts, i: int)
    requires
        counts.wf(),
        0 <= i < counts.listing().len(),
    ensures
        under(
            counts.map(),
            (counts.listing()[i].table@, counts.listing()[i].column@),
        ) == counts.listing()[i].count,
{
    lemma_one_entry(counts.listing(), i);
}

} // verus!
