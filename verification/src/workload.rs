//! A steady stream of sampled queries, and the log of what each of them cost and
//! read.

use crate::columns::{columns_under, lemma_place_of, TableColumns, TableEntry};
use crate::config::Query;
use crate::counting_store::StatsSnapshot;
use crate::counts::{
    added, at_most_first, by_count, holds, law_entries_list_the_numbers, lists, shown, under, Pair,
    PairCount, PairCounts,
};
use crate::order::{law_texts_are_totally_ordered, text_less};
use crate::storage::{Storage, Variant};
use crate::text::{
    at_left, at_right, decimal, law_pieces_of_two, law_uncut_text_is_one_piece, pad_left,
    pad_right, pieces, same_text, texts, to_decimal,
};
use rand::rngs::StdRng;
use rand::{Rng, SeedableRng};
use vstd::prelude::*;
use vstd::string::*;

verus! {

/// A source of random numbers. Opaque but for [`draw`].
#[verifier::external_type_specification]
#[verifier::external_body]
pub struct ExStdRng(StdRng);

/// The generator that a seed starts.
pub uninterp spec fn started(seed: u64) -> StdRng;

/// `StdRng::seed_from_u64`: the generator is a matter of the seed alone.
#[verifier::external_body]
fn seeded(seed: u64) -> (rng: StdRng)
    ensures
        rng == started(seed),
{
    StdRng::seed_from_u64(seed)
}

/// The number below `bound` that a generator gives, and the generator afterwards,
/// where a `usize` has `bits` bits.
pub uninterp spec fn draw(rng: StdRng, bound: usize, bits: u32) -> (usize, StdRng);

/// `Rng::gen_range` over `0..bound`: a number below `bound`. Which one, and how the
/// generator goes on, is a matter of the generator, of `bound` and of the width of
/// a `usize`. That all numbers are equally likely is not said here.
#[verifier::external_body]
fn below(rng: &mut StdRng, bound: usize) -> (number: usize)
    requires
        bound > 0,
    ensures
        number < bound,
        (number, *final(rng)) == draw(*old(rng), bound, usize::BITS),
{
    rng.gen_range(0..bound)
}

/// Draws the queries of a workload.
#[derive(Debug)]
pub struct Sampler {
    pub rng: StdRng,
}

impl Sampler {
    /// A sampler. The same seed draws the same queries, so that runs of several
    /// variants can be compared.
    pub fn new(seed: u64) -> (sampler: Sampler)
        ensures
            sampler.rng == started(seed),
    {
        Sampler { rng: seeded(seed) }
    }

    /// The place of the next query. Whatever the distribution is called, all
    /// queries are equally likely.
    pub fn pick(&mut self, queries: usize) -> (place: usize)
        requires
            queries > 0,
        ensures
            place < queries,
            (place, final(self).rng) == draw(old(self).rng, queries, usize::BITS),
    {
        below(&mut self.rng, queries)
    }
}

/// A run of picks, one for each of `counts`, by a sampler with the seed: the
/// sampler before each pick and after the last, and the places that were picked.
/// After each pick the generator goes on as `gaps` says, by other draws from it, or
/// stays as it is.
pub open spec fn picked(
    seed: u64,
    counts: Seq<usize>,
    gaps: Seq<spec_fn(StdRng) -> StdRng>,
    samplers: Seq<Sampler>,
    places: Seq<usize>,
) -> bool {
    &&& samplers.len() == counts.len() + 1
    &&& places.len() == counts.len()
    &&& samplers[0].rng == started(seed)
    &&& forall|i: int|
        0 <= i < counts.len() ==> {
            let drawn = draw(samplers[i].rng, counts[i], usize::BITS);
            #[trigger] places[i] == drawn.0 && samplers[i + 1].rng == gaps[i](drawn.1)
        }
}

proof fn lemma_same_seed_same_state(
    seed: u64,
    counts: Seq<usize>,
    gaps: Seq<spec_fn(StdRng) -> StdRng>,
    samplers: Seq<Sampler>,
    places: Seq<usize>,
    others: Seq<Sampler>,
    other_places: Seq<usize>,
    i: int,
)
    requires
        picked(seed, counts, gaps, samplers, places),
        picked(seed, counts, gaps, others, other_places),
        0 <= i <= counts.len(),
    ensures
        samplers[i].rng == others[i].rng,
    decreases i,
{
    if i > 0 {
        lemma_same_seed_same_state(
            seed,
            counts,
            gaps,
            samplers,
            places,
            others,
            other_places,
            i - 1,
        );
        assert(places[i - 1] == other_places[i - 1]);
    }
}

/// The numbers of the queries at some places.
pub open spec fn numbers_at(queries: Seq<Query>, places: Seq<usize>) -> Seq<usize> {
    places.map_values(|p: usize| queries[p as int].number)
}

/// Two samplers with the same seed, whose generators go on alike between picks, pick
/// the same queries from the same numbers of queries. So runs of several variants
/// fire the same queries and can be compared, with gaps that are drawn at random
/// as well as with even ones.
pub proof fn law_same_seed_same_queries(
    seed: u64,
    queries: Seq<Query>,
    counts: Seq<usize>,
    gaps: Seq<spec_fn(StdRng) -> StdRng>,
    samplers: Seq<Sampler>,
    places: Seq<usize>,
    others: Seq<Sampler>,
    other_places: Seq<usize>,
)
    requires
        picked(seed, counts, gaps, samplers, places),
        picked(seed, counts, gaps, others, other_places),
    ensures
        places == other_places,
        numbers_at(queries, places) == numbers_at(queries, other_places),
{
    assert forall|i: int| 0 <= i < counts.len() implies places[i] == other_places[i] by {
        lemma_same_seed_same_state(
            seed,
            counts,
            gaps,
            samplers,
            places,
            others,
            other_places,
            i,
        );
    }
    assert(places =~= other_places);
}

/// A query that was run, and what it cost.
#[derive(Debug)]
pub struct FiredQuery {
    /// Milliseconds from the start of the workload.
    pub offset_ms: u128,
    /// The number of the query.
    pub number: usize,
    /// Milliseconds that it took, written out.
    pub latency: String,
    /// What was asked of the object store.
    pub counted: StatsSnapshot,
    /// Whether it succeeded.
    pub ok: bool,
}

impl FiredQuery {
    /// The GET requests that it made.
    pub open spec fn gets(self) -> nat {
        (self.counted.get_requests + self.counted.get_ranges_ranges) as nat
    }

    /// The line of the event log.
    pub open spec fn event_row(self) -> Seq<char> {
        decimal(self.offset_ms as nat) + ","@ + decimal(self.number as nat) + ","@ + self.latency@
            + ","@ + decimal(self.gets()) + ","@ + decimal(self.counted.bytes_read as nat) + ","@ + (
        if self.ok {
            "true"@
        } else {
            "false"@
        })
    }

    /// The line of the column log for a column of `size` bytes.
    pub open spec fn column_row(self, pair: Pair, size: nat) -> Seq<char> {
        decimal(self.offset_ms as nat) + ","@ + decimal(self.number as nat) + ","@ + pair.0 + ","@
            + pair.1 + ","@ + decimal(size)
    }

    /// The lines of the column log.
    pub open spec fn column_rows(self, pairs: Seq<Pair>, sizes: Map<Pair, nat>) -> Seq<Seq<char>> {
        pairs.map_values(|p: Pair| self.column_row(p, under(sizes, p)))
    }

    fn to_event_row(&self) -> (row: String)
        requires
            self.gets() <= u64::MAX,
        ensures
            row@ == self.event_row(),
    {
        let mut row: String = to_decimal(self.offset_ms);
        row.append(",");
        row.append(to_decimal(self.number as u128).as_str());
        row.append(",");
        row.append(self.latency.as_str());
        row.append(",");
        row.append(to_decimal(self.counted.total_gets() as u128).as_str());
        row.append(",");
        row.append(to_decimal(self.counted.bytes_read as u128).as_str());
        row.append(",");
        if self.ok {
            row.append("true");
        } else {
            row.append("false");
        }
        row
    }

    fn to_column_row(&self, table: &str, column: &str, size: u64) -> (row: String)
        ensures
            row@ == self.column_row((table@, column@), size as nat),
    {
        let mut row: String = to_decimal(self.offset_ms);
        row.append(",");
        row.append(to_decimal(self.number as u128).as_str());
        row.append(",");
        row.append(table);
        row.append(",");
        row.append(column);
        row.append(",");
        row.append(to_decimal(size as u128).as_str());
        row
    }
}

/// The pairs of one table.
pub open spec fn entry_pairs(entry: TableEntry) -> Seq<Pair> {
    entry.columns.listed().map_values(|c: Seq<char>| (entry.table@, c))
}

/// The tables and columns, pair by pair, in order.
pub open spec fn pairs_of(entries: Seq<TableEntry>) -> Seq<Pair>
    decreases entries.len(),
{
    if entries.len() == 0 {
        Seq::empty()
    } else {
        pairs_of(entries.drop_last()) + entry_pairs(entries.last())
    }
}

/// `m` with each pair counted once more.
pub open spec fn touched(m: Map<Pair, nat>, pairs: Seq<Pair>) -> Map<Pair, nat>
    decreases pairs.len(),
{
    if pairs.len() == 0 {
        m
    } else {
        added(touched(m, pairs.drop_last()), pairs.last(), 1)
    }
}

/// A table and a column of it, as text.
struct TextPair {
    table: String,
    column: String,
}

/// What some pairs hold.
spec fn pair_views(list: Seq<TextPair>) -> Seq<Pair> {
    list.map_values(|p: TextPair| (p.table@, p.column@))
}

/// The tables and columns, pair by pair, in order.
fn list_pairs(columns: &TableColumns) -> (pairs: Vec<TextPair>)
    ensures
        pair_views(pairs@) == pairs_of(columns.listing()),
{
    let mut pairs: Vec<TextPair> = Vec::new();
    let ghost entries = columns.listing();
    let mut i: usize = 0;
    proof {
        assert(entries.take(0) =~= Seq::<TableEntry>::empty());
    }
    while i < columns.entries.len()
        invariant
            i <= entries.len(),
            entries == columns.listing(),
            pair_views(pairs@) == pairs_of(entries.take(i as int)),
        decreases entries.len() - i,
    {
        let entry: &TableEntry = &columns.entries[i];
        let ghost before = pair_views(pairs@);
        let ghost here = entry_pairs(*entry);
        let mut j: usize = 0;
        proof {
            assert(before + here.take(0) =~= before);
        }
        while j < entry.columns.items.len()
            invariant
                j <= entry.columns.items@.len(),
                here == entry_pairs(*entry),
                pair_views(pairs@) == before + here.take(j as int),
            decreases entry.columns.items@.len() - j,
        {
            let ghost so_far = pairs@;
            pairs.push(
                TextPair {
                    table: String::from_str(entry.table.as_str()),
                    column: String::from_str(entry.columns.items[j].as_str()),
                },
            );
            proof {
                assert(pair_views(pairs@) =~= pair_views(so_far).push(here[j as int]));
                assert(here.take(j + 1) =~= here.take(j as int).push(here[j as int]));
                assert(pair_views(pairs@) =~= before + here.take(j + 1));
            }
            j += 1;
        }
        proof {
            assert(here.take(j as int) =~= here);
            assert(entries.take(i + 1).drop_last() =~= entries.take(i as int));
            assert(entries.take(i + 1).last() == *entry);
        }
        i += 1;
    }
    proof {
        assert(entries.take(i as int) =~= entries);
    }
    pairs
}

/// No pair is listed twice.
proof fn lemma_pairs_differ(entries: Seq<TableEntry>)
    requires
        forall|i: int, j: int|
            0 <= i < j < entries.len() ==> text_less(
                (#[trigger] entries[i]).table@,
                (#[trigger] entries[j]).table@,
            ),
        forall|i: int| 0 <= i < entries.len() ==> (#[trigger] entries[i]).columns.wf(),
    ensures
        pairs_of(entries).no_duplicates(),
        forall|p: Pair| #[trigger]
            pairs_of(entries).contains(p) ==> exists|i: int|
                0 <= i < entries.len() && (#[trigger] entries[i]).table@ == p.0
                    && entries[i].columns.listed().contains(p.1),
        forall|i: int, c: Seq<char>|
            0 <= i < entries.len() && #[trigger] entries[i].columns.listed().contains(c)
                ==> pairs_of(entries).contains((entries[i].table@, c)),
    decreases entries.len(),
{
    if entries.len() > 0 {
        let init = entries.drop_last();
        let last = entries.last();
        lemma_pairs_differ(init);
        let front = pairs_of(init);
        let back = entry_pairs(last);
        let all = pairs_of(entries);
        assert forall|p: Pair| #[trigger] all.contains(p) implies exists|i: int|
            0 <= i < entries.len() && (#[trigger] entries[i]).table@ == p.0
                && entries[i].columns.listed().contains(p.1) by {
            let k = choose|k: int| 0 <= k < all.len() && all[k] == p;
            if k < front.len() {
                assert(front[k] == p);
                assert(front.contains(p));
                let i = choose|i: int|
                    0 <= i < init.len() && (#[trigger] init[i]).table@ == p.0
                        && init[i].columns.listed().contains(p.1);
                assert(entries[i] == init[i]);
            } else {
                assert(back[k - front.len()] == p);
                assert(last.columns.listed()[k - front.len()] == p.1);
                assert(entries[entries.len() - 1] == last);
            }
        }
        assert forall|i: int, c: Seq<char>|
            0 <= i < entries.len() && #[trigger] entries[i].columns.listed().contains(
                c,
            ) implies all.contains((entries[i].table@, c)) by {
            if i < init.len() {
                assert(init[i] == entries[i]);
                assert(init[i].columns.listed().contains(c));
                let k = choose|k: int| 0 <= k < front.len() && front[k] == (entries[i].table@, c);
                assert(all[k] == front[k]);
            } else {
                let k = choose|k: int|
                    0 <= k < last.columns.listed().len() && last.columns.listed()[k] == c;
                assert(back[k] == (last.table@, c));
                assert(all[front.len() + k] == back[k]);
            }
        }
        assert forall|a: int, b: int| 0 <= a < all.len() && 0 <= b < all.len() && a != b implies all[a]
            != all[b] by {
            let (x, y) = if a < b {
                (a, b)
            } else {
                (b, a)
            };
            if y < front.len() {
                assert(front[x] != front[y]);
            } else if x >= front.len() {
                let cs = last.columns.listed();
                assert(text_less(cs[x - front.len()], cs[y - front.len()]));
                law_texts_are_totally_ordered(cs[x - front.len()], cs[y - front.len()], cs[0]);
            } else {
                assert(front.contains(front[x]));
                let i = choose|i: int|
                    0 <= i < init.len() && (#[trigger] init[i]).table@ == front[x].0
                        && init[i].columns.listed().contains(front[x].1);
                assert(text_less(entries[i].table@, entries[entries.len() - 1].table@));
                law_texts_are_totally_ordered(last.table@, last.table@, last.table@);
            }
        }
    }
}

/// Pairs that differ are counted once each, and no others.
proof fn lemma_touched_once(m: Map<Pair, nat>, pairs: Seq<Pair>, p: Pair)
    requires
        pairs.no_duplicates(),
    ensures
        under(touched(m, pairs), p) == under(m, p) + if pairs.contains(p) {
            1int
        } else {
            0
        },
        touched(m, pairs).contains_key(p) <==> m.contains_key(p) || pairs.contains(p),
    decreases pairs.len(),
{
    if pairs.len() > 0 {
        let init = pairs.drop_last();
        lemma_touched_once(m, init, p);
        if init.contains(p) {
            let k = choose|k: int| 0 <= k < init.len() && init[k] == p;
            assert(pairs[k] == p);
            assert(pairs[pairs.len() - 1] != pairs[k]);
        }
        if pairs.contains(p) {
            let k = choose|k: int| 0 <= k < pairs.len() && pairs[k] == p;
            if k < init.len() {
                assert(init[k] == p);
            }
        }
        if pairs.last() == p {
            assert(pairs[pairs.len() - 1] == p);
        }
    }
}

/// A query counts once for each column that it reads, and for no other.
pub proof fn law_query_counts_once(m: Map<Pair, nat>, columns: TableColumns, pair: Pair)
    requires
        columns.wf(),
    ensures
        under(touched(m, pairs_of(columns.listing())), pair) == under(m, pair) + if columns_under(
            columns.map(),
            pair.0,
        ).contains(pair.1) {
            1int
        } else {
            0
        },
{
    let entries = columns.listing();
    lemma_table_entries(columns);
    lemma_pairs_differ(entries);
    lemma_touched_once(m, pairs_of(entries), pair);
    if pairs_of(entries).contains(pair) {
        let i = choose|i: int|
            0 <= i < entries.len() && (#[trigger] entries[i]).table@ == pair.0
                && entries[i].columns.listed().contains(pair.1);
        lemma_columns_of_entry(columns, i);
    }
    if columns_under(columns.map(), pair.0).contains(pair.1) {
        let i = columns.tables().index_of(pair.0);
        assert(columns.tables()[i] == pair.0);
        assert(entries[i].columns.listed().contains(pair.1));
    }
}

proof fn lemma_table_entries(columns: TableColumns)
    requires
        columns.wf(),
    ensures
        forall|i: int, j: int|
            0 <= i < j < columns.listing().len() ==> text_less(
                (#[trigger] columns.listing()[i]).table@,
                (#[trigger] columns.listing()[j]).table@,
            ),
{
    assert forall|i: int, j: int| 0 <= i < j < columns.listing().len() implies text_less(
        (#[trigger] columns.listing()[i]).table@,
        (#[trigger] columns.listing()[j]).table@,
    ) by {
        assert(text_less(columns.tables()[i], columns.tables()[j]));
    }
}

proof fn lemma_columns_of_entry(columns: TableColumns, i: int)
    requires
        columns.wf(),
        0 <= i < columns.listing().len(),
    ensures
        columns_under(columns.map(), columns.listing()[i].table@) == columns.listing()[i].columns.set(),
{
    assert(columns.tables()[i] == columns.listing()[i].table@);
    lemma_place_of(columns.tables(), i);
}

/// What a workload has done so far.
#[derive(Debug)]
pub struct WorkloadLog {
    /// One line for each query, under a header.
    pub(crate) events: Vec<String>,
    /// One line for each column that each query read, under a header.
    pub(crate) colrows: Vec<String>,
    /// How many queries read each column.
    pub(crate) touch: PairCounts,
    pub(crate) total_gets: u64,
    pub(crate) total_bytes: u64,
    /// How many queries were run.
    pub(crate) fired: usize,
    /// How many of them succeeded.
    pub(crate) ok: usize,
}

/// What a log holds. `listed` and `touch` both hold how many queries read each
/// column, `listed` in the order of the columns.
#[verifier::ext_equal]
pub struct LogView {
    pub events: Seq<Seq<char>>,
    pub colrows: Seq<Seq<char>>,
    pub listed: Seq<(Pair, nat)>,
    pub touch: Map<Pair, nat>,
    pub total_gets: u64,
    pub total_bytes: u64,
    pub fired: usize,
    pub ok: usize,
}

impl View for WorkloadLog {
    type V = LogView;

    open(crate) spec fn view(&self) -> LogView {
        LogView {
            events: texts(self.events@),
            colrows: texts(self.colrows@),
            listed: shown(self.touch.listing()),
            touch: self.touch.map(),
            total_gets: self.total_gets,
            total_bytes: self.total_bytes,
            fired: self.fired,
            ok: self.ok,
        }
    }
}

impl WorkloadLog {
    /// No column was read by more queries than there were.
    pub open(crate) spec fn wf(self) -> bool {
        &&& self.touch.wf()
        &&& forall|p: Pair| #[trigger]
            self.touch.map().contains_key(p) ==> self.touch.map()[p] <= self.fired
        &&& self.ok <= self.fired
    }

    /// The totals can take in one more query.
    pub open spec fn has_room(self, query: FiredQuery) -> bool {
        &&& self@.fired < usize::MAX
        &&& self@.total_gets + query.gets() <= u64::MAX
        &&& self@.total_bytes + query.counted.bytes_read <= u64::MAX
    }

    /// The lines of the event log.
    pub fn events(&self) -> (events: &Vec<String>)
        ensures
            texts(events@) == self@.events,
    {
        &self.events
    }

    /// The lines of the column log.
    pub fn colrows(&self) -> (colrows: &Vec<String>)
        ensures
            texts(colrows@) == self@.colrows,
    {
        &self.colrows
    }

    /// How many queries read each column.
    pub fn touch(&self) -> (touch: &PairCounts)
        requires
            self.wf(),
        ensures
            touch.wf(),
            touch.map() == self@.touch,
    {
        &self.touch
    }

    /// The bytes that all queries read.
    pub fn total_bytes(&self) -> (bytes: u64)
        ensures
            bytes == self@.total_bytes,
    {
        self.total_bytes
    }

    /// Nothing done.
    pub fn new() -> (log: WorkloadLog)
        ensures
            log.wf(),
            log@ == (LogView {
                events: seq!["t_offset_ms,query_nr,latency_ms,get_requests,bytes_read,ok"@],
                colrows: seq!["t_offset_ms,query_nr,table,column,est_bytes"@],
                listed: Seq::empty(),
                touch: Map::empty(),
                total_gets: 0,
                total_bytes: 0,
                fired: 0,
                ok: 0,
            }),
    {
        let mut events: Vec<String> = Vec::new();
        events.push(String::from_str("t_offset_ms,query_nr,latency_ms,get_requests,bytes_read,ok"));
        let mut colrows: Vec<String> = Vec::new();
        colrows.push(String::from_str("t_offset_ms,query_nr,table,column,est_bytes"));
        proof {
            assert(texts(events@) =~= seq![
                "t_offset_ms,query_nr,latency_ms,get_requests,bytes_read,ok"@,
            ]);
            assert(texts(colrows@) =~= seq!["t_offset_ms,query_nr,table,column,est_bytes"@]);
        }
        let log = WorkloadLog {
            events,
            colrows,
            touch: PairCounts::new(),
            total_gets: 0,
            total_bytes: 0,
            fired: 0,
            ok: 0,
        };
        proof {
            lemma_nothing_listed(log.touch);
        }
        log
    }

    /// Takes in a query that was run, with the columns that it reads and the sizes
    /// of columns. Leaves all as it is, and says so, if a total would not fit.
    pub fn record(&mut self, query: &FiredQuery, columns: &TableColumns, sizes: &PairCounts) -> (kept:
        bool)
        requires
            old(self).wf(),
            columns.wf(),
            sizes.wf(),
        ensures
            final(self).wf(),
            kept == old(self).has_room(*query),
            !kept ==> *final(self) == *old(self),
            kept ==> {
                &&& final(self)@.events == old(self)@.events.push(query.event_row())
                &&& final(self)@.colrows == old(self)@.colrows + query.column_rows(
                    pairs_of(columns.listing()),
                    sizes.map(),
                )
                &&& final(self)@.touch == touched(old(self)@.touch, pairs_of(columns.listing()))
                &&& final(self)@.total_gets == old(self)@.total_gets + query.gets()
                &&& final(self)@.total_bytes == old(self)@.total_bytes + query.counted.bytes_read
                &&& final(self)@.fired == old(self)@.fired + 1
                &&& final(self)@.ok == old(self)@.ok + if query.ok {
                    1int
                } else {
                    0
                }
            },
    {
        if self.fired == usize::MAX {
            return false;
        }
        let gets: u64 = match query.counted.get_requests.checked_add(
            query.counted.get_ranges_ranges,
        ) {
            Some(gets) => gets,
            None => {
                return false;
            },
        };
        let total_gets: u64 = match self.total_gets.checked_add(gets) {
            Some(total) => total,
            None => {
                return false;
            },
        };
        let total_bytes: u64 = match self.total_bytes.checked_add(query.counted.bytes_read) {
            Some(total) => total,
            None => {
                return false;
            },
        };
        let ghost start = *self;
        self.events.push(query.to_event_row());
        proof {
            assert(texts(self.events@) =~= texts(start.events@).push(query.event_row()));
        }
        self.record_columns(query, columns, sizes);
        self.total_gets = total_gets;
        self.total_bytes = total_bytes;
        self.fired += 1;
        if query.ok {
            self.ok += 1;
        }
        proof {
            lemma_table_entries(*columns);
            lemma_pairs_differ(columns.listing());
            assert forall|p: Pair| #[trigger] self.touch.map().contains_key(p) implies self.touch.map()[p]
                <= self.fired by {
                lemma_touched_once(start.touch.map(), pairs_of(columns.listing()), p);
            }
        }
        true
    }

    /// Takes in the columns that a query reads.
    fn record_columns(&mut self, query: &FiredQuery, columns: &TableColumns, sizes: &PairCounts)
        requires
            old(self).wf(),
            old(self).fired < usize::MAX,
            columns.wf(),
            sizes.wf(),
        ensures
            *final(self) == (WorkloadLog {
                colrows: final(self).colrows,
                touch: final(self).touch,
                ..*old(self)
            }),
            texts(final(self).colrows@) == texts(old(self).colrows@) + query.column_rows(
                pairs_of(columns.listing()),
                sizes.map(),
            ),
            final(self).touch.wf(),
            final(self).touch.map() == touched(old(self).touch.map(), pairs_of(columns.listing())),
    {
        let pairs: Vec<TextPair> = list_pairs(columns);
        let ghost start = *self;
        let ghost all = pairs_of(columns.listing());
        let ghost rows = query.column_rows(all, sizes.map());
        proof {
            lemma_table_entries(*columns);
            lemma_pairs_differ(columns.listing());
            assert(texts(start.colrows@) + rows.take(0) =~= texts(start.colrows@));
            assert(all.take(0) =~= Seq::<Pair>::empty());
        }
        let mut k: usize = 0;
        while k < pairs.len()
            invariant
                k <= pairs@.len(),
                pair_views(pairs@) == all,
                all.no_duplicates(),
                rows == query.column_rows(all, sizes.map()),
                sizes.wf(),
                start.wf(),
                start.fired < usize::MAX,
                *self == (WorkloadLog { colrows: self.colrows, touch: self.touch, ..start }),
                self.touch.wf(),
                self.touch.map() == touched(start.touch.map(), all.take(k as int)),
                texts(self.colrows@) == texts(start.colrows@) + rows.take(k as int),
            decreases pairs@.len() - k,
        {
            let table: &str = pairs[k].table.as_str();
            let column: &str = pairs[k].column.as_str();
            let ghost pair = (table@, column@);
            let ghost before = self.colrows@;
            proof {
                assert(all[k as int] == pair);
                assert(all.take(k as int).no_duplicates());
                lemma_touched_once(start.touch.map(), all.take(k as int), pair);
                assert(!all.take(k as int).contains(pair)) by {
                    if all.take(k as int).contains(pair) {
                        let i = choose|i: int|
                            0 <= i < k && all.take(k as int)[i] == pair;
                        assert(all[i] == all[k as int]);
                    }
                }
            }
            let size: u64 = sizes.get(table, column);
            self.colrows.push(query.to_column_row(table, column, size));
            let _fits: bool = self.touch.add(table, column, 1);
            proof {
                assert(_fits);
                assert(all.take(k + 1).drop_last() =~= all.take(k as int));
                assert(all.take(k + 1).last() == pair);
                assert(rows[k as int] == query.column_row(pair, size as nat));
                assert(texts(self.colrows@) =~= texts(before).push(rows[k as int]));
                assert(rows.take(k + 1) =~= rows.take(k as int).push(rows[k as int]));
                assert(texts(self.colrows@) =~= texts(start.colrows@) + rows.take(k + 1));
            }
            k += 1;
        }
        proof {
            assert(all.take(k as int) =~= all);
            assert(rows.take(k as int) =~= rows);
        }
    }
}

/// How a workload is to be run. The intervals are kept as they were written.
#[derive(Debug)]
pub struct WorkloadConfig {
    /// How the tables are spread over files.
    pub variant: Variant,
    /// The average number of seconds between two queries, if it was given.
    pub avg_interval: Option<String>,
    /// The number of seconds for which queries are fired, if it was given.
    pub duration: Option<String>,
    /// What the distribution of the queries is called.
    pub dist: String,
    /// How the queries arrive.
    pub arrival: String,
    /// The seed of the sampler.
    pub seed: u64,
}

impl WorkloadConfig {
    /// Whether the gaps between queries are drawn at random; they are all the same
    /// otherwise.
    pub fn random_gaps(&self) -> (random: bool)
        ensures
            random == (self.arrival@ == "poisson"@),
    {
        same_text(self.arrival.as_str(), "poisson")
    }

    /// What a workload is called in file names.
    pub open spec fn tag_of(self, name: Seq<char>, storage: Storage) -> Seq<char> {
        name + "-"@ + self.variant.letter() + "-"@ + storage.label() + "-"@ + self.dist@
    }

    /// What a workload is called in file names.
    pub fn tag(&self, name: &str, storage: &Storage) -> (tag: String)
        ensures
            tag@ == self.tag_of(name@, *storage),
    {
        let mut tag: String = String::from_str(name);
        tag.append("-");
        tag.append(self.variant.name().as_str());
        tag.append("-");
        tag.append(storage.backend().as_str());
        tag.append("-");
        tag.append(self.dist.as_str());
        tag
    }

    /// What is said before a workload. `avg_interval` and `duration` are the
    /// seconds that hold.
    pub fn opening(&self, name: &str, storage: &Storage, avg_interval: &str, duration: &str) -> (text:
        String)
        ensures
            text@ == "workload: "@ + name@ + " variant="@ + self.variant.letter() + " backend="@
                + storage.label() + " dist="@ + self.dist@ + " arrivals="@ + self.arrival@
                + " avg every "@ + avg_interval@ + "s for "@ + duration@ + "s seed="@ + decimal(
                self.seed as nat,
            ),
    {
        let mut text: String = String::from_str("workload: ");
        text.append(name);
        text.append(" variant=");
        text.append(self.variant.name().as_str());
        text.append(" backend=");
        text.append(storage.backend().as_str());
        text.append(" dist=");
        text.append(self.dist.as_str());
        text.append(" arrivals=");
        text.append(self.arrival.as_str());
        text.append(" avg every ");
        text.append(avg_interval);
        text.append("s for ");
        text.append(duration);
        text.append("s seed=");
        text.append(to_decimal(self.seed as u128).as_str());
        text
    }
}

/// The file that the event log is written to.
pub open spec fn events_path(tag: Seq<char>) -> Seq<char> {
    "workload-events-"@ + tag + ".csv"@
}

/// The file that the column log is written to.
pub open spec fn columns_path(tag: Seq<char>) -> Seq<char> {
    "workload-columns-"@ + tag + ".csv"@
}

/// The file that the event log is written to.
pub fn events_file(tag: &str) -> (path: String)
    ensures
        path@ == events_path(tag@),
{
    let mut path: String = String::from_str("workload-events-");
    path.append(tag);
    path.append(".csv");
    path
}

/// The file that the column log is written to.
pub fn columns_file(tag: &str) -> (path: String)
    ensures
        path@ == columns_path(tag@),
{
    let mut path: String = String::from_str("workload-columns-");
    path.append(tag);
    path.append(".csv");
    path
}

/// What is said at the end of a workload.
pub fn written(tag: &str) -> (text: String)
    ensures
        text@ == "\nwrote "@ + events_path(tag@) + " and "@ + columns_path(tag@)
            + "\nnext: python3 workload_report.py "@ + tag@,
{
    let mut text: String = String::from_str("\nwrote ");
    text.append(events_file(tag).as_str());
    text.append(" and ");
    text.append(columns_file(tag).as_str());
    text.append("\nnext: python3 workload_report.py ");
    text.append(tag);
    text
}

impl FiredQuery {
    /// What is said of a query that was run. `seconds` is when it was started;
    /// `columns` is how many columns it reads.
    pub fn progress(&self, seconds: &str, columns: usize) -> (text: String)
        requires
            self.gets() <= u64::MAX,
        ensures
            text@ == "  t="@ + at_right(seconds@, 6) + "s Q"@ + at_left(
                decimal(self.number as nat),
                3,
            ) + " "@ + at_right(self.latency@, 8) + "ms "@ + at_right(decimal(self.gets()), 5)
                + " GETs "@ + at_right(decimal(self.counted.bytes_read as nat), 11) + " B  cols="@
                + decimal(columns as nat),
    {
        let mut text: String = String::from_str("  t=");
        text.append(pad_left(seconds, 6).as_str());
        text.append("s Q");
        text.append(pad_right(to_decimal(self.number as u128).as_str(), 3).as_str());
        text.append(" ");
        text.append(pad_left(self.latency.as_str(), 8).as_str());
        text.append("ms ");
        text.append(pad_left(to_decimal(self.counted.total_gets() as u128).as_str(), 5).as_str());
        text.append(" GETs ");
        text.append(pad_left(to_decimal(self.counted.bytes_read as u128).as_str(), 11).as_str());
        text.append(" B  cols=");
        text.append(to_decimal(columns as u128).as_str());
        text
    }
}

/// Latencies and sizes of a whole workload, written out.
#[derive(Debug)]
pub struct Figures {
    pub duration: String,
    pub p50: String,
    pub p95: String,
    pub max: String,
    pub mib: String,
}

/// The line of a column among those that most queries read.
pub open spec fn hot_row(entry: (Pair, nat)) -> Seq<char> {
    "  "@ + at_right(decimal(entry.1), 4) + "x  "@ + entry.0.0 + "."@ + entry.0.1
}

/// The line of a column among those that most queries read.
pub fn hot_line(entry: &PairCount) -> (text: String)
    ensures
        text@ == hot_row(entry.shown()),
{
    let mut text: String = String::from_str("  ");
    text.append(pad_left(to_decimal(entry.count as u128).as_str(), 4).as_str());
    text.append("x  ");
    text.append(entry.table.as_str());
    text.append(".");
    text.append(entry.column.as_str());
    text
}

/// What a log lists is how many queries read each column, in the order of the columns
/// and each once.
pub proof fn law_log_lists_what_was_read(log: WorkloadLog)
    requires
        log.wf(),
    ensures
        lists(log@.listed, log@.touch),
{
    law_entries_list_the_numbers(log.touch);
}

proof fn lemma_nothing_listed(counts: PairCounts)
    requires
        counts.map() == Map::<Pair, nat>::empty(),
    ensures
        shown(counts.listing()) == Seq::<(Pair, nat)>::empty(),
{
    if counts.listing().len() > 0 {
        assert(holds(counts.listing(), counts.listing()[0].key()));
        assert(counts.map().contains_key(counts.listing()[0].key()));
    }
    assert(shown(counts.listing()) =~= Seq::<(Pair, nat)>::empty());
}

impl WorkloadLog {
    /// What a workload came to.
    pub fn summary(&self, figures: &Figures) -> (text: String)
        ensures
            text@ == "\n"@ + decimal(self@.fired as nat) + " queries fired in "@ + figures.duration@
                + "s ("@ + decimal(self@.ok as nat) + " ok) | latency p50="@ + figures.p50@
                + "ms p95="@ + figures.p95@ + "ms max="@ + figures.max@ + "ms | total "@ + decimal(
                self@.total_gets as nat,
            ) + " GETs, "@ + figures.mib@ + " MiB read"@,
    {
        let mut text: String = String::from_str("\n");
        text.append(to_decimal(self.fired as u128).as_str());
        text.append(" queries fired in ");
        text.append(figures.duration.as_str());
        text.append("s (");
        text.append(to_decimal(self.ok as u128).as_str());
        text.append(" ok) | latency p50=");
        text.append(figures.p50.as_str());
        text.append("ms p95=");
        text.append(figures.p95.as_str());
        text.append("ms max=");
        text.append(figures.max.as_str());
        text.append("ms | total ");
        text.append(to_decimal(self.total_gets as u128).as_str());
        text.append(" GETs, ");
        text.append(figures.mib.as_str());
        text.append(" MiB read");
        text
    }

    /// The title and the lines of the ten columns that most queries read.
    pub fn hot_columns(&self) -> (lines: Vec<String>)
        ensures
            texts(lines@) == seq![
                "\nhottest columns (touches across "@ + decimal(self@.fired as nat)
                    + " queries):"@,
            ] + hot_rows(at_most_first(by_count(self@.listed), 10)),
    {
        let mut title: String = String::from_str("\nhottest columns (touches across ");
        title.append(to_decimal(self.fired as u128).as_str());
        title.append(" queries):");
        let mut lines: Vec<String> = Vec::new();
        lines.push(title);
        let ghost top = texts(lines@);
        let hot: Vec<PairCount> = self.touch.hottest(10);
        let ghost rows = hot_rows(shown(hot@));
        proof {
            assert(top + rows.take(0) =~= top);
            assert(top =~= seq![title@]);
        }
        for k in 0..hot.len()
            invariant
                rows == hot_rows(shown(hot@)),
                texts(lines@) == top + rows.take(k as int),
        {
            let ghost before = lines@;
            lines.push(hot_line(&hot[k]));
            proof {
                assert(texts(lines@) =~= texts(before).push(rows[k as int]));
                assert(texts(lines@) =~= top + rows.take(k + 1));
            }
        }
        proof {
            assert(rows.take(hot@.len() as int) =~= rows);
        }
        lines
    }
}

/// The lines of some columns.
pub open spec fn hot_rows(list: Seq<(Pair, nat)>) -> Seq<Seq<char>> {
    list.map_values(|e: (Pair, nat)| hot_row(e))
}

/// A query counts as many GET requests as it made: single ones, and each range of a batch.
pub proof fn law_gets_are_single_ones_and_ranges(query: FiredQuery)
    ensures
        query.gets() == query.counted.get_requests + query.counted.get_ranges_ranges,
{
}

/// The line of a query in the event log holds its values between commas, in the order of
/// the header.
pub proof fn law_event_row_holds_its_values(query: FiredQuery)
    requires
        !query.latency@.contains(','),
    ensures
        pieces(query.event_row(), ',') == seq![
            decimal(query.offset_ms as nat),
            decimal(query.number as nat),
            query.latency@,
            decimal((query.counted.get_requests + query.counted.get_ranges_ranges) as nat),
            decimal(query.counted.bytes_read as nat),
            if query.ok {
                "true"@
            } else {
                "false"@
            },
        ],
{
    let offset = decimal(query.offset_ms as nat);
    let number = decimal(query.number as nat);
    let gets = decimal(query.gets());
    let bytes = decimal(query.counted.bytes_read as nat);
    let ok = if query.ok {
        "true"@
    } else {
        "false"@
    };
    reveal_strlit(",");
    reveal_strlit("true");
    reveal_strlit("false");
    assert(","@ =~= seq![',']);
    lemma_decimal_has_no_comma(query.offset_ms as nat);
    lemma_decimal_has_no_comma(query.number as nat);
    lemma_decimal_has_no_comma(query.gets());
    lemma_decimal_has_no_comma(query.counted.bytes_read as nat);
    assert(!ok.contains(','));
    let last = ok;
    let fifth = bytes.push(',') + last;
    let fourth = gets.push(',') + fifth;
    let third = query.latency@.push(',') + fourth;
    let second = number.push(',') + third;
    assert(query.event_row() =~= offset.push(',') + second);
    law_uncut_text_is_one_piece(ok, ',');
    lemma_field_in_front(bytes, last);
    lemma_field_in_front(gets, fifth);
    lemma_field_in_front(query.latency@, fourth);
    lemma_field_in_front(number, third);
    lemma_field_in_front(offset, second);
    assert(pieces(query.event_row(), ',') =~= seq![
        offset,
        number,
        query.latency@,
        gets,
        bytes,
        ok,
    ]);
}

proof fn lemma_field_in_front(field: Seq<char>, rest: Seq<char>)
    requires
        !field.contains(','),
    ensures
        pieces(field.push(',') + rest, ',') == seq![field] + pieces(rest, ','),
{
    law_pieces_of_two(field, ',', rest);
    law_uncut_text_is_one_piece(field, ',');
}

proof fn lemma_decimal_has_no_comma(n: nat)
    ensures
        !decimal(n).contains(','),
    decreases n,
{
    if n >= 10 {
        lemma_decimal_has_no_comma(n / 10);
        if decimal(n).contains(',') {
            let i = choose|i: int| 0 <= i < decimal(n).len() && decimal(n)[i] == ',';
            if i < decimal(n / 10).len() {
                assert(decimal(n / 10)[i] == ',');
            }
        }
    }
}

/// There is a line in the column log for each column that a query reads, in their order;
/// it holds the time, the number of the query, the table, the column, and the size of the
/// column, or zero if that is not known.
pub proof fn law_column_rows_hold_their_values(
    query: FiredQuery,
    pairs: Seq<Pair>,
    sizes: Map<Pair, nat>,
    i: int,
)
    requires
        0 <= i < pairs.len(),
        !pairs[i].0.contains(','),
        !pairs[i].1.contains(','),
    ensures
        query.column_rows(pairs, sizes).len() == pairs.len(),
        pieces(query.column_rows(pairs, sizes)[i], ',') == seq![
            decimal(query.offset_ms as nat),
            decimal(query.number as nat),
            pairs[i].0,
            pairs[i].1,
            decimal(
                if sizes.contains_key(pairs[i]) {
                    sizes[pairs[i]]
                } else {
                    0
                },
            ),
        ],
{
    let offset = decimal(query.offset_ms as nat);
    let number = decimal(query.number as nat);
    let pair = pairs[i];
    let size = decimal(under(sizes, pair));
    reveal_strlit(",");
    assert(","@ =~= seq![',']);
    lemma_decimal_has_no_comma(query.offset_ms as nat);
    lemma_decimal_has_no_comma(query.number as nat);
    lemma_decimal_has_no_comma(under(sizes, pair));
    let fourth = pair.1.push(',') + size;
    let third = pair.0.push(',') + fourth;
    let second = number.push(',') + third;
    assert(query.column_rows(pairs, sizes)[i] =~= offset.push(',') + second);
    law_uncut_text_is_one_piece(size, ',');
    lemma_field_in_front(pair.1, size);
    lemma_field_in_front(pair.0, fourth);
    lemma_field_in_front(number, third);
    lemma_field_in_front(offset, second);
    assert(pieces(query.column_rows(pairs, sizes)[i], ',') =~= seq![
        offset,
        number,
        pair.0,
        pair.1,
        size,
    ]);
}

proof fn lemma_pairs_of_two(a: Seq<TableEntry>, b: Seq<TableEntry>)
    ensures
        pairs_of(a + b) == pairs_of(a) + pairs_of(b),
    decreases b.len(),
{
    if b.len() == 0 {
        assert(a + b =~= a);
        assert(pairs_of(a) + pairs_of(b) =~= pairs_of(a));
    } else {
        lemma_pairs_of_two(a, b.drop_last());
        assert((a + b).drop_last() =~= a + b.drop_last());
        assert((a + b).last() == b.last());
        assert(pairs_of(a + b) =~= pairs_of(a) + pairs_of(b));
    }
}

/// The columns of tables come table by table; those of one table are its own, in order.
pub proof fn law_pairs_come_table_by_table(a: Seq<TableEntry>, b: Seq<TableEntry>)
    ensures
        pairs_of(a + b) == pairs_of(a) + pairs_of(b),
        a.len() == 1 ==> pairs_of(a) == Seq::new(
            a[0].columns.listed().len(),
            |i: int| (a[0].table@, a[0].columns.listed()[i]),
        ),
{
    lemma_pairs_of_two(a, b);
    if a.len() == 1 {
        assert(a.drop_last() =~= Seq::<TableEntry>::empty());
        reveal_with_fuel(pairs_of, 2);
        assert(pairs_of(a) =~= Seq::new(
            a[0].columns.listed().len(),
            |i: int| (a[0].table@, a[0].columns.listed()[i]),
        ));
    }
}

/// A column that a query reads has been read by one query more, and one that it does not
/// read by as many as before.
pub proof fn law_read_columns_are_counted(
    m: Map<Pair, nat>,
    columns: TableColumns,
    table: Seq<char>,
    column: Seq<char>,
)
    requires
        columns.wf(),
    ensures
        ({
            let after = touched(m, pairs_of(columns.listing()));
            let read = columns.map().contains_key(table) && columns.map()[table].contains(column);
            let before = if m.contains_key((table, column)) {
                m[(table, column)]
            } else {
                0
            };
            &&& read ==> after.contains_key((table, column)) && after[(table, column)] == before + 1
            &&& !read && m.contains_key((table, column)) ==> after.contains_key((table, column))
                && after[(table, column)] == before
            &&& !read && !m.contains_key((table, column)) ==> !after.contains_key((table, column))
        }),
{
    let pair = (table, column);
    let entries = columns.listing();
    law_query_counts_once(m, columns, pair);
    lemma_table_entries(columns);
    lemma_pairs_differ(entries);
    lemma_touched_once(m, pairs_of(entries), pair);
}

/// A log takes in a query as long as its totals can hold what the query adds.
pub proof fn law_log_takes_in_what_fits(log: WorkloadLog, query: FiredQuery)
    ensures
        log.has_room(query) <==> {
            &&& log@.fired + 1 <= usize::MAX
            &&& log@.total_gets + query.counted.get_requests + query.counted.get_ranges_ranges
                <= u64::MAX
            &&& log@.total_bytes + query.counted.bytes_read <= u64::MAX
        },
{
}

/// The columns that most queries read are listed line by line: how many queries, the
/// table and the column.
pub proof fn law_hot_lines_name_their_columns(list: Seq<(Pair, nat)>, i: int)
    requires
        0 <= i < list.len(),
    ensures
        hot_rows(list).len() == list.len(),
        hot_rows(list)[i] == "  "@ + at_right(decimal(list[i].1), 4) + "x  "@ + list[i].0.0 + "."@
            + list[i].0.1,
{
}

/// The logs of a workload are written to two files, and those of another to others.
pub proof fn law_logs_have_their_own_files(a: Seq<char>, b: Seq<char>)
    ensures
        events_path(a) != columns_path(a),
        events_path(a) == events_path(b) ==> a == b,
        columns_path(a) == columns_path(b) ==> a == b,
{
    reveal_strlit("workload-events-");
    reveal_strlit("workload-columns-");
    reveal_strlit(".csv");
    let (events, columns) = ("workload-events-"@, "workload-columns-"@);
    assert(events_path(a)[9] == 'e');
    assert(columns_path(a)[9] == 'c');
    assert(events_path(a).len() == events.len() + a.len() + 4);
    assert(events_path(b).len() == events.len() + b.len() + 4);
    assert(columns_path(a).len() == columns.len() + a.len() + 4);
    assert(columns_path(b).len() == columns.len() + b.len() + 4);
    assert(events_path(a).skip(events.len() as int).take(a.len() as int) =~= a);
    assert(events_path(b).skip(events.len() as int).take(b.len() as int) =~= b);
    assert(columns_path(a).skip(columns.len() as int).take(a.len() as int) =~= a);
    assert(columns_path(b).skip(columns.len() as int).take(b.len() as int) =~= b);
}

/// The name of a workload begins with that of the suite and ends with the distribution of
/// its queries; between them stand the variant and the store.
pub proof fn law_tags_tell_workloads_apart(
    config: WorkloadConfig,
    name: Seq<char>,
    storage: Storage,
)
    requires
        !name.contains('-'),
    ensures
        pieces(config.tag_of(name, storage), '-') == seq![
            name,
            config.variant.letter(),
            if storage.s3 {
                "s3"@
            } else {
                "local"@
            },
        ] + pieces(config.dist@, '-'),
{
    reveal_strlit("-");
    reveal_strlit("a");
    reveal_strlit("b");
    reveal_strlit("c");
    reveal_strlit("s3");
    reveal_strlit("local");
    assert("-"@ =~= seq!['-']);
    let letter = config.variant.letter();
    let label = storage.label();
    assert(!letter.contains('-')) by {
        assert(letter.len() == 1);
        assert(letter[0] == 'a' || letter[0] == 'b' || letter[0] == 'c');
    }
    assert(!label.contains('-'));
    let third = label.push('-') + config.dist@;
    let second = letter.push('-') + third;
    assert(config.tag_of(name, storage) =~= name.push('-') + second);
    law_uncut_text_is_one_piece(name, '-');
    law_uncut_text_is_one_piece(letter, '-');
    law_uncut_text_is_one_piece(label, '-');
    law_pieces_of_two(name, '-', second);
    law_pieces_of_two(letter, '-', third);
    law_pieces_of_two(label, '-', config.dist@);
    assert(pieces(config.tag_of(name, storage), '-') =~= seq![name, letter, label] + pieces(
        config.dist@,
        '-',
    ));
}

} // verus!
