//! Which columns of which tables a query plan reads.

use crate::order::{
    ascending_texts, law_texts_are_totally_ordered, lemma_insert_in_order, rank_texts, text_less,
    Rank, TextSet,
};
use crate::text::texts;
use vstd::prelude::*;
use vstd::string::*;

verus! {

/// A table and some of its columns.
#[derive(Debug)]
pub struct TableEntry {
    pub table: String,
    pub columns: TextSet,
}

/// Columns by table, both in order.
#[derive(Debug)]
pub struct TableColumns {
    pub(crate) entries: Vec<TableEntry>,
}

/// The columns that `m` gives a table; none if it does not hold the table.
pub open spec fn columns_under(m: Map<Seq<char>, Set<Seq<char>>>, table: Seq<char>) -> Set<
    Seq<char>,
> {
    if m.contains_key(table) {
        m[table]
    } else {
        Set::empty()
    }
}

impl TableColumns {
    /// The tables with their columns, in order.
    pub open(crate) spec fn listing(self) -> Seq<TableEntry> {
        self.entries@
    }

    /// The tables in order.
    pub open spec fn tables(self) -> Seq<Seq<char>> {
        self.listing().map_values(|e: TableEntry| e.table@)
    }

    /// The tables are in order, each once, and so are the columns of each.
    pub open spec fn wf(self) -> bool {
        &&& ascending_texts(self.tables())
        &&& forall|i: int| 0 <= i < self.listing().len() ==> (#[trigger] self.listing()[i]).columns.wf()
    }

    /// The columns of each table.
    pub open spec fn map(self) -> Map<Seq<char>, Set<Seq<char>>> {
        Map::new(
            |t: Seq<char>| self.tables().contains(t),
            |t: Seq<char>| self.listing()[self.tables().index_of(t)].columns.set(),
        )
    }

    /// The tables with their columns, in order.
    pub fn entries(&self) -> (entries: &Vec<TableEntry>)
        ensures
            entries@ == self.listing(),
    {
        &self.entries
    }

    /// No tables.
    pub fn new() -> (empty: TableColumns)
        ensures
            empty.wf(),
            empty.map() == Map::<Seq<char>, Set<Seq<char>>>::empty(),
    {
        let empty = TableColumns { entries: Vec::new() };
        proof {
            assert(empty.map() =~= Map::<Seq<char>, Set<Seq<char>>>::empty());
        }
        empty
    }

    /// Where a table stands, after it was added without columns unless it was
    /// there.
    pub fn entry(&mut self, table: &str) -> (place: usize)
        requires
            old(self).wf(),
        ensures
            final(self).wf(),
            place < final(self).listing().len(),
            final(self).listing()[place as int].table@ == table@,
            final(self).map() == old(self).map().insert(table@, columns_under(old(self).map(), table@)),
    {
        let ghost list = self.tables();
        let mut p: usize = 0;
        while p < self.entries.len() && rank_texts(self.entries[p].table.as_str(), table)
            == Rank::Before
            invariant
                list == self.tables(),
                p <= self.listing().len(),
                forall|i: int| 0 <= i < p ==> text_less(#[trigger] list[i], table@),
            decreases self.listing().len() - p,
        {
            proof {
                assert(list[p as int] == self.listing()[p as int].table@);
            }
            p += 1;
        }
        if p < self.entries.len() && rank_texts(self.entries[p].table.as_str(), table) == Rank::Same {
            proof {
                assert(list[p as int] == self.listing()[p as int].table@);
                assert(self.map() =~= old(self).map().insert(
                    table@,
                    columns_under(old(self).map(), table@),
                ));
            }
            return p;
        }
        self.entries.insert(p, TableEntry { table: table.to_owned(), columns: TextSet::new() });
        proof {
            assert(self.tables() =~= list.insert(p as int, table@));
            lemma_new_table(*old(self), *self, p as int);
        }
        p
    }

    /// Adds a column to the table at `place`.
    pub fn insert_column(&mut self, place: usize, column: &str)
        requires
            old(self).wf(),
            place < old(self).listing().len(),
        ensures
            final(self).wf(),
            final(self).tables() == old(self).tables(),
            final(self).map() == old(self).map().insert(
                old(self).tables()[place as int],
                columns_under(old(self).map(), old(self).tables()[place as int]).insert(column@),
            ),
    {
        self.entries[place].columns.insert(column);
        proof {
            assert(self.tables() =~= old(self).tables());
            let list = self.tables();
            let table = list[place as int];
            lemma_place_of(list, place as int);
            assert forall|t: Seq<char>| self.map().contains_key(t) implies self.map()[t] == old(
                self,
            ).map().insert(table, columns_under(old(self).map(), table).insert(column@))[t] by {
                lemma_place_of(list, list.index_of(t));
            }
            assert(self.map() =~= old(self).map().insert(
                table,
                columns_under(old(self).map(), table).insert(column@),
            ));
        }
    }

    /// How many columns there are in all tables together.
    pub open spec fn total(self) -> nat {
        total_columns(self.listing())
    }

    /// How many columns there are in all tables together; `None` if that does
    /// not fit.
    pub fn count(&self) -> (total: Option<usize>)
        requires
            self.wf(),
        ensures
            total is Some <==> self.total() <= usize::MAX,
            total matches Some(n) ==> n == self.total(),
    {
        let mut total: usize = 0;
        let mut i: usize = 0;
        while i < self.entries.len()
            invariant
                self.wf(),
                i <= self.listing().len(),
                total == total_columns(self.listing().take(i as int)),
            decreases self.listing().len() - i,
        {
            let more: usize = self.entries[i].columns.len();
            proof {
                lemma_total_grows(self.listing(), (i + 1) as int);
                assert(self.listing().take((i + 1) as int).drop_last() =~= self.listing().take(
                    i as int,
                ));
                assert(self.listing().take((i + 1) as int).last() == self.listing()[i as int]);
            }
            match total.checked_add(more) {
                Some(sum) => {
                    total = sum;
                },
                None => {
                    return None;
                },
            }
            i += 1;
        }
        proof {
            assert(self.listing().take(i as int) =~= self.listing());
        }
        Some(total)
    }
}

/// The columns of all entries, counted.
pub open spec fn total_columns(entries: Seq<TableEntry>) -> nat
    decreases entries.len(),
{
    if entries.len() == 0 {
        0
    } else {
        total_columns(entries.drop_last()) + entries.last().columns.set().len()
    }
}

proof fn lemma_total_grows(entries: Seq<TableEntry>, k: int)
    requires
        0 <= k <= entries.len(),
    ensures
        total_columns(entries.take(k)) <= total_columns(entries),
    decreases entries.len() - k,
{
    if k < entries.len() {
        lemma_total_grows(entries, k + 1);
        assert(entries.take(k + 1).drop_last() =~= entries.take(k));
    } else {
        assert(entries.take(k) =~= entries);
    }
}

/// In an ordered list a text stands in one place only.
pub proof fn lemma_place_of(list: Seq<Seq<char>>, i: int)
    requires
        ascending_texts(list),
        0 <= i < list.len(),
    ensures
        list.contains(list[i]),
        list.index_of(list[i]) == i,
{
    let j = list.index_of(list[i]);
    assert(list.contains(list[i]));
    assert(0 <= j < list.len() && list[j] == list[i]);
    law_texts_are_totally_ordered(list[i], list[i], list[i]);
    if i < j {
        assert(text_less(list[i], list[j]));
    }
    if j < i {
        assert(text_less(list[j], list[i]));
    }
}

/// A table put where it belongs, without columns, is all that is added.
proof fn lemma_new_table(before: TableColumns, after: TableColumns, p: int)
    requires
        before.wf(),
        0 <= p <= before.listing().len(),
        after.listing() == before.listing().insert(p, after.listing()[p]),
        after.listing()[p].columns.wf(),
        after.listing()[p].columns.set() == Set::<Seq<char>>::empty(),
        forall|i: int| 0 <= i < p ==> text_less(#[trigger] before.tables()[i], after.listing()[p].table@),
        p < before.listing().len() ==> before.tables()[p] != after.listing()[p].table@ && !text_less(
            before.tables()[p],
            after.listing()[p].table@,
        ),
    ensures
        after.wf(),
        after.map() == before.map().insert(
            after.listing()[p].table@,
            columns_under(before.map(), after.listing()[p].table@),
        ),
{
    let list = before.tables();
    let table = after.listing()[p].table@;
    lemma_insert_in_order(list, table, p);
    let longer = after.tables();
    assert(longer =~= list.insert(p, table));
    assert forall|i: int| 0 <= i < after.listing().len() implies (
    #[trigger] after.listing()[i]).columns.wf() by {
        if i < p {
            assert(after.listing()[i] == before.listing()[i]);
        } else if i > p {
            assert(after.listing()[i] == before.listing()[i - 1]);
        }
    }
    lemma_place_of(longer, p);
    assert(!list.contains(table)) by {
        if list.contains(table) {
            let i = list.index_of(table);
            assert(0 <= i < list.len() && list[i] == table);
            law_texts_are_totally_ordered(table, table, table);
            if i > p {
                law_texts_are_totally_ordered(table, list[p], table);
                assert(text_less(list[p], list[i]));
            }
        }
    }
    let expected = before.map().insert(table, Set::empty());
    assert forall|t: Seq<char>| after.map().contains_key(t) <==> expected.contains_key(t) by {
        assert(longer.to_set().contains(t) <==> list.to_set().insert(table).contains(t));
    }
    assert forall|t: Seq<char>| after.map().contains_key(t) implies after.map()[t] == expected[t] by {
        if t != table {
            let i = longer.index_of(t);
            assert(0 <= i < longer.len() && longer[i] == t);
            let k = if i < p {
                i
            } else {
                i - 1
            };
            assert(list[k] == t);
            lemma_place_of(list, k);
            assert(after.listing()[i] == before.listing()[k]);
        }
    }
    assert(after.map() =~= expected);
}

/// A table that a plan scans, and the columns that the scan yields.
#[derive(Debug)]
pub struct TableScan {
    pub table: String,
    pub columns: Vec<String>,
}

/// What the library reads of a logical plan: the scan that a node is, if it is
/// one, and the plans that feed it.
#[derive(Debug)]
pub struct PlanNode {
    pub scan: Option<TableScan>,
    pub inputs: Vec<PlanNode>,
}

/// Some scan in the plan is of the table.
pub open spec fn scans_table(plan: PlanNode, table: Seq<char>) -> bool
    decreases plan,
{
    ||| plan.scan matches Some(s) && s.table@ == table
    ||| exists|i: int|
        0 <= i < plan.inputs@.len() && scans_table(#[trigger] plan.inputs@[i], table)
}

/// Some scan of the table in the plan yields the column.
pub open spec fn reads_column(plan: PlanNode, table: Seq<char>, column: Seq<char>) -> bool
    decreases plan,
{
    ||| plan.scan matches Some(s) && s.table@ == table && texts(s.columns@).contains(
        column,
    )
    ||| exists|i: int|
        0 <= i < plan.inputs@.len() && reads_column(#[trigger] plan.inputs@[i], table, column)
}

/// `m` and what the plan reads.
pub open spec fn with_plan(m: Map<Seq<char>, Set<Seq<char>>>, plan: PlanNode) -> Map<
    Seq<char>,
    Set<Seq<char>>,
> {
    Map::new(
        |t: Seq<char>| m.contains_key(t) || scans_table(plan, t),
        |t: Seq<char>|
            columns_under(m, t).union(Set::new(|c: Seq<char>| reads_column(plan, t, c))),
    )
}

/// Adds the tables that a plan scans, with the columns that the scans yield.
pub fn plan_columns(plan: &PlanNode, out: &mut TableColumns)
    requires
        old(out).wf(),
    ensures
        final(out).wf(),
        final(out).map() == with_plan(old(out).map(), *plan),
    decreases plan,
{
    let ghost start = out.map();
    if let Some(scan) = &plan.scan {
        add_scan(scan, out);
    }
    let ghost scanned = out.map();
    let mut k: usize = 0;
    proof {
        assert(scanned == with_scan(start, plan.scan));
        let none = with_inputs(scanned, plan.inputs@.take(0));
        assert forall|t: Seq<char>| scanned.contains_key(t) implies none[t] == scanned[t] by {
            assert(none[t] =~= scanned[t]);
        }
        assert(none =~= scanned);
    }
    while k < plan.inputs.len()
        invariant
            k <= plan.inputs@.len(),
            out.wf(),
            out.map() == with_inputs(scanned, plan.inputs@.take(k as int)),
        decreases plan.inputs@.len() - k,
    {
        plan_columns(&plan.inputs[k], out);
        proof {
            lemma_one_more_input(scanned, plan.inputs@, k as int);
        }
        k += 1;
    }
    proof {
        assert(plan.inputs@.take(k as int) =~= plan.inputs@);
        lemma_scan_and_inputs(start, *plan);
    }
}

/// `m` and what one scan yields.
spec fn with_scan(m: Map<Seq<char>, Set<Seq<char>>>, scan: Option<TableScan>) -> Map<
    Seq<char>,
    Set<Seq<char>>,
> {
    match scan {
        Some(s) => m.insert(
            s.table@,
            columns_under(m, s.table@).union(texts(s.columns@).to_set()),
        ),
        None => m,
    }
}

/// `m` and what the plans read.
spec fn with_inputs(m: Map<Seq<char>, Set<Seq<char>>>, plans: Seq<PlanNode>) -> Map<
    Seq<char>,
    Set<Seq<char>>,
> {
    Map::new(
        |t: Seq<char>|
            m.contains_key(t) || exists|i: int|
                0 <= i < plans.len() && scans_table(#[trigger] plans[i], t),
        |t: Seq<char>|
            columns_under(m, t).union(
                Set::new(
                    |c: Seq<char>|
                        exists|i: int|
                            0 <= i < plans.len() && reads_column(#[trigger] plans[i], t, c),
                ),
            ),
    )
}

/// Who reads a column of a table scans the table.
pub proof fn lemma_read_is_scanned(plan: PlanNode, table: Seq<char>, column: Seq<char>)
    requires
        reads_column(plan, table, column),
    ensures
        scans_table(plan, table),
    decreases plan,
{
    if !(plan.scan matches Some(s) && s.table@ == table) {
        let i = choose|i: int|
            0 <= i < plan.inputs@.len() && reads_column(#[trigger] plan.inputs@[i], table, column);
        lemma_read_is_scanned(plan.inputs@[i], table, column);
    }
}

proof fn lemma_one_more_input(m: Map<Seq<char>, Set<Seq<char>>>, plans: Seq<PlanNode>, k: int)
    requires
        0 <= k < plans.len(),
    ensures
        with_plan(with_inputs(m, plans.take(k)), plans[k]) == with_inputs(m, plans.take(k + 1)),
{
    let before = plans.take(k);
    let after = plans.take(k + 1);
    let left = with_plan(with_inputs(m, before), plans[k]);
    let right = with_inputs(m, after);
    assert(after[k] == plans[k]);
    assert forall|i: int| 0 <= i < k implies before[i] == after[i] by {}
    assert forall|t: Seq<char>| left.contains_key(t) <==> right.contains_key(t) by {
        if exists|i: int| 0 <= i < before.len() && scans_table(#[trigger] before[i], t) {
            let i = choose|i: int| 0 <= i < before.len() && scans_table(#[trigger] before[i], t);
            assert(scans_table(after[i], t));
        }
        if exists|i: int| 0 <= i < after.len() && scans_table(#[trigger] after[i], t) {
            let i = choose|i: int| 0 <= i < after.len() && scans_table(#[trigger] after[i], t);
            if i < k {
                assert(scans_table(before[i], t));
            }
        }
        if scans_table(plans[k], t) {
            assert(scans_table(after[k], t));
        }
    }
    assert forall|t: Seq<char>| left.contains_key(t) implies left[t] == right[t] by {
        assert forall|c: Seq<char>| left[t].contains(c) <==> right[t].contains(c) by {
            if exists|i: int| 0 <= i < before.len() && reads_column(#[trigger] before[i], t, c) {
                let i = choose|i: int|
                    0 <= i < before.len() && reads_column(#[trigger] before[i], t, c);
                lemma_read_is_scanned(before[i], t, c);
                assert(reads_column(after[i], t, c));
            }
            if exists|i: int| 0 <= i < after.len() && reads_column(#[trigger] after[i], t, c) {
                let i = choose|i: int| 0 <= i < after.len() && reads_column(#[trigger] after[i], t, c);
                lemma_read_is_scanned(after[i], t, c);
                if i < k {
                    assert(reads_column(before[i], t, c));
                    assert(scans_table(before[i], t));
                }
            }
            if reads_column(plans[k], t, c) {
                assert(reads_column(after[k], t, c));
            }
        }
        assert(left[t] =~= right[t]);
    }
    assert(left =~= right);
}

proof fn lemma_scan_and_inputs(m: Map<Seq<char>, Set<Seq<char>>>, plan: PlanNode)
    ensures
        with_inputs(with_scan(m, plan.scan), plan.inputs@) == with_plan(m, plan),
{
    let scanned = with_scan(m, plan.scan);
    let left = with_inputs(scanned, plan.inputs@);
    let right = with_plan(m, plan);
    assert forall|t: Seq<char>| left.contains_key(t) <==> right.contains_key(t) by {}
    assert forall|t: Seq<char>| left.contains_key(t) implies left[t] == right[t] by {
        assert(left[t] =~= right[t]);
    }
    assert(left =~= right);
}

/// Adds one scan.
fn add_scan(scan: &TableScan, out: &mut TableColumns)
    requires
        old(out).wf(),
    ensures
        final(out).wf(),
        final(out).map() == with_scan(old(out).map(), Some(*scan)),
{
    let ghost start = out.map();
    let ghost table = scan.table@;
    let ghost names = texts(scan.columns@);
    let place: usize = out.entry(scan.table.as_str());
    let mut k: usize = 0;
    proof {
        assert(names.take(0).to_set() =~= Set::<Seq<char>>::empty());
        assert(out.tables()[place as int] == table);
        assert(columns_under(start, table).union(names.take(0).to_set()) =~= columns_under(
            start,
            table,
        ));
    }
    while k < scan.columns.len()
        invariant
            k <= scan.columns@.len(),
            out.wf(),
            place < out.listing().len(),
            out.tables()[place as int] == table,
            names == texts(scan.columns@),
            out.map() == start.insert(
                table,
                columns_under(start, table).union(names.take(k as int).to_set()),
            ),
        decreases scan.columns@.len() - k,
    {
        out.insert_column(place, scan.columns[k].as_str());
        proof {
            let before = columns_under(start, table).union(names.take(k as int).to_set());
            let shorter = names.take(k as int);
            let longer = names.take(k + 1);
            assert(longer =~= shorter.push(names[k as int]));
            assert forall|c: Seq<char>| longer.contains(c) <==> shorter.contains(c) || c
                == names[k as int] by {
                if shorter.contains(c) {
                    let i = choose|i: int| 0 <= i < shorter.len() && shorter[i] == c;
                    assert(longer[i] == c);
                }
                assert(longer[k as int] == names[k as int]);
            }
            assert(before.insert(names[k as int]) =~= columns_under(start, table).union(
                longer.to_set(),
            ));
            assert(out.map() =~= start.insert(
                table,
                columns_under(start, table).union(longer.to_set()),
            ));
        }
        k += 1;
    }
    proof {
        assert(names.take(k as int) =~= names);
    }
}

/// Plans add up: in which order they are walked, and how often, makes no
/// difference to the columns that are found.
pub proof fn law_plans_add_up(m: Map<Seq<char>, Set<Seq<char>>>, p: PlanNode, q: PlanNode)
    ensures
        with_plan(with_plan(m, p), q) == with_plan(with_plan(m, q), p),
        with_plan(with_plan(m, p), p) == with_plan(m, p),
{
    let left = with_plan(with_plan(m, p), q);
    let right = with_plan(with_plan(m, q), p);
    let once = with_plan(m, p);
    let twice = with_plan(once, p);
    assert forall|t: Seq<char>| left.contains_key(t) implies left[t] == right[t] by {
        assert forall|c: Seq<char>| left[t].contains(c) <==> right[t].contains(c) by {
            if reads_column(p, t, c) {
                lemma_read_is_scanned(p, t, c);
            }
            if reads_column(q, t, c) {
                lemma_read_is_scanned(q, t, c);
            }
        }
        assert(left[t] =~= right[t]);
    }
    assert(left =~= right);
    assert forall|t: Seq<char>| once.contains_key(t) implies once[t] == twice[t] by {
        assert(once[t] =~= twice[t]);
    }
    assert(once =~= twice);
}

/// A plan reads what its own scan yields and what its inputs read, all of them, and
/// nothing else.
pub proof fn law_plan_reads_its_scan_and_its_inputs(
    m: Map<Seq<char>, Set<Seq<char>>>,
    plan: PlanNode,
    table: Seq<char>,
    column: Seq<char>,
)
    ensures
        columns_under(with_plan(m, plan), table).contains(column) <==> {
            ||| m.contains_key(table) && m[table].contains(column)
            ||| plan.scan matches Some(s) && s.table@ == table && exists|k: int|
                0 <= k < s.columns@.len() && (#[trigger] s.columns@[k])@ == column
            ||| exists|i: int|
                0 <= i < plan.inputs@.len() && columns_under(
                    with_plan(Map::empty(), #[trigger] plan.inputs@[i]),
                    table,
                ).contains(column)
        },
        with_plan(m, plan).contains_key(table) <==> {
            ||| m.contains_key(table)
            ||| plan.scan matches Some(s) && s.table@ == table
            ||| exists|i: int|
                0 <= i < plan.inputs@.len() && with_plan(
                    Map::empty(),
                    #[trigger] plan.inputs@[i],
                ).contains_key(table)
        },
{
    let inputs = plan.inputs@;
    if reads_column(plan, table, column) {
        lemma_read_is_scanned(plan, table, column);
    }
    assert forall|i: int| 0 <= i < inputs.len() implies (columns_under(
        with_plan(Map::empty(), #[trigger] inputs[i]),
        table,
    ).contains(column) <==> reads_column(inputs[i], table, column)) by {
        if reads_column(inputs[i], table, column) {
            lemma_read_is_scanned(inputs[i], table, column);
        }
    }
    if let Some(s) = plan.scan {
        if texts(s.columns@).contains(column) {
            let k = choose|k: int| 0 <= k < s.columns@.len() && texts(s.columns@)[k] == column;
            assert(s.columns@[k]@ == column);
        }
        assert forall|k: int| 0 <= k < s.columns@.len() && (#[trigger] s.columns@[k])@
            == column implies texts(s.columns@).contains(column) by {
            assert(texts(s.columns@)[k] == column);
        }
    }
    if exists|i: int| 0 <= i < inputs.len() && reads_column(#[trigger] inputs[i], table, column) {
        let i = choose|i: int|
            0 <= i < inputs.len() && reads_column(#[trigger] inputs[i], table, column);
        assert(columns_under(with_plan(Map::empty(), inputs[i]), table).contains(column));
    }
    if exists|i: int|
        0 <= i < inputs.len() && columns_under(
            with_plan(Map::empty(), #[trigger] inputs[i]),
            table,
        ).contains(column) {
        let i = choose|i: int|
            0 <= i < inputs.len() && columns_under(
                with_plan(Map::empty(), #[trigger] inputs[i]),
                table,
            ).contains(column);
        assert(reads_column(inputs[i], table, column));
    }
    if exists|i: int| 0 <= i < inputs.len() && scans_table(#[trigger] inputs[i], table) {
        let i = choose|i: int| 0 <= i < inputs.len() && scans_table(#[trigger] inputs[i], table);
        assert(with_plan(Map::empty(), inputs[i]).contains_key(table));
    }
    if exists|i: int|
        0 <= i < inputs.len() && with_plan(Map::empty(), #[trigger] inputs[i]).contains_key(
            table,
        ) {
        let i = choose|i: int|
            0 <= i < inputs.len() && with_plan(Map::empty(), #[trigger] inputs[i]).contains_key(
                table,
            );
        assert(scans_table(inputs[i], table));
    }
}

proof fn lemma_total_is_sum(entries: Seq<TableEntry>)
    ensures
        total_columns(entries) == entries.fold_left(
            0nat,
            |sum: nat, entry: TableEntry| sum + entry.columns.set().len(),
        ),
    decreases entries.len(),
{
    if entries.len() > 0 {
        lemma_total_is_sum(entries.drop_last());
    }
}

/// The columns of all tables are counted, each table with its own.
pub proof fn law_total_counts_each_table(columns: TableColumns)
    ensures
        columns.total() == columns.listing().fold_left(
            0nat,
            |sum: nat, entry: TableEntry| sum + entry.columns.set().len(),
        ),
{
    lemma_total_is_sum(columns.listing());
}

/// The table that is listed at a place has the columns that are listed with it, and all
/// tables are listed.
pub proof fn law_tables_are_listed_with_their_columns(columns: TableColumns, i: int)
    requires
        columns.wf(),
        0 <= i < columns.listing().len(),
    ensures
        columns.map().contains_key(columns.listing()[i].table@),
        columns.map()[columns.listing()[i].table@] == columns.listing()[i].columns.set(),
        forall|j: int|
            i < j < columns.listing().len() ==> text_less(
                columns.listing()[i].table@,
                (#[trigger] columns.listing()[j]).table@,
            ),
        forall|table: Seq<char>| #[trigger]
            columns.map().contains_key(table) ==> exists|k: int|
                0 <= k < columns.listing().len() && (#[trigger] columns.listing()[k]).table@
                    == table,
{
    let tables = columns.tables();
    assert(tables[i] == columns.listing()[i].table@);
    lemma_place_of(tables, i);
    assert forall|j: int| i < j < columns.listing().len() implies text_less(
        columns.listing()[i].table@,
        (#[trigger] columns.listing()[j]).table@,
    ) by {
        assert(text_less(tables[i], tables[j]));
    }
    assert forall|table: Seq<char>| #[trigger] columns.map().contains_key(table) implies exists|
        k: int,
    |
        0 <= k < columns.listing().len() && (#[trigger] columns.listing()[k]).table@ == table by {
        let k = choose|k: int| 0 <= k < tables.len() && tables[k] == table;
        assert(columns.listing()[k].table@ == table);
    }
}

} // verus!
