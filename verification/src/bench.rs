//! Running a benchmark suite: what is run, what is said of it, what is kept.

use crate::config::{BenchConfig, Query};
use crate::counting_store::StatsSnapshot;
use crate::storage::{Storage, Variant};
use crate::text::{
    at_left, at_right, decimal, first_line, first_line_of, law_written_numbers_are_read_back,
    pad_left, pad_right, signed_decimal, texts, to_decimal, to_signed_decimal,
};
use chrono::DateTime;
use datafusion::arrow::array::{Int64Array, StringArray, UInt32Array, UInt64Array};
use datafusion::error::DataFusionError;
use datafusion::prelude::DataFrame;
use std::sync::Arc;
use vstd::prelude::*;
use vstd::string::*;
use vstd::utf8::encode_utf8;

verus! {

/// The outcome of one run of one query.
#[derive(Debug)]
pub struct TestResult {
    pub test: String,
    pub query: usize,
    pub trial: u32,
    pub runtime: i64,
}

impl TestResult {
    /// An outcome.
    pub fn new(test: String, query: usize, trial: u32, runtime: i64) -> (result: TestResult)
        ensures
            result == (TestResult { test, query, trial, runtime }),
    {
        TestResult { test, query, trial, runtime }
    }
}

/// A moment: seconds since the start of 1970 UTC, and nanoseconds on top.
#[derive(Debug, Clone, Copy, PartialEq, Eq, Structural)]
pub struct Moment {
    pub seconds: i64,
    pub nanos: u32,
}

impl Moment {
    /// A moment that a calendar date can hold: in the years from -262143 to 262142,
    /// with more than a second of nanoseconds only in a leap second, which follows
    /// the last second of a minute.
    pub open spec fn on_calendar(self) -> bool {
        &&& -8_334_601_228_800 <= self.seconds <= 8_210_266_876_799
        &&& self.nanos < 1_000_000_000 || self.nanos < 2_000_000_000 && self.seconds as int % 60
            == 59
    }

    /// The seconds since midnight.
    pub open spec fn time_of_day(self) -> int {
        self.seconds as int % 86_400
    }
}

/// The leap second that is counted between two moments: one that the earlier time
/// of day lies in.
pub open spec fn leap_seconds(start: Moment, end: Moment) -> int {
    if start.time_of_day() < end.time_of_day() && start.nanos >= 1_000_000_000 {
        1
    } else if end.time_of_day() < start.time_of_day() && end.nanos >= 1_000_000_000 {
        -1
    } else {
        0
    }
}

/// The nanoseconds from one moment to another.
pub open spec fn nanoseconds(start: Moment, end: Moment) -> int {
    (end.seconds - start.seconds + leap_seconds(start, end)) * 1_000_000_000 + (end.nanos
        - start.nanos)
}

/// The whole milliseconds from one moment to another, negative if the other is
/// the earlier one.
pub open spec fn milliseconds(start: Moment, end: Moment) -> int {
    if nanoseconds(start, end) >= 0 {
        nanoseconds(start, end) / 1_000_000
    } else {
        -(-nanoseconds(start, end) / 1_000_000)
    }
}

/// `DateTime::from_timestamp` of both moments, the difference of the two and its
/// `TimeDelta::num_milliseconds`. There is a date for each moment on the calendar,
/// and for no other.
#[verifier::external_body]
fn difference(start: Moment, end: Moment) -> (ms: Option<i64>)
    ensures
        ms is Some <==> (start.on_calendar() && end.on_calendar()),
        ms matches Some(n) ==> n == milliseconds(start, end),
{
    let earlier = DateTime::from_timestamp(start.seconds, start.nanos)?;
    let later = DateTime::from_timestamp(end.seconds, end.nanos)?;
    Some((later - earlier).num_milliseconds())
}

/// The milliseconds that a query took; `None` if a moment is not on the calendar.
pub fn runtime(start: Moment, end: Moment) -> (ms: Option<i64>)
    ensures
        ms is Some <==> (start.on_calendar() && end.on_calendar()),
        ms matches Some(n) ==> n == milliseconds(start, end),
{
    difference(start, end)
}

/// A query that is due: its place in the list, and the trial, counted from zero.
#[derive(Debug, Clone, Copy, PartialEq, Eq, Structural)]
pub struct Step {
    pub trial: u32,
    pub query: usize,
}

/// The query is to be run.
pub open spec fn wanted(query: Query, subset: Option<Vec<usize>>) -> bool {
    match subset {
        Some(numbers) => numbers@.contains(query.number),
        None => true,
    }
}

/// The places of the first `k` queries that are to be run, in one trial.
pub open spec fn trial_steps(
    queries: Seq<Query>,
    subset: Option<Vec<usize>>,
    trial: u32,
    k: nat,
) -> Seq<Step>
    decreases k,
{
    if k == 0 {
        Seq::empty()
    } else {
        let front = trial_steps(queries, subset, trial, (k - 1) as nat);
        if wanted(queries[k - 1], subset) {
            front.push(Step { trial, query: (k - 1) as usize })
        } else {
            front
        }
    }
}

/// All that is run in the first `trials` trials.
pub open spec fn all_steps(queries: Seq<Query>, subset: Option<Vec<usize>>, trials: nat) -> Seq<Step>
    decreases trials,
{
    if trials == 0 {
        Seq::empty()
    } else {
        all_steps(queries, subset, (trials - 1) as nat) + trial_steps(
            queries,
            subset,
            (trials - 1) as u32,
            queries.len(),
        )
    }
}

/// Whether a query is to be run.
fn is_wanted(query: &Query, subset: &Option<Vec<usize>>) -> (run: bool)
    ensures
        run == wanted(*query, *subset),
{
    match subset {
        Some(numbers) => {
            let mut k: usize = 0;
            while k < numbers.len()
                invariant
                    *subset == Some(*numbers),
                    k <= numbers@.len(),
                    forall|i: int| 0 <= i < k ==> numbers@[i] != query.number,
                decreases numbers@.len() - k,
            {
                if numbers[k] == query.number {
                    proof {
                        assert(numbers@.contains(query.number));
                    }
                    return true;
                }
                k += 1;
            }
            false
        },
        None => true,
    }
}

/// What is run in each variant: trial by trial, each query that is wanted, in
/// order. The number of trials is cut down to 32 bits.
pub fn schedule(queries: &Vec<Query>, trials: usize, subset: &Option<Vec<usize>>) -> (steps: Vec<
    Step,
>)
    ensures
        steps@ == all_steps(queries@, *subset, (trials as u32) as nat),
{
    let count: u32 = trials as u32;
    let mut steps: Vec<Step> = Vec::new();
    let mut t: u32 = 0;
    while t < count
        invariant
            t <= count,
            steps@ == all_steps(queries@, *subset, t as nat),
        decreases count - t,
    {
        let ghost before = steps@;
        let mut k: usize = 0;
        proof {
            assert(before + trial_steps(queries@, *subset, t, 0) =~= before);
        }
        while k < queries.len()
            invariant
                k <= queries@.len(),
                steps@ == before + trial_steps(queries@, *subset, t, k as nat),
            decreases queries@.len() - k,
        {
            let ghost so_far = trial_steps(queries@, *subset, t, k as nat);
            if is_wanted(&queries[k], subset) {
                steps.push(Step { trial: t, query: k });
                proof {
                    assert(before + so_far.push(Step { trial: t, query: k }) =~= (before
                        + so_far).push(Step { trial: t, query: k }));
                }
            }
            k += 1;
        }
        t += 1;
    }
    steps
}

/// Every step is a query of the list that is wanted, in one of the trials.
pub proof fn law_steps_are_wanted(
    queries: Seq<Query>,
    subset: Option<Vec<usize>>,
    trials: nat,
    i: int,
)
    requires
        trials <= u32::MAX,
        queries.len() <= usize::MAX,
        0 <= i < all_steps(queries, subset, trials).len(),
    ensures
        ({
            let step = all_steps(queries, subset, trials)[i];
            step.trial < trials && step.query < queries.len() && wanted(
                queries[step.query as int],
                subset,
            )
        }),
    decreases trials,
{
    let front = all_steps(queries, subset, (trials - 1) as nat);
    if i < front.len() {
        law_steps_are_wanted(queries, subset, (trials - 1) as nat, i);
    } else {
        lemma_trial_steps(queries, subset, (trials - 1) as u32, queries.len(), i - front.len());
    }
}

proof fn lemma_trial_steps(
    queries: Seq<Query>,
    subset: Option<Vec<usize>>,
    trial: u32,
    k: nat,
    i: int,
)
    requires
        k <= queries.len() <= usize::MAX,
        0 <= i < trial_steps(queries, subset, trial, k).len(),
    ensures
        ({
            let step = trial_steps(queries, subset, trial, k)[i];
            step.trial == trial && step.query < k && wanted(queries[step.query as int], subset)
        }),
    decreases k,
{
    let front = trial_steps(queries, subset, trial, (k - 1) as nat);
    if i < front.len() {
        lemma_trial_steps(queries, subset, trial, (k - 1) as nat, i);
    }
}

/// Every wanted query is run in every trial.
pub proof fn law_wanted_queries_are_run(
    queries: Seq<Query>,
    subset: Option<Vec<usize>>,
    trials: nat,
    trial: u32,
    query: usize,
)
    requires
        trials <= u32::MAX,
        trial < trials,
        query < queries.len() <= usize::MAX,
        wanted(queries[query as int], subset),
    ensures
        all_steps(queries, subset, trials).contains(Step { trial, query }),
    decreases trials,
{
    let front = all_steps(queries, subset, (trials - 1) as nat);
    let back = trial_steps(queries, subset, (trials - 1) as u32, queries.len());
    let step = Step { trial, query };
    if trial < trials - 1 {
        law_wanted_queries_are_run(queries, subset, (trials - 1) as nat, trial, query);
        let i = choose|i: int| 0 <= i < front.len() && front[i] == step;
        assert((front + back)[i] == step);
    } else {
        lemma_trial_has(queries, subset, trial, queries.len(), query);
        let i = choose|i: int| 0 <= i < back.len() && back[i] == step;
        assert((front + back)[front.len() + i] == step);
    }
}

proof fn lemma_trial_has(
    queries: Seq<Query>,
    subset: Option<Vec<usize>>,
    trial: u32,
    k: nat,
    query: usize,
)
    requires
        query < k <= queries.len() <= usize::MAX,
        wanted(queries[query as int], subset),
    ensures
        trial_steps(queries, subset, trial, k).contains(Step { trial, query }),
    decreases k,
{
    let front = trial_steps(queries, subset, trial, (k - 1) as nat);
    let all = trial_steps(queries, subset, trial, k);
    let step = Step { trial, query };
    if query < k - 1 {
        lemma_trial_has(queries, subset, trial, (k - 1) as nat, query);
        let i = choose|i: int| 0 <= i < front.len() && front[i] == step;
        assert(all[i] == step);
    } else {
        assert(all[front.len() as int] == step);
    }
}

/// The place of the first query with a number.
pub open spec fn first_with(queries: Seq<Query>, number: usize) -> Option<nat>
    decreases queries.len(),
{
    if queries.len() == 0 {
        None
    } else {
        match first_with(queries.drop_last(), number) {
            Some(i) => Some(i),
            None => if queries.last().number == number {
                Some((queries.len() - 1) as nat)
            } else {
                None
            },
        }
    }
}

/// The place of the first query with a number.
pub fn find_query(queries: &Vec<Query>, number: usize) -> (place: Option<usize>)
    ensures
        place is Some <==> first_with(queries@, number) is Some,
        place is Some <==> exists|i: int|
            0 <= i < queries@.len() && (#[trigger] queries@[i]).number == number,
        place matches Some(i) ==> forall|j: int|
            0 <= j < i ==> (#[trigger] queries@[j]).number != number,
        place matches Some(i) ==> first_with(queries@, number) == Some(i as nat) && i
            < queries@.len() && queries@[i as int].number == number,
{
    let mut k: usize = 0;
    proof {
        assert(queries@.take(0) =~= Seq::<Query>::empty());
    }
    while k < queries.len()
        invariant
            k <= queries@.len(),
            first_with(queries@.take(k as int), number) is None,
            forall|j: int| 0 <= j < k ==> (#[trigger] queries@[j]).number != number,
        decreases queries@.len() - k,
    {
        proof {
            assert(queries@.take(k + 1).drop_last() =~= queries@.take(k as int));
        }
        if queries[k].number == number {
            proof {
                lemma_first_stays(queries@, number, k + 1);
            }
            return Some(k);
        }
        k += 1;
    }
    proof {
        assert(queries@.take(k as int) =~= queries@);
    }
    None
}

proof fn lemma_first_stays(queries: Seq<Query>, number: usize, k: int)
    requires
        0 <= k <= queries.len(),
        first_with(queries.take(k), number) is Some,
    ensures
        first_with(queries, number) == first_with(queries.take(k), number),
    decreases queries.len() - k,
{
    if k < queries.len() {
        assert(queries.take(k + 1).drop_last() =~= queries.take(k));
        lemma_first_stays(queries, number, k + 1);
    } else {
        assert(queries.take(k) =~= queries);
    }
}

/// What a run is called in messages.
pub open spec fn run_title(name: Seq<char>, variant: Variant, number: nat) -> Seq<char> {
    name + " Test "@ + variant.letter() + ", Q"@ + decimal(number)
}

/// What a run is called in messages, after a word.
fn title_after(word: &str, name: &str, variant: Variant, number: usize) -> (text: String)
    ensures
        text@ == word@ + run_title(name@, variant, number as nat),
{
    let mut text: String = String::from_str(word);
    text.append(name);
    text.append(" Test ");
    text.append(variant.name().as_str());
    text.append(", Q");
    text.append(to_decimal(number as u128).as_str());
    proof {
        assert(text@ =~= word@ + run_title(name@, variant, number as nat));
    }
    text
}

/// What is said before a run.
pub fn starting(name: &str, variant: Variant, number: usize, trial: u32) -> (text: String)
    requires
        trial < u32::MAX,
    ensures
        text@ == "Starting "@ + run_title(name@, variant, number as nat) + " (#"@ + decimal(
            trial as nat + 1,
        ) + ")..."@,
{
    let mut text: String = title_after("Starting ", name, variant, number);
    text.append(" (#");
    text.append(to_decimal((trial + 1) as u128).as_str());
    text.append(")...");
    text
}

/// What comes of a run.
#[derive(Debug)]
pub struct Conclusion {
    pub result: Option<TestResult>,
    pub message: String,
}

/// What comes of a run: of one that succeeded, a result; of one that failed, only
/// a message with the first line of the error.
pub fn conclude(
    name: &str,
    variant: Variant,
    number: usize,
    trial: u32,
    outcome: Result<i64, String>,
) -> (conclusion: Conclusion)
    ensures
        match outcome {
            Ok(ms) => {
                &&& conclusion.result matches Some(result)
                &&& result.test@ == variant.letter()
                &&& result.query == number
                &&& result.trial == trial
                &&& result.runtime == ms
                &&& conclusion.message@ == "Finished "@ + run_title(name@, variant, number as nat)
                    + ": took "@ + signed_decimal(ms as int) + "ms"@
            },
            Err(error) => {
                &&& conclusion.result is None
                &&& conclusion.message@ == "Skipped "@ + run_title(name@, variant, number as nat)
                    + ": unsupported ("@ + first_line_of(error@) + ")"@
            },
        },
{
    match outcome {
        Ok(ms) => {
            let mut message: String = title_after("Finished ", name, variant, number);
            message.append(": took ");
            message.append(to_signed_decimal(ms).as_str());
            message.append("ms");
            Conclusion {
                result: Some(TestResult::new(variant.name(), number, trial, ms)),
                message,
            }
        },
        Err(error) => {
            let mut message: String = title_after("Skipped ", name, variant, number);
            message.append(": unsupported (");
            message.append(first_line(error.as_str()).as_str());
            message.append(")");
            Conclusion { result: None, message }
        },
    }
}

/// The results, column by column.
#[derive(Debug)]
pub struct ResultColumns {
    pub tests: Vec<String>,
    pub queries: Vec<u64>,
    pub trials: Vec<u32>,
    pub runtimes: Vec<i64>,
}

/// The results, column by column.
pub fn result_columns(results: &Vec<TestResult>) -> (columns: ResultColumns)
    ensures
        texts(columns.tests@) == results@.map_values(|r: TestResult| r.test@),
        columns.queries@ == results@.map_values(|r: TestResult| r.query as u64),
        columns.trials@ == results@.map_values(|r: TestResult| r.trial),
        columns.runtimes@ == results@.map_values(|r: TestResult| r.runtime),
{
    let mut tests: Vec<String> = Vec::new();
    let mut queries: Vec<u64> = Vec::new();
    let mut trials: Vec<u32> = Vec::new();
    let mut runtimes: Vec<i64> = Vec::new();
    for k in 0..results.len()
        invariant
            tests@.len() == k,
            queries@.len() == k,
            trials@.len() == k,
            runtimes@.len() == k,
            forall|i: int| 0 <= i < k ==> (#[trigger] tests@[i])@ == results@[i].test@,
            forall|i: int| 0 <= i < k ==> #[trigger] queries@[i] == results@[i].query as u64,
            forall|i: int| 0 <= i < k ==> #[trigger] trials@[i] == results@[i].trial,
            forall|i: int| 0 <= i < k ==> #[trigger] runtimes@[i] == results@[i].runtime,
    {
        tests.push(String::from_str(results[k].test.as_str()));
        queries.push(results[k].query as u64);
        trials.push(results[k].trial);
        runtimes.push(results[k].runtime);
    }
    proof {
        assert(texts(tests@) =~= results@.map_values(|r: TestResult| r.test@));
        assert(queries@ =~= results@.map_values(|r: TestResult| r.query as u64));
        assert(trials@ =~= results@.map_values(|r: TestResult| r.trial));
        assert(runtimes@ =~= results@.map_values(|r: TestResult| r.runtime));
    }
    ResultColumns { tests, queries, trials, runtimes }
}

/// A table of the query engine. Opaque but for [`frame_columns`].
#[verifier::external_type_specification]
#[verifier::external_body]
pub struct ExDataFrame(DataFrame);

/// The values of a column.
pub enum ColumnValues {
    Texts(Seq<Seq<char>>),
    Unsigned64(Seq<u64>),
    Unsigned32(Seq<u32>),
    Signed64(Seq<i64>),
}

/// The columns of a table: the name and the values of each.
pub uninterp spec fn frame_columns(frame: DataFrame) -> Seq<(Seq<char>, ColumnValues)>;

/// The bytes that texts take up.
pub open spec fn bytes_of(list: Seq<Seq<char>>) -> nat
    decreases list.len(),
{
    if list.len() == 0 {
        0
    } else {
        bytes_of(list.drop_last()) + encode_utf8(list.last()).len()
    }
}

/// `DataFrame::from_columns` on one array of each kind: a table with these columns
/// in this order. It is made if the columns are equally long and no two of them
/// share a name. The texts must fit the offsets of an array of texts.
#[verifier::external_body]
fn from_columns(
    texts_column: (&str, Vec<String>),
    wide_column: (&str, Vec<u64>),
    narrow_column: (&str, Vec<u32>),
    signed_column: (&str, Vec<i64>),
) -> (frame: Result<DataFrame, DataFusionError>)
    requires
        bytes_of(texts(texts_column.1@)) <= i32::MAX,
    ensures
        frame matches Ok(f) ==> frame_columns(f) == seq![
            (texts_column.0@, ColumnValues::Texts(texts(texts_column.1@))),
            (wide_column.0@, ColumnValues::Unsigned64(wide_column.1@)),
            (narrow_column.0@, ColumnValues::Unsigned32(narrow_column.1@)),
            (signed_column.0@, ColumnValues::Signed64(signed_column.1@)),
        ],
        (texts_column.1@.len() == wide_column.1@.len() && wide_column.1@.len()
            == narrow_column.1@.len() && narrow_column.1@.len() == signed_column.1@.len() && seq![
            texts_column.0@,
            wide_column.0@,
            narrow_column.0@,
            signed_column.0@,
        ].no_duplicates()) ==> frame is Ok,
{
    DataFrame::from_columns(
        vec![
            (texts_column.0, Arc::new(StringArray::from(texts_column.1))),
            (wide_column.0, Arc::new(UInt64Array::from(wide_column.1))),
            (narrow_column.0, Arc::new(UInt32Array::from(narrow_column.1))),
            (signed_column.0, Arc::new(Int64Array::from(signed_column.1))),
        ],
    )
}

proof fn lemma_column_names_differ()
    ensures
        seq!["test"@, "query"@, "trial"@, "runtime"@].no_duplicates(),
{
    reveal_strlit("test");
    reveal_strlit("query");
    reveal_strlit("trial");
    reveal_strlit("runtime");
    assert("query"@[0] == 'q');
    assert("trial"@[0] == 't');
    assert("test"@.len() == 4 && "query"@.len() == 5 && "trial"@.len() == 5 && "runtime"@.len()
        == 7);
}

/// The results as a table.
pub fn results_to_df(results: Vec<TestResult>) -> (frame: DataFrame)
    requires
        bytes_of(results@.map_values(|r: TestResult| r.test@)) <= i32::MAX,
    ensures
        frame_columns(frame) == seq![
            ("test"@, ColumnValues::Texts(results@.map_values(|r: TestResult| r.test@))),
            ("query"@, ColumnValues::Unsigned64(
                results@.map_values(|r: TestResult| r.query as u64),
            )),
            ("trial"@, ColumnValues::Unsigned32(results@.map_values(|r: TestResult| r.trial))),
            ("runtime"@, ColumnValues::Signed64(
                results@.map_values(|r: TestResult| r.runtime),
            )),
        ],
{
    let columns: ResultColumns = result_columns(&results);
    proof {
        lemma_column_names_differ();
        assert(texts(columns.tests@).len() == columns.tests@.len());
    }
    from_columns(
        ("test", columns.tests),
        ("query", columns.queries),
        ("trial", columns.trials),
        ("runtime", columns.runtimes),
    ).unwrap()
}

/// What is said before the whole suite is run.
pub fn announcement(config: &BenchConfig) -> (text: String)
    ensures
        text@ == "Running "@ + config.name@ + " benchmark ("@ + decimal(config.tables@.len())
            + " tables, "@ + decimal(config.queries@.len()) + " queries loaded)"@,
{
    let mut text: String = String::from_str("Running ");
    text.append(config.name.as_str());
    text.append(" benchmark (");
    text.append(to_decimal(config.tables.len() as u128).as_str());
    text.append(" tables, ");
    text.append(to_decimal(config.queries.len() as u128).as_str());
    text.append(" queries loaded)");
    text
}

/// The file that the results are written to.
pub fn results_file(name: &str, storage: &Storage) -> (file: String)
    ensures
        file@ == "test-data-"@ + name@ + "-"@ + storage.label() + ".csv"@,
{
    let mut file: String = String::from_str("test-data-");
    file.append(name);
    file.append("-");
    file.append(storage.backend().as_str());
    file.append(".csv");
    file
}

/// What a variant is called above the profile of a query.
pub open spec fn profile_label(variant: Variant) -> Seq<char> {
    match variant {
        Variant::A => "control (1 file)"@,
        Variant::B => "2-way split (zipped)"@,
        Variant::C => "3-way split (zipped)"@,
    }
}

/// What stands above the profile of a query.
pub fn profile_header(name: &str, number: usize, variant: Variant) -> (text: String)
    ensures
        text@ == "\n================ "@ + name@ + " Q"@ + decimal(number as nat) + " :: "@
            + profile_label(variant) + " ================"@,
{
    let label: &str = match variant {
        Variant::A => "control (1 file)",
        Variant::B => "2-way split (zipped)",
        Variant::C => "3-way split (zipped)",
    };
    let mut text: String = String::from_str("\n================ ");
    text.append(name);
    text.append(" Q");
    text.append(to_decimal(number as u128).as_str());
    text.append(" :: ");
    text.append(label);
    text.append(" ================");
    text
}

/// What is said of a query that the suite does not have.
pub fn query_not_found(name: &str, number: usize) -> (text: String)
    ensures
        text@ == "query Q"@ + decimal(number as nat) + " not found in "@ + name@,
{
    let mut text: String = String::from_str("query Q");
    text.append(to_decimal(number as u128).as_str());
    text.append(" not found in ");
    text.append(name);
    text
}

/// What stands above the table of requests.
pub fn stats_title(name: &str, storage: &Storage) -> (text: String)
    ensures
        text@ == "\n"@ + name@ + " object-store interaction ("@ + storage.label()
            + " backend, each query run once)\n"@,
{
    let mut text: String = String::from_str("\n");
    text.append(name);
    text.append(" object-store interaction (");
    text.append(storage.backend().as_str());
    text.append(" backend, each query run once)\n");
    text
}

/// The first line of the table of requests.
pub fn stats_header() -> (text: String)
    ensures
        text@ == at_left("variant"@, 16) + at_right("GET reqs"@, 10) + at_right("HEAD"@, 8)
            + at_right("get_rngs"@, 10) + at_right("ranges"@, 9) + at_right("bytes read"@, 14),
{
    let mut text: String = pad_right("variant", 16);
    text.append(pad_left("GET reqs", 10).as_str());
    text.append(pad_left("HEAD", 8).as_str());
    text.append(pad_left("get_rngs", 10).as_str());
    text.append(pad_left("ranges", 9).as_str());
    text.append(pad_left("bytes read", 14).as_str());
    text
}

/// What a variant is called in the table of requests.
pub open spec fn stats_label(variant: Variant) -> Seq<char> {
    match variant {
        Variant::A => "control 1-file"@,
        Variant::B => "2-way split"@,
        Variant::C => "3-way split"@,
    }
}

/// The line of a variant in the table of requests. `mib` holds the bytes read, in
/// MiB.
pub fn stats_row(variant: Variant, counted: &StatsSnapshot, mib: &str) -> (text: String)
    requires
        counted.get_requests + counted.get_ranges_ranges <= u64::MAX,
    ensures
        text@ == at_left(stats_label(variant), 16) + at_right(
            decimal((counted.get_requests + counted.get_ranges_ranges) as nat),
            10,
        ) + at_right(decimal(counted.head_requests as nat), 8) + at_right(
            decimal(counted.get_ranges_calls as nat),
            10,
        ) + at_right(decimal(counted.get_ranges_ranges as nat), 9) + at_right(mib@, 10) + " MiB"@,
{
    let label: &str = match variant {
        Variant::A => "control 1-file",
        Variant::B => "2-way split",
        Variant::C => "3-way split",
    };
    let mut text: String = pad_right(label, 16);
    text.append(pad_left(to_decimal(counted.total_gets() as u128).as_str(), 10).as_str());
    text.append(pad_left(to_decimal(counted.head_requests as u128).as_str(), 8).as_str());
    text.append(pad_left(to_decimal(counted.get_ranges_calls as u128).as_str(), 10).as_str());
    text.append(pad_left(to_decimal(counted.get_ranges_ranges as u128).as_str(), 9).as_str());
    text.append(pad_left(mib, 10).as_str());
    text.append(" MiB");
    text
}

/// A query with a number is found whenever there is one, and the first of them.
pub proof fn law_first_query_with_a_number_is_found(queries: Seq<Query>, number: usize)
    ensures
        (exists|i: int| 0 <= i < queries.len() && (#[trigger] queries[i]).number == number)
            ==> first_with(queries, number) is Some,
        first_with(queries, number) matches Some(i) ==> {
            &&& i < queries.len()
            &&& queries[i as int].number == number
            &&& forall|j: int| 0 <= j < i ==> (#[trigger] queries[j]).number != number
        },
    decreases queries.len(),
{
    if queries.len() > 0 {
        let front = queries.drop_last();
        law_first_query_with_a_number_is_found(front, number);
        if first_with(front, number) is None {
            assert forall|j: int| 0 <= j < front.len() implies (#[trigger] queries[j]).number
                != number by {
                assert(front[j] == queries[j]);
            }
        }
        if let Some(i) = first_with(front, number) {
            assert(front[i as int] == queries[i as int]);
            assert forall|j: int| 0 <= j < i implies (#[trigger] queries[j]).number != number by {
                assert(front[j] == queries[j]);
            }
        }
    }
}

/// A step comes before another: in an earlier trial, or in the same trial and for an
/// earlier query.
pub open spec fn comes_before(a: Step, b: Step) -> bool {
    a.trial < b.trial || a.trial == b.trial && a.query < b.query
}

proof fn lemma_trial_ascends(
    queries: Seq<Query>,
    subset: Option<Vec<usize>>,
    trial: u32,
    k: nat,
)
    requires
        k <= queries.len() <= usize::MAX,
    ensures
        forall|i: int, j: int|
            0 <= i < j < trial_steps(queries, subset, trial, k).len() ==> comes_before(
                #[trigger] trial_steps(queries, subset, trial, k)[i],
                #[trigger] trial_steps(queries, subset, trial, k)[j],
            ),
    decreases k,
{
    if k > 0 {
        let front = trial_steps(queries, subset, trial, (k - 1) as nat);
        let all = trial_steps(queries, subset, trial, k);
        lemma_trial_ascends(queries, subset, trial, (k - 1) as nat);
        assert forall|i: int, j: int| 0 <= i < j < all.len() implies comes_before(
            #[trigger] all[i],
            #[trigger] all[j],
        ) by {
            lemma_trial_steps(queries, subset, trial, (k - 1) as nat, i);
            if j < front.len() {
                assert(comes_before(front[i], front[j]));
            }
        }
    }
}

/// Steps come trial by trial and, in each, in the order of the queries. So none comes
/// twice.
pub proof fn law_steps_come_in_order(
    queries: Seq<Query>,
    subset: Option<Vec<usize>>,
    trials: nat,
    i: int,
    j: int,
)
    requires
        trials <= u32::MAX,
        queries.len() <= usize::MAX,
        0 <= i < j < all_steps(queries, subset, trials).len(),
    ensures
        ({
            let a = all_steps(queries, subset, trials)[i];
            let b = all_steps(queries, subset, trials)[j];
            a.trial < b.trial || a.trial == b.trial && a.query < b.query
        }),
    decreases trials,
{
    let last = (trials - 1) as nat;
    let front = all_steps(queries, subset, last);
    let back = trial_steps(queries, subset, last as u32, queries.len());
    if j < front.len() {
        law_steps_come_in_order(queries, subset, last, i, j);
    } else {
        lemma_trial_steps(queries, subset, last as u32, queries.len(), j - front.len());
        if i < front.len() {
            law_steps_are_wanted(queries, subset, last, i);
        } else {
            lemma_trial_ascends(queries, subset, last as u32, queries.len());
            assert(comes_before(back[i - front.len()], back[j - front.len()]));
        }
    }
}

/// What is run is, for each trial and each query, that query in that trial, exactly if
/// there is no choice of queries or its number is among the chosen ones.
pub proof fn law_chosen_queries_are_run(
    queries: Seq<Query>,
    subset: Option<Vec<usize>>,
    trials: nat,
    step: Step,
)
    requires
        trials <= u32::MAX,
        queries.len() <= usize::MAX,
    ensures
        all_steps(queries, subset, trials).contains(step) <==> {
            &&& step.trial < trials
            &&& step.query < queries.len()
            &&& subset is Some ==> subset->0@.contains(queries[step.query as int].number)
        },
{
    let all = all_steps(queries, subset, trials);
    if all.contains(step) {
        let i = choose|i: int| 0 <= i < all.len() && all[i] == step;
        law_steps_are_wanted(queries, subset, trials, i);
    }
    if step.trial < trials && step.query < queries.len() && wanted(
        queries[step.query as int],
        subset,
    ) {
        law_wanted_queries_are_run(queries, subset, trials, step.trial, step.query);
    }
}

/// The time between two moments outside of leap seconds is the nanoseconds between them, in
/// whole milliseconds; a rest is cut off.
pub proof fn law_milliseconds_are_whole(start: Moment, end: Moment)
    requires
        start.nanos < 1_000_000_000,
        end.nanos < 1_000_000_000,
    ensures
        ({
            let passed = (end.seconds * 1_000_000_000 + end.nanos) - (start.seconds * 1_000_000_000
                + start.nanos);
            let ms = milliseconds(start, end);
            &&& passed >= 0 ==> ms * 1_000_000 <= passed < (ms + 1) * 1_000_000
            &&& passed <= 0 ==> (ms - 1) * 1_000_000 < passed <= ms * 1_000_000
        }),
{
}

/// From one moment to another is as long as back.
pub proof fn law_time_runs_both_ways(start: Moment, end: Moment)
    ensures
        milliseconds(start, end) == -milliseconds(end, start),
{
}

/// The bytes of texts add up, text by text.
pub proof fn law_bytes_add_up(list: Seq<Seq<char>>, text: Seq<char>)
    ensures
        bytes_of(Seq::<Seq<char>>::empty()) == 0,
        bytes_of(list.push(text)) == bytes_of(list) + encode_utf8(text).len(),
{
    assert(list.push(text).drop_last() =~= list);
}

/// Different variants are called differently, above a profile and in the table of requests.
pub proof fn law_variants_have_their_own_labels(a: Variant, b: Variant)
    requires
        a != b,
    ensures
        profile_label(a) != profile_label(b),
        stats_label(a) != stats_label(b),
{
    reveal_strlit("control (1 file)");
    reveal_strlit("2-way split (zipped)");
    reveal_strlit("3-way split (zipped)");
    reveal_strlit("control 1-file");
    reveal_strlit("2-way split");
    reveal_strlit("3-way split");
    assert("control (1 file)"@[0] == 'c' && "2-way split (zipped)"@[0] == '2'
        && "3-way split (zipped)"@[0] == '3');
    assert("control 1-file"@[0] == 'c' && "2-way split"@[0] == '2' && "3-way split"@[0] == '3');
}

/// Runs of different queries are called differently.
pub proof fn law_runs_have_their_own_titles(name: Seq<char>, variant: Variant, a: nat, b: nat)
    requires
        run_title(name, variant, a) == run_title(name, variant, b),
    ensures
        a == b,
{
    let front = name + " Test "@ + variant.letter() + ", Q"@;
    assert(run_title(name, variant, a).skip(front.len() as int) =~= decimal(a));
    assert(run_title(name, variant, b).skip(front.len() as int) =~= decimal(b));
    let max = if a < b {
        b
    } else {
        a
    };
    law_written_numbers_are_read_back(a, max);
    law_written_numbers_are_read_back(b, max);
}

} // verus!
