//! The stream of an operator that puts batches side by side, and its timers.

use crate::exec::ZipExec;
use crate::metrics::{
    add_elapsed, add_to, counted, counter, reported_alike, reports_count, reports_time, stretches,
    subset_time,
};
use crate::schema::{
    all_columns, all_fields, clashing, conflict_at, fields, joinable, joined_fields, lemma_columns_of_two,
    lemma_distinct_len, lemma_fields_of_two, lemma_names_of_joined_fields, lemma_unique_fields,
    merge_all, mergeable, merged, merges_to, metadata_conflict, names, schema_metadata, share,
    shared_fields, shared_views, FieldView, SchemaView,
};
use crate::types::{all_can_be_empty, can_be_empty};
use datafusion::arrow::array::{ArrayRef, RecordBatch};
use datafusion::arrow::datatypes::Schema;
use datafusion::arrow::error::ArrowError;
use datafusion::physical_plan::metrics::{Count, ExecutionPlanMetricsSet, Time};
use std::sync::Arc;
use std::time::Instant;
use vstd::prelude::*;

verus! {

/// Columns of equal length, held by arrow. Opaque but for the names below.
#[verifier::external_body]
#[derive(Debug)]
pub struct Batch {
    pub records: RecordBatch,
}

/// One column of a batch, held by arrow. Opaque but for [`column_cells`] and
/// [`column_type`].
#[verifier::external_body]
#[derive(Debug)]
pub struct Column {
    pub array: ArrayRef,
}

/// The values of a column, row by row, as text; `None` where a null is marked.
pub uninterp spec fn column_cells(column: Column) -> Seq<Option<Seq<char>>>;

/// The type of a column, written as in a [`FieldView`].
pub uninterp spec fn column_type(column: Column) -> Seq<char>;

/// The values of columns.
pub open spec fn cells_of(list: Seq<Column>) -> Seq<Seq<Option<Seq<char>>>> {
    list.map_values(|c: Column| column_cells(c))
}

/// The types of columns.
pub open spec fn types_of(list: Seq<Column>) -> Seq<Seq<char>> {
    list.map_values(|c: Column| column_type(c))
}

/// No null is marked.
pub open spec fn null_free(cells: Seq<Option<Seq<char>>>) -> bool {
    forall|i: int| 0 <= i < cells.len() ==> #[trigger] cells[i] is Some
}

/// The values of a batch, column by column and then row by row, as text; `None`
/// where a null is marked.
pub uninterp spec fn batch_cells(batch: Batch) -> Seq<Seq<Option<Seq<char>>>>;

/// The number of rows of a batch.
pub uninterp spec fn batch_rows(batch: Batch) -> nat;

/// The fields of a batch's schema.
pub uninterp spec fn batch_fields(batch: Batch) -> Seq<FieldView>;

/// The metadata of a batch's schema.
pub uninterp spec fn batch_metadata(batch: Batch) -> Map<Seq<char>, Seq<char>>;

/// The types of a batch's columns, written as in a [`FieldView`].
pub uninterp spec fn batch_types(batch: Batch) -> Seq<Seq<char>>;

/// The schema of a batch, as contracts see it.
pub open spec fn batch_view(batch: Batch) -> SchemaView {
    SchemaView { columns: names(batch_fields(batch)), metadata: batch_metadata(batch) }
}

/// The schemas of two batches.
pub open spec fn batch_views(left: Batch, right: Batch) -> Seq<SchemaView> {
    seq![batch_view(left), batch_view(right)]
}

/// The types that fields declare.
pub open spec fn declared_types(list: Seq<FieldView>) -> Seq<Seq<char>> {
    list.map_values(|f: FieldView| f.data_type)
}

/// The columns of two batches have exactly the types that their fields declare.
pub open spec fn typed_as_declared(left: Batch, right: Batch) -> bool {
    batch_types(left) + batch_types(right) == declared_types(
        batch_fields(left) + batch_fields(right),
    )
}

/// `RecordBatch::schema`: a handle on the batch's schema.
#[verifier::external_body]
pub(crate) fn schema_of(batch: &Batch) -> (schema: Arc<Schema>)
    ensures
        fields(*schema) == batch_fields(*batch),
        schema_metadata(*schema) == batch_metadata(*batch),
{
    batch.records.schema()
}

/// `RecordBatch::num_rows`: the number of rows.
#[verifier::external_body]
pub(crate) fn num_rows(batch: &Batch) -> (rows: usize)
    ensures
        rows == batch_rows(*batch),
{
    batch.records.num_rows()
}

/// `RecordBatch::new_empty`: a batch of the given schema without rows, its columns
/// of the types that the fields declare. There have to be empty columns of all of
/// them.
#[verifier::external_body]
pub(crate) fn new_empty(schema: Arc<Schema>) -> (batch: Batch)
    requires
        can_be_empty(fields(*schema)),
    ensures
        batch_fields(batch) == fields(*schema),
        batch_metadata(batch) == schema_metadata(*schema),
        batch_rows(batch) == 0,
        batch_types(batch) == declared_types(fields(*schema)),
        batch_cells(batch) == Seq::new(
            fields(*schema).len(),
            |i: int| Seq::<Option<Seq<char>>>::empty(),
        ),
{
    Batch { records: RecordBatch::new_empty(schema) }
}

/// `RecordBatch::columns`: handles on the columns of a batch, as many as there are
/// fields and all as long as the batch. A field that is not nullable has a column
/// without nulls.
#[verifier::external_body]
pub(crate) fn columns_of(batch: &Batch) -> (list: Vec<Column>)
    ensures
        list@.len() == batch_fields(*batch).len(),
        cells_of(list@) == batch_cells(*batch),
        list@.len() == batch_types(*batch).len(),
        forall|i: int|
            0 <= i < list@.len() ==> {
                &&& column_cells(#[trigger] list@[i]).len() == batch_rows(*batch)
                &&& column_type(list@[i]) == batch_types(*batch)[i]
                &&& !batch_fields(*batch)[i].nullable ==> null_free(column_cells(list@[i]))
            },
{
    batch.records.columns().iter().map(|array| Column { array: Arc::clone(array) }).collect()
}

/// Columns make a batch with the given fields: there is one, there is one for each
/// field, each has the type that its field declares and no nulls unless its field
/// is nullable, and all are equally long.
pub open spec fn fits(list: Seq<FieldView>, columns: Seq<Column>) -> bool {
    &&& columns.len() > 0
    &&& columns.len() == list.len()
    &&& types_of(columns) == declared_types(list)
    &&& forall|i: int|
        0 <= i < columns.len() ==> column_cells(#[trigger] columns[i]).len() == column_cells(
            columns[0],
        ).len() && (!list[i].nullable ==> null_free(column_cells(columns[i])))
}

/// `RecordBatch::try_new`: a batch of the given schema with exactly the given
/// columns, or an error if they do not fit.
#[verifier::external_body]
pub(crate) fn assemble(schema: Arc<Schema>, columns: Vec<Column>) -> (batch: Result<
    Batch,
    ArrowError,
>)
    ensures
        batch is Ok <==> fits(fields(*schema), columns@),
        batch matches Ok(b) ==> {
            &&& batch_fields(b) == fields(*schema)
            &&& batch_metadata(b) == schema_metadata(*schema)
            &&& batch_cells(b) == cells_of(columns@)
            &&& batch_types(b) == types_of(columns@)
            &&& batch_rows(b) == column_cells(columns@[0]).len()
        },
{
    let arrays = columns.into_iter().map(|column| column.array).collect();
    RecordBatch::try_new(schema, arrays).map(|records| Batch { records })
}

/// A timer that can be started and stopped.
#[derive(Debug)]
pub struct StartableTime {
    /// The metric that each finished stretch of time is added to.
    pub metrics: Time,
    /// When the stretch that is being timed began.
    pub start: Option<Instant>,
}

impl StartableTime {
    /// The timer is between a start and a stop.
    pub open spec fn running(self) -> bool {
        self.start is Some
    }

    /// Starts the timer. A timer that runs keeps running from where it started.
    pub fn start(&mut self)
        ensures
            exists|now: Instant| #[trigger] started_at(*old(self), *final(self), now),
    {
        let now: Instant = Instant::now();
        self.start_at(now);
    }

    /// Starts the timer at a given moment.
    pub fn start_at(&mut self, now: Instant)
        ensures
            started_at(*old(self), *final(self), now),
    {
        if self.start.is_none() {
            self.start = Some(now);
        }
    }

    /// Stops the timer and adds the stretch to its metric. A timer that does not
    /// run is left alone.
    pub fn stop(&mut self)
        ensures
            stopped(*old(self), *final(self)),
            !old(self).running() ==> *final(self) == *old(self),
    {
        if let Some(start) = self.start.take() {
            add_elapsed(&mut self.metrics, start);
        }
    }
}

/// `after` is `before`, started at a moment unless it ran.
pub open spec fn started_at(before: StartableTime, after: StartableTime, now: Instant) -> bool {
    &&& after.metrics == before.metrics
    &&& after.start == if before.running() {
        before.start
    } else {
        Some(now)
    }
}

/// `after` is `before`, stopped: the stretch since it was started, if it was, has
/// been added to its metric.
pub open spec fn stopped(before: StartableTime, after: StartableTime) -> bool {
    &&& !after.running()
    &&& stretches(after.metrics) == match before.start {
        Some(start) => stretches(before.metrics).push(start),
        None => stretches(before.metrics),
    }
    &&& reported_alike(before.metrics, after.metrics)
}

/// A timer that is started twice and then stopped has added the stretch from the
/// first start, and no other. Stopping it again adds nothing.
pub proof fn law_timer_keeps_first_start(
    idle: StartableTime,
    first: Instant,
    once: StartableTime,
    second: Instant,
    twice: StartableTime,
    done: StartableTime,
    again: StartableTime,
)
    requires
        !idle.running(),
        started_at(idle, once, first),
        started_at(once, twice, second),
        stopped(twice, done),
        stopped(done, again),
    ensures
        !done.running() && !again.running(),
        stretches(done.metrics) == stretches(idle.metrics).push(first),
        stretches(again.metrics) == stretches(done.metrics),
        reported_alike(idle.metrics, again.metrics),
{
}

/// The metrics of one partition of the operator.
#[derive(Debug)]
pub struct ZipMetrics {
    pub time_elapsed_waiting: StartableTime,
    pub time_elapsed_zipping: StartableTime,
    pub time_elapsed_total: StartableTime,
    pub num_zips: Count,
}

impl ZipMetrics {
    /// A set of metrics reports the timers and the count of a partition, each under
    /// its name.
    pub open spec fn reported_by(self, metrics: ExecutionPlanMetricsSet, partition: usize) -> bool {
        &&& reports_time(
            metrics,
            "time_elapsed_waiting"@,
            partition,
            self.time_elapsed_waiting.metrics,
        )
        &&& reports_time(
            metrics,
            "time_elapsed_zipping"@,
            partition,
            self.time_elapsed_zipping.metrics,
        )
        &&& reports_time(
            metrics,
            "time_elapsed_total"@,
            partition,
            self.time_elapsed_total.metrics,
        )
        &&& reports_count(metrics, "num_zips"@, partition, self.num_zips)
    }

    /// No time and no zip has been added yet.
    pub open spec fn unused(self) -> bool {
        &&& stretches(self.time_elapsed_waiting.metrics).len() == 0
        &&& stretches(self.time_elapsed_zipping.metrics).len() == 0
        &&& stretches(self.time_elapsed_total.metrics).len() == 0
        &&& counted(self.num_zips) == 0
    }

    /// Registers the metrics of a partition, with no timer running.
    pub fn new(metrics: &ExecutionPlanMetricsSet, partition: usize) -> (registered: ZipMetrics)
        ensures
            registered.reported_by(*metrics, partition),
            registered.unused(),
            !registered.time_elapsed_waiting.running(),
            !registered.time_elapsed_zipping.running(),
            !registered.time_elapsed_total.running(),
    {
        let time_elapsed_waiting = StartableTime {
            metrics: subset_time(metrics, "time_elapsed_waiting", partition),
            start: None,
        };
        let time_elapsed_zipping = StartableTime {
            metrics: subset_time(metrics, "time_elapsed_zipping", partition),
            start: None,
        };
        let time_elapsed_total = StartableTime {
            metrics: subset_time(metrics, "time_elapsed_total", partition),
            start: None,
        };
        let num_zips: Count = counter(metrics, "num_zips", partition);
        ZipMetrics { time_elapsed_waiting, time_elapsed_zipping, time_elapsed_total, num_zips }
    }
}

/// Why a batch could not be produced.
#[derive(Debug)]
pub enum ZipStreamError<E> {
    /// An input failed.
    Input(E),
    /// The batches of the inputs do not go together.
    Zip(ArrowError),
}

/// `result` puts `left` and `right` side by side. Batches whose metadata is at odds
/// or with columns of one name that clash do not go together. Batches of different
/// lengths give an empty batch; that succeeds if columns of one name make one.
/// Batches of one length give all columns of the left one followed by all of the
/// right one; that succeeds exactly if no two columns share a name, no metadata is at
/// odds, there is a column, and all columns have the types that their fields declare.
pub open spec fn zipped(
    left: Batch,
    right: Batch,
    result: Result<Batch, ArrowError>,
) -> bool {
    let parts = batch_views(left, right);
    let both = batch_fields(left) + batch_fields(right);
    &&& clashing(both) || metadata_conflict(parts) ==> result is Err
    &&& result matches Ok(b) ==> batch_view(b) == merged(parts) && (joinable(both)
        ==> batch_fields(b) == joined_fields(both))
    &&& batch_rows(left) != batch_rows(right) ==> {
        &&& joinable(both) && !metadata_conflict(parts) ==> result is Ok
        &&& result matches Ok(b) ==> {
            &&& batch_rows(b) == 0
            &&& batch_types(b) == declared_types(batch_fields(b))
            &&& batch_cells(b) == Seq::new(
                merged(parts).columns.len(),
                |i: int| Seq::<Option<Seq<char>>>::empty(),
            )
        }
    }
    &&& batch_rows(left) == batch_rows(right) ==> {
        &&& result is Ok <==> mergeable(parts) && all_columns(parts).len() > 0
            && typed_as_declared(left, right)
        &&& result matches Ok(b) ==> {
            &&& batch_rows(b) == batch_rows(left)
            &&& batch_cells(b) == batch_cells(left) + batch_cells(right)
            &&& batch_types(b) == batch_types(left) + batch_types(right)
            &&& batch_fields(b) == both
        }
    }
}

/// Two batches can be put side by side, or are refused: they are of one length, or
/// there are empty columns of all their types.
pub open spec fn zippable(left: Batch, right: Batch) -> bool {
    batch_rows(left) == batch_rows(right) || can_be_empty(batch_fields(left) + batch_fields(right))
}

/// Two batches are of different lengths and merge to a schema of which there is no
/// empty batch.
pub open spec fn cannot_be_zipped(left: Batch, right: Batch) -> bool {
    &&& batch_rows(left) != batch_rows(right)
    &&& exists|schema: Schema|
        !can_be_empty(#[trigger] fields(schema)) && merges_to(
            batch_views(left, right),
            seq![batch_fields(left), batch_fields(right)],
            Ok(schema),
        )
}

/// What a poll of both inputs gives back: `None` while one is pending,
/// `Some(None)` when one has come to its end.
pub type PolledPair<E> = Option<Option<(Result<Batch, E>, Result<Batch, E>)>>;

/// What a poll of the stream gives back.
pub type PolledBatch<E> = Option<Option<Result<Batch, ZipStreamError<E>>>>;

/// What the stream answers. The error of the left input goes before that of the
/// right one.
pub open spec fn answers<E>(polled: PolledPair<E>, answer: PolledBatch<E>) -> bool {
    match polled {
        None => answer is None,
        Some(None) => answer == Some(None::<Result<Batch, ZipStreamError<E>>>),
        Some(Some((Err(e), _))) => answer == Some(
            Some(Err::<Batch, ZipStreamError<E>>(ZipStreamError::Input(e))),
        ),
        Some(Some((Ok(_), Err(e)))) => answer == Some(
            Some(Err::<Batch, ZipStreamError<E>>(ZipStreamError::Input(e))),
        ),
        Some(Some((Ok(left), Ok(right)))) => answer matches Some(Some(result)) && match result {
            Ok(b) => zipped(left, right, Ok(b)),
            Err(ZipStreamError::Zip(e)) => zipped(left, right, Err(e)),
            Err(ZipStreamError::Input(_)) => false,
        },
    }
}

/// How a poll moves the timers and the count of zips: waiting is timed from one
/// pending poll to the next that is not, zipping while two batches are put side by
/// side, and the total until an error or the end. Each pair of batches counts as a
/// zip, and nothing else does. All are reported as before.
pub open spec fn timers_move<E>(
    polled: PolledPair<E>,
    before: ZipMetrics,
    after: ZipMetrics,
) -> bool {
    &&& polled is None ==> {
        &&& after.time_elapsed_waiting.running()
        &&& after.time_elapsed_waiting.metrics == before.time_elapsed_waiting.metrics
        &&& before.time_elapsed_waiting.running() ==> after.time_elapsed_waiting
            == before.time_elapsed_waiting
        &&& after.time_elapsed_zipping == before.time_elapsed_zipping
        &&& after.time_elapsed_total == before.time_elapsed_total
    }
    &&& polled is Some ==> stopped(before.time_elapsed_waiting, after.time_elapsed_waiting)
    &&& is_pair(polled) ==> {
        &&& exists|start: Instant| #[trigger]
            timed_from(before.time_elapsed_zipping, after.time_elapsed_zipping, start)
        &&& after.time_elapsed_total == before.time_elapsed_total
    }
    &&& (polled is Some && !is_pair(polled)) ==> {
        &&& stopped(before.time_elapsed_total, after.time_elapsed_total)
        &&& after.time_elapsed_zipping == before.time_elapsed_zipping
    }
    &&& counted(after.num_zips) == counted(before.num_zips) + if is_pair(polled) {
        1int
    } else {
        0
    }
    &&& forall|set: ExecutionPlanMetricsSet, partition: usize| #[trigger]
        before.reported_by(set, partition) ==> after.reported_by(set, partition)
}

/// Both inputs gave a batch.
pub open spec fn is_pair<E>(polled: PolledPair<E>) -> bool {
    polled matches Some(Some((Ok(_), Ok(_))))
}

/// `after` is `before`, started unless it ran, and stopped: it has added the stretch
/// from `start`.
pub open spec fn timed_from(before: StartableTime, after: StartableTime, start: Instant) -> bool {
    &&& before.running() ==> start == before.start->0
    &&& stopped(StartableTime { start: Some(start), ..before }, after)
}

/// The stream of one partition.
#[derive(Debug)]
pub struct ZipStream {
    pub schema: Arc<Schema>,
    pub metrics: ZipMetrics,
}

impl ZipStream {
    pub fn new(schema: Arc<Schema>, metrics: ZipMetrics) -> (stream: ZipStream)
        ensures
            stream.schema == schema,
            stream.metrics == metrics,
    {
        ZipStream { schema, metrics }
    }

    /// Puts two batches side by side. Batches of different lengths have to be of
    /// types of which there are empty columns.
    pub fn batch_zip(left_batch: &Batch, right_batch: &Batch) -> (result: Result<
        Batch,
        ArrowError,
    >)
        requires
            zippable(*left_batch, *right_batch),
        ensures
            zipped(*left_batch, *right_batch, result),
    {
        Self::try_batch_zip(left_batch, right_batch).unwrap()
    }

    /// Puts two batches side by side. `None` if they are of different lengths and
    /// there is no empty column of a type that they merge to.
    pub fn try_batch_zip(left_batch: &Batch, right_batch: &Batch) -> (zip: Option<
        Result<Batch, ArrowError>,
    >)
        ensures
            zip matches Some(result) ==> zipped(*left_batch, *right_batch, result),
            zip is None ==> cannot_be_zipped(*left_batch, *right_batch),
            zippable(*left_batch, *right_batch) ==> zip is Some,
    {
        let ghost parts = batch_views(*left_batch, *right_batch);
        let ghost both = batch_fields(*left_batch) + batch_fields(*right_batch);
        let mut schemas: Vec<Arc<Schema>> = Vec::new();
        schemas.push(schema_of(left_batch));
        schemas.push(schema_of(right_batch));
        proof {
            assert(shared_views(schemas@) =~= parts);
            lemma_columns_of_two(parts[0], parts[1]);
            lemma_fields_of_two(shared_fields(schemas@));
            assert(all_fields(shared_fields(schemas@)) == both);
            assert(names(both) =~= all_columns(parts));
            lemma_names_of_joined_fields(both);
        }
        let schema: Arc<Schema> = match merge_all(&schemas) {
            Ok(schema) => Arc::new(schema),
            Err(e) => {
                proof {
                    if mergeable(parts) {
                        lemma_unique_fields(both);
                    }
                }
                return Some(Err(e));
            },
        };
        if num_rows(left_batch) != num_rows(right_batch) {
            if !all_can_be_empty(&schema) {
                proof {
                    assert(shared_fields(schemas@) =~= seq![
                        batch_fields(*left_batch),
                        batch_fields(*right_batch),
                    ]);
                }
                return None;
            }
            return Some(Ok(new_empty(schema)));
        }
        let mut columns: Vec<Column> = columns_of(left_batch);
        let mut more: Vec<Column> = columns_of(right_batch);
        let ghost left_columns = columns@;
        let ghost right_columns = more@;
        columns.append(&mut more);
        proof {
            lemma_distinct_len(all_columns(parts));
            assert(names(fields(*schema)).len() == fields(*schema).len());
            if all_columns(parts).no_duplicates() {
                lemma_unique_fields(both);
            }
            assert(cells_of(columns@) =~= batch_cells(*left_batch) + batch_cells(*right_batch));
            assert(types_of(columns@) =~= batch_types(*left_batch) + batch_types(*right_batch));
            assert forall|i: int| 0 <= i < columns@.len() implies column_cells(
                #[trigger] columns@[i],
            ).len() == batch_rows(*left_batch) && (!both[i].nullable ==> null_free(
                column_cells(columns@[i]),
            )) by {
                if i < left_columns.len() {
                    assert(columns@[i] == left_columns[i]);
                } else {
                    assert(columns@[i] == right_columns[i - left_columns.len()]);
                }
            }
        }
        Some(assemble(schema, columns))
    }

    /// Handles what the inputs gave: hands on an error, the end, or that it has
    /// to wait, or puts the two batches side by side.
    pub fn poll_next<E>(&mut self, polled: PolledPair<E>) -> (answer: PolledBatch<E>)
        requires
            polled matches Some(Some((Ok(left), Ok(right)))) ==> zippable(left, right),
        ensures
            answers(polled, answer),
            timers_move(polled, old(self).metrics, final(self).metrics),
            final(self).schema == old(self).schema,
    {
        self.try_poll_next(polled).unwrap()
    }

    /// Handles what the inputs gave, as [`ZipStream::poll_next`] does. `None` if two
    /// batches are of different lengths and there is no empty column of a type that
    /// they merge to.
    pub fn try_poll_next<E>(&mut self, polled: PolledPair<E>) -> (handled: Option<PolledBatch<E>>)
        ensures
            handled matches Some(answer) ==> answers(polled, answer) && timers_move(
                polled,
                old(self).metrics,
                final(self).metrics,
            ),
            handled is None ==> (polled matches Some(Some((Ok(left), Ok(right))))
                && cannot_be_zipped(left, right)),
            (polled matches Some(Some((Ok(left), Ok(right)))) ==> zippable(left, right))
                ==> handled is Some,
            final(self).schema == old(self).schema,
    {
        let answer: PolledBatch<E> = match polled {
            Some(Some((Ok(left_batch), Ok(right_batch)))) => {
                self.metrics.time_elapsed_waiting.stop();
                add_to(&mut self.metrics.num_zips, 1);
                self.metrics.time_elapsed_zipping.start();
                let ghost timing = self.metrics.time_elapsed_zipping;
                let zipped_batch: Result<Batch, ArrowError> = match Self::try_batch_zip(
                    &left_batch,
                    &right_batch,
                ) {
                    Some(result) => result,
                    None => {
                        return None;
                    },
                };
                self.metrics.time_elapsed_zipping.stop();
                proof {
                    assert(timed_from(
                        old(self).metrics.time_elapsed_zipping,
                        self.metrics.time_elapsed_zipping,
                        timing.start->0,
                    ));
                }
                match zipped_batch {
                    Ok(batch) => Some(Some(Ok(batch))),
                    Err(e) => Some(Some(Err(ZipStreamError::Zip(e)))),
                }
            },
            Some(Some((Err(e), _))) => {
                self.metrics.time_elapsed_total.stop();
                self.metrics.time_elapsed_waiting.stop();
                Some(Some(Err(ZipStreamError::Input(e))))
            },
            Some(Some((_, Err(e)))) => {
                self.metrics.time_elapsed_total.stop();
                self.metrics.time_elapsed_waiting.stop();
                Some(Some(Err(ZipStreamError::Input(e))))
            },
            Some(None) => {
                self.metrics.time_elapsed_total.stop();
                self.metrics.time_elapsed_waiting.stop();
                Some(None)
            },
            None => {
                self.metrics.time_elapsed_waiting.start();
                None
            },
        };
        Some(answer)
    }
}

impl<P, Q> ZipExec<P, Q> {
    /// Opens the stream of a partition, with the total time running.
    pub fn open_stream(&self, partition: usize) -> (stream: ZipStream)
        ensures
            stream.schema == self.schema,
            stream.metrics.reported_by(self.metrics, partition),
            stream.metrics.unused(),
            stream.metrics.time_elapsed_total.running(),
            !stream.metrics.time_elapsed_waiting.running(),
            !stream.metrics.time_elapsed_zipping.running(),
    {
        let mut zip_metrics: ZipMetrics = ZipMetrics::new(&self.metrics, partition);
        zip_metrics.time_elapsed_total.start();
        ZipStream::new(share(&self.schema), zip_metrics)
    }
}

/// What one input gives: a batch or its error.
pub type Given<E> = Result<Batch, E>;

/// What the inputs gave, poll after poll, without the polls that had to wait.
pub open spec fn ready_polls<E>(polls: Seq<PolledPair<E>>) -> Seq<Option<(Given<E>, Given<E>)>>
    decreases polls.len(),
{
    if polls.len() == 0 {
        Seq::empty()
    } else {
        let before = ready_polls(polls.drop_last());
        match polls.last() {
            Some(pair) => before.push(pair),
            None => before,
        }
    }
}

/// What the stream answered, poll after poll, without the polls that had to wait.
pub open spec fn ready_answers<E>(replies: Seq<PolledBatch<E>>) -> Seq<
    Option<Result<Batch, ZipStreamError<E>>>,
>
    decreases replies.len(),
{
    if replies.len() == 0 {
        Seq::empty()
    } else {
        let before = ready_answers(replies.drop_last());
        match replies.last() {
            Some(answer) => before.push(answer),
            None => before,
        }
    }
}

/// A run of polls: what the inputs gave, the stream before and after each poll, and
/// what it answered.
pub open spec fn ran<E>(
    polls: Seq<PolledPair<E>>,
    streams: Seq<ZipStream>,
    replies: Seq<PolledBatch<E>>,
) -> bool {
    &&& streams.len() == polls.len() + 1
    &&& replies.len() == polls.len()
    &&& forall|i: int|
        0 <= i < polls.len() ==> answers(#[trigger] polls[i], replies[i]) && timers_move(
            polls[i],
            streams[i].metrics,
            streams[i + 1].metrics,
        )
}

/// What two inputs give in pairs, until the shorter one ends.
pub open spec fn paired<E>(lefts: Seq<Given<E>>, rights: Seq<Given<E>>) -> Seq<
    Option<(Given<E>, Given<E>)>,
> {
    Seq::new(shorter(lefts, rights), |i: int| Some((lefts[i], rights[i]))).push(None)
}

/// The length of the shorter input.
pub open spec fn shorter<E>(lefts: Seq<Given<E>>, rights: Seq<Given<E>>) -> nat {
    if lefts.len() <= rights.len() {
        lefts.len()
    } else {
        rights.len()
    }
}

/// How many of the first `n` pairs are two batches.
pub open spec fn pairs_of_batches<E>(lefts: Seq<Given<E>>, rights: Seq<Given<E>>, n: nat) -> nat
    decreases n,
{
    if n == 0 {
        0
    } else {
        pairs_of_batches(lefts, rights, (n - 1) as nat) + if lefts[n - 1] is Ok && rights[n
            - 1] is Ok {
            1nat
        } else {
            0
        }
    }
}

/// How many of what the inputs gave are two batches.
spec fn batches_among<E>(given: Seq<Option<(Given<E>, Given<E>)>>) -> nat
    decreases given.len(),
{
    if given.len() == 0 {
        0
    } else {
        batches_among(given.drop_last()) + if is_pair(Some(given.last())) {
            1nat
        } else {
            0
        }
    }
}

proof fn lemma_run<E>(
    polls: Seq<PolledPair<E>>,
    streams: Seq<ZipStream>,
    replies: Seq<PolledBatch<E>>,
)
    requires
        ran(polls, streams, replies),
    ensures
        ready_answers(replies).len() == ready_polls(polls).len(),
        forall|i: int|
            0 <= i < ready_polls(polls).len() ==> answers(
                Some(#[trigger] ready_polls(polls)[i]),
                Some(ready_answers(replies)[i]),
            ),
        counted(streams.last().metrics.num_zips) == counted(streams.first().metrics.num_zips)
            + batches_among(ready_polls(polls)),
    decreases polls.len(),
{
    if polls.len() > 0 {
        let n = polls.len() - 1;
        let init = polls.drop_last();
        let earlier = streams.drop_last();
        let said = replies.drop_last();
        assert forall|i: int| 0 <= i < init.len() implies answers(#[trigger] init[i], said[i])
            && timers_move(init[i], earlier[i].metrics, earlier[i + 1].metrics) by {
            assert(init[i] == polls[i]);
        }
        lemma_run(init, earlier, said);
        assert(answers(polls[n], replies[n]));
        assert(timers_move(polls[n], streams[n].metrics, streams[n + 1].metrics));
        let before = ready_polls(init);
        let all = ready_polls(polls);
        if polls[n] is Some {
            assert(all.drop_last() =~= before);
            assert forall|i: int| 0 <= i < all.len() implies answers(
                Some(#[trigger] all[i]),
                Some(ready_answers(replies)[i]),
            ) by {
                if i < before.len() {
                    assert(all[i] == before[i]);
                }
            }
        }
    }
}

proof fn lemma_batches_among_pairs<E>(lefts: Seq<Given<E>>, rights: Seq<Given<E>>, n: nat)
    requires
        n <= shorter(lefts, rights),
    ensures
        batches_among(paired(lefts, rights).take(n as int)) == pairs_of_batches(lefts, rights, n),
    decreases n,
{
    let all = paired(lefts, rights);
    if n > 0 {
        lemma_batches_among_pairs(lefts, rights, (n - 1) as nat);
        assert(all.take(n as int).drop_last() =~= all.take(n - 1));
        assert(all.take(n as int).last() == Some((lefts[n - 1], rights[n - 1])));
    }
}

/// A stream that is polled until its end answers, in order and with nothing else in
/// between, for each pair that both inputs give, and then ends. What the longer
/// input gives beyond that is never answered. An error takes the place of its pair
/// only, and the left one goes before the right one. The count of zips has risen by
/// the number of pairs of batches.
pub proof fn law_run_answers_each_pair<E>(
    lefts: Seq<Given<E>>,
    rights: Seq<Given<E>>,
    polls: Seq<PolledPair<E>>,
    streams: Seq<ZipStream>,
    replies: Seq<PolledBatch<E>>,
)
    requires
        ran(polls, streams, replies),
        ready_polls(polls) == paired(lefts, rights),
    ensures
        ready_answers(replies).len() == shorter(lefts, rights) + 1,
        forall|i: int|
            0 <= i < shorter(lefts, rights) ==> answers(
                Some(Some((lefts[i], rights[i]))),
                Some(#[trigger] ready_answers(replies)[i]),
            ),
        ready_answers(replies).last() is None,
        counted(streams.last().metrics.num_zips) == counted(streams.first().metrics.num_zips)
            + pairs_of_batches(lefts, rights, shorter(lefts, rights)),
{
    lemma_run(polls, streams, replies);
    let n = shorter(lefts, rights);
    let all = paired(lefts, rights);
    lemma_batches_among_pairs(lefts, rights, n);
    assert(all.drop_last() =~= all.take(n as int));
    assert(answers(Some(all[n as int]), Some(ready_answers(replies)[n as int])));
    assert forall|i: int| 0 <= i < n implies answers(
        Some(Some((lefts[i], rights[i]))),
        Some(#[trigger] ready_answers(replies)[i]),
    ) by {
        assert(all[i] == Some((lefts[i], rights[i])));
        assert(answers(Some(ready_polls(polls)[i]), Some(ready_answers(replies)[i])));
    }
}

proof fn lemma_all_pairs_are_batches<E>(lefts: Seq<Given<E>>, rights: Seq<Given<E>>, n: nat)
    requires
        n <= shorter(lefts, rights),
        forall|i: int| 0 <= i < lefts.len() ==> #[trigger] lefts[i] is Ok,
        forall|i: int| 0 <= i < rights.len() ==> #[trigger] rights[i] is Ok,
    ensures
        pairs_of_batches(lefts, rights, n) == n,
    decreases n,
{
    if n > 0 {
        lemma_all_pairs_are_batches(lefts, rights, (n - 1) as nat);
        assert(lefts[n - 1] is Ok && rights[n - 1] is Ok);
    }
}

/// Where no input fails, a stream that is polled until its end puts the first
/// batches of both inputs side by side, then the second ones, and so on until the
/// shorter input ends, and counts exactly these zips.
pub proof fn law_run_zips_batches<E>(
    lefts: Seq<Given<E>>,
    rights: Seq<Given<E>>,
    polls: Seq<PolledPair<E>>,
    streams: Seq<ZipStream>,
    replies: Seq<PolledBatch<E>>,
)
    requires
        ran(polls, streams, replies),
        ready_polls(polls) == paired(lefts, rights),
        forall|i: int| 0 <= i < lefts.len() ==> #[trigger] lefts[i] is Ok,
        forall|i: int| 0 <= i < rights.len() ==> #[trigger] rights[i] is Ok,
    ensures
        ready_answers(replies).len() == shorter(lefts, rights) + 1,
        forall|i: int|
            0 <= i < shorter(lefts, rights) ==> ((#[trigger] ready_answers(replies)[i]) matches Some(
                result,
            ) && match result {
                Ok(b) => zipped(lefts[i]->Ok_0, rights[i]->Ok_0, Ok(b)),
                Err(ZipStreamError::Zip(e)) => zipped(lefts[i]->Ok_0, rights[i]->Ok_0, Err(e)),
                Err(ZipStreamError::Input(_)) => false,
            }),
        ready_answers(replies).last() is None,
        counted(streams.last().metrics.num_zips) == counted(streams.first().metrics.num_zips)
            + shorter(lefts, rights),
{
    law_run_answers_each_pair(lefts, rights, polls, streams, replies);
    lemma_all_pairs_are_batches(lefts, rights, shorter(lefts, rights));
    assert forall|i: int| 0 <= i < shorter(lefts, rights) implies ((
    #[trigger] ready_answers(replies)[i]) matches Some(result) && match result {
        Ok(b) => zipped(lefts[i]->Ok_0, rights[i]->Ok_0, Ok(b)),
        Err(ZipStreamError::Zip(e)) => zipped(lefts[i]->Ok_0, rights[i]->Ok_0, Err(e)),
        Err(ZipStreamError::Input(_)) => false,
    }) by {
        assert(lefts[i] is Ok && rights[i] is Ok);
        assert(answers(Some(Some((lefts[i], rights[i]))), Some(ready_answers(replies)[i])));
    }
}

/// Two batches that are put side by side are of different lengths and give no rows, or
/// are of one length and give the left columns and then the right ones, row by row.
pub proof fn law_zipping_keeps_cells(left: Batch, right: Batch, batch: Batch)
    requires
        zipped(left, right, Ok(batch)),
    ensures
        batch_rows(left) != batch_rows(right) ==> batch_rows(batch) == 0 && forall|i: int|
            0 <= i < batch_cells(batch).len() ==> (#[trigger] batch_cells(batch)[i]).len() == 0,
        batch_rows(left) == batch_rows(right) ==> {
            &&& batch_rows(batch) == batch_rows(left)
            &&& batch_cells(batch).len() == batch_cells(left).len() + batch_cells(right).len()
            &&& forall|i: int|
                0 <= i < batch_cells(left).len() ==> #[trigger] batch_cells(batch)[i]
                    == batch_cells(left)[i]
            &&& forall|i: int|
                0 <= i < batch_cells(right).len() ==> batch_cells(batch)[batch_cells(left).len()
                    + i] == #[trigger] batch_cells(right)[i]
            &&& batch_fields(batch) == batch_fields(left) + batch_fields(right)
        },
{
}

/// Batches of one length with columns of different names go together, if there is a
/// column, no metadata is at odds and all columns are typed as declared.
pub proof fn law_batches_of_one_length_go_together(
    left: Batch,
    right: Batch,
    result: Result<Batch, ArrowError>,
)
    requires
        zipped(left, right, result),
        batch_rows(left) == batch_rows(right),
    ensures
        result is Ok <==> {
            &&& (names(batch_fields(left)) + names(batch_fields(right))).no_duplicates()
            &&& forall|key: Seq<char>| #[trigger]
                batch_metadata(left).contains_key(key) && batch_metadata(right).contains_key(key)
                    ==> batch_metadata(left)[key] == batch_metadata(right)[key]
            &&& batch_fields(left).len() + batch_fields(right).len() > 0
            &&& batch_types(left) + batch_types(right) == declared_types(
                batch_fields(left) + batch_fields(right),
            )
        },
{
    let parts = batch_views(left, right);
    lemma_columns_of_two(parts[0], parts[1]);
    assert(all_columns(parts) == names(batch_fields(left)) + names(batch_fields(right)));
    assert(metadata_conflict(parts) <==> !(forall|key: Seq<char>| #[trigger]
        batch_metadata(left).contains_key(key) && batch_metadata(right).contains_key(key)
            ==> batch_metadata(left)[key] == batch_metadata(right)[key])) by {
        if metadata_conflict(parts) {
            let (i, j, key) = choose|i: int, j: int, key: Seq<char>| conflict_at(parts, i, j, key);
            assert(i == 0 && j == 1);
            assert(batch_metadata(left).contains_key(key));
        }
        if exists|key: Seq<char>| #[trigger]
            batch_metadata(left).contains_key(key) && batch_metadata(right).contains_key(key)
                && batch_metadata(left)[key] != batch_metadata(right)[key] {
            let key = choose|key: Seq<char>| #[trigger]
                batch_metadata(left).contains_key(key) && batch_metadata(right).contains_key(key)
                    && batch_metadata(left)[key] != batch_metadata(right)[key];
            assert(conflict_at(parts, 0, 1, key));
        }
    }
}

/// The stream waits while an input is pending, ends when one ends, and hands on the error
/// of an input, that of the left one first. Two batches never give the error of an input.
pub proof fn law_stream_hands_on_what_inputs_give<E>(
    polled: PolledPair<E>,
    answer: PolledBatch<E>,
)
    requires
        answers(polled, answer),
    ensures
        answer is None <==> polled is None,
        polled matches Some(pair) ==> (answer->0 is None <==> pair is None),
        polled matches Some(Some((Err(e), _))) ==> answer == Some(
            Some(Err::<Batch, ZipStreamError<E>>(ZipStreamError::Input(e))),
        ),
        polled matches Some(Some((Ok(_), Err(e)))) ==> answer == Some(
            Some(Err::<Batch, ZipStreamError<E>>(ZipStreamError::Input(e))),
        ),
        polled matches Some(Some((Ok(left), Ok(right)))) ==> !(answer matches Some(
            Some(Err(ZipStreamError::Input(_))),
        )),
        polled matches Some(Some((Ok(left), Ok(right)))) ==> (answer matches Some(
            Some(Ok(batch)),
        ) ==> zipped(left, right, Ok(batch))),
{
}

/// The time from the first of several pending polls to the next that is not is added to
/// the waiting time, and to no other timer.
pub proof fn law_waiting_is_timed<E>(
    idle: ZipMetrics,
    first: ZipMetrics,
    second: ZipMetrics,
    ready: PolledPair<E>,
    done: ZipMetrics,
)
    requires
        timers_move(None::<Option<(Result<Batch, E>, Result<Batch, E>)>>, idle, first),
        timers_move(None::<Option<(Result<Batch, E>, Result<Batch, E>)>>, first, second),
        ready is Some,
        timers_move(ready, second, done),
    ensures
        first.time_elapsed_waiting.running() && second.time_elapsed_waiting.running(),
        !done.time_elapsed_waiting.running(),
        stretches(done.time_elapsed_waiting.metrics) == stretches(
            idle.time_elapsed_waiting.metrics,
        ).push(first.time_elapsed_waiting.start->0),
        second.time_elapsed_zipping == idle.time_elapsed_zipping,
        second.time_elapsed_total == idle.time_elapsed_total,
        counted(second.num_zips) == counted(idle.num_zips),
{
}

/// The total time is added when an input fails or ends, from where it was started, and not
/// while batches come.
pub proof fn law_total_time_ends_with_the_stream<E>(
    polled: PolledPair<E>,
    before: ZipMetrics,
    after: ZipMetrics,
)
    requires
        timers_move(polled, before, after),
        before.time_elapsed_total.running(),
    ensures
        (polled matches Some(None)) ==> !after.time_elapsed_total.running(),
        (polled matches Some(Some((Err(_), _)))) ==> !after.time_elapsed_total.running(),
        (polled matches Some(Some((_, Err(_))))) ==> !after.time_elapsed_total.running(),
        polled is None ==> after.time_elapsed_total == before.time_elapsed_total,
        (polled matches Some(Some((Ok(_), Ok(_))))) ==> after.time_elapsed_total
            == before.time_elapsed_total,
        !after.time_elapsed_total.running() ==> stretches(after.time_elapsed_total.metrics)
            == stretches(before.time_elapsed_total.metrics).push(
            before.time_elapsed_total.start->0,
        ),
        (polled matches Some(Some((Ok(_), Ok(_))))) ==> !after.time_elapsed_zipping.running()
            && stretches(after.time_elapsed_zipping.metrics).len() == stretches(
            before.time_elapsed_zipping.metrics,
        ).len() + 1,
{
}

} // verus!
