use datafusion::arrow::array::{
    Array, ArrayRef, Int32Array, RecordBatch, StringArray, UnionArray,
};
use datafusion::arrow::datatypes::{DataType, Field, Schema, UnionFields};
use datafusion::physical_plan::metrics::ExecutionPlanMetricsSet;
use std::collections::HashMap;
use std::sync::Arc;
use std::time::{Duration, Instant};
use zipped_tables::exec::{Boundedness, ZipExec, ZipInput};
use zipped_tables::stream::{
    Batch, PolledBatch, PolledPair, ZipMetrics, ZipStream, ZipStreamError,
};

fn numbers(name: &str, values: Vec<i32>) -> Batch {
    let schema = Schema::new(vec![Field::new(name, DataType::Int32, false)]);
    let column: ArrayRef = Arc::new(Int32Array::from(values));
    Batch { records: RecordBatch::try_new(Arc::new(schema), vec![column]).unwrap() }
}

fn words(name: &str, values: Vec<&str>) -> Batch {
    let schema = Schema::new(vec![Field::new(name, DataType::Utf8, true)]);
    let column: ArrayRef = Arc::new(StringArray::from(values));
    Batch { records: RecordBatch::try_new(Arc::new(schema), vec![column]).unwrap() }
}

fn tagged(batch: Batch, value: &str) -> Batch {
    let tag = HashMap::from([("origin".to_string(), value.to_string())]);
    let schema = batch.records.schema().as_ref().clone().with_metadata(tag);
    let columns = batch.records.columns().to_vec();
    Batch { records: RecordBatch::try_new(Arc::new(schema), columns).unwrap() }
}

fn stream() -> ZipStream {
    let input = |plan: &'static str, column: &str| ZipInput {
        plan,
        schema: Arc::new(Schema::new(vec![Field::new(column, DataType::Int32, false)])),
        partitioning: 1usize,
        boundedness: Boundedness::Bounded,
    };
    let operator = ZipExec::try_new(input("left", "a"), input("right", "b"), None, None).unwrap();
    operator.open_stream(0)
}

#[test]
fn batches_are_put_side_by_side() {
    let zipped = ZipStream::batch_zip(
        &numbers("a", vec![1, 2, 3]),
        &words("b", vec!["x", "y", "z"]),
    )
    .unwrap();
    assert_eq!(zipped.records.num_columns(), 2);
    assert_eq!(zipped.records.num_rows(), 3);
    assert_eq!(zipped.records.schema().field(0).name(), "a");
    assert_eq!(zipped.records.schema().field(1).name(), "b");
    let left = zipped.records.column(0).as_any().downcast_ref::<Int32Array>().unwrap().clone();
    let right = zipped.records.column(1).as_any().downcast_ref::<StringArray>().unwrap().clone();
    assert_eq!(left.values().to_vec(), vec![1, 2, 3]);
    assert_eq!(right.value(2), "z");
    assert_eq!(right.null_count(), 0);
}

#[test]
fn batches_of_different_lengths_give_an_empty_one() {
    let zipped =
        ZipStream::batch_zip(&numbers("a", vec![1, 2, 3]), &numbers("b", vec![1, 2])).unwrap();
    assert_eq!(zipped.records.num_rows(), 0);
    assert_eq!(zipped.records.num_columns(), 2);
    assert_eq!(zipped.records.schema().field(1).name(), "b");
}

#[test]
fn batches_with_a_common_column_do_not_go_together() {
    assert!(ZipStream::batch_zip(&numbers("a", vec![1]), &numbers("a", vec![2])).is_err());
}

#[test]
fn batches_with_metadata_at_odds_do_not_go_together() {
    let left = tagged(numbers("a", vec![1]), "1");
    let right = tagged(numbers("b", vec![2]), "2");
    assert!(ZipStream::batch_zip(&left, &right).is_err());
    let same = tagged(numbers("b", vec![2]), "1");
    let zipped = ZipStream::batch_zip(&left, &same).unwrap();
    assert_eq!(zipped.records.schema().metadata().get("origin").unwrap(), "1");
}

#[test]
fn a_new_stream_times_only_the_total() {
    let stream = stream();
    assert!(stream.metrics.time_elapsed_total.start.is_some());
    assert!(stream.metrics.time_elapsed_waiting.start.is_none());
    assert!(stream.metrics.time_elapsed_zipping.start.is_none());
    assert_eq!(stream.schema.fields().len(), 2);
}

#[test]
fn a_pending_input_is_waited_for() {
    let mut stream = stream();
    let polled: PolledPair<String> = None;
    let answer: PolledBatch<String> = stream.poll_next(polled);
    assert!(answer.is_none());
    let since = stream.metrics.time_elapsed_waiting.start.unwrap();
    let again: PolledBatch<String> = stream.poll_next(None);
    assert!(again.is_none());
    assert_eq!(stream.metrics.time_elapsed_waiting.start, Some(since));
    assert!(stream.metrics.time_elapsed_total.start.is_some());
}

#[test]
fn a_pair_of_batches_is_zipped_and_counted() {
    let mut stream = stream();
    let waiting: PolledBatch<String> = stream.poll_next(None);
    assert!(waiting.is_none());
    let polled: PolledPair<String> =
        Some(Some((Ok(numbers("a", vec![1, 2])), Ok(numbers("b", vec![3, 4])))));
    match stream.poll_next(polled) {
        Some(Some(Ok(batch))) => assert_eq!(batch.records.num_columns(), 2),
        _ => panic!("no batch"),
    }
    assert_eq!(stream.metrics.num_zips.value(), 1);
    assert!(stream.metrics.time_elapsed_waiting.start.is_none());
    assert!(stream.metrics.time_elapsed_zipping.start.is_none());
    assert!(stream.metrics.time_elapsed_total.start.is_some());
    assert!(stream.metrics.time_elapsed_waiting.metrics.value() > 0);
}

#[test]
fn batches_that_do_not_go_together_are_an_error() {
    let mut stream = stream();
    let polled: PolledPair<String> =
        Some(Some((Ok(numbers("a", vec![1])), Ok(numbers("a", vec![3])))));
    assert!(matches!(stream.poll_next(polled), Some(Some(Err(ZipStreamError::Zip(_))))));
}

#[test]
fn a_run_zips_pair_after_pair() {
    let mut stream = stream();
    let polls: Vec<PolledPair<String>> = vec![
        None,
        Some(Some((Ok(numbers("a", vec![1, 2])), Ok(numbers("b", vec![3, 4]))))),
        Some(Some((Err("lost".into()), Ok(numbers("b", vec![5]))))),
        None,
        None,
        Some(Some((Ok(numbers("a", vec![6])), Ok(numbers("b", vec![7]))))),
        Some(None),
    ];
    let mut rows = Vec::new();
    let mut errors = Vec::new();
    let mut ended = false;
    for polled in polls {
        match stream.poll_next(polled) {
            Some(Some(Ok(batch))) => rows.push(batch.records.num_rows()),
            Some(Some(Err(ZipStreamError::Input(error)))) => errors.push(error),
            Some(Some(Err(ZipStreamError::Zip(_)))) => panic!("not zipped"),
            Some(None) => ended = true,
            None => {}
        }
    }
    assert_eq!(rows, vec![2, 1]);
    assert_eq!(errors, vec!["lost"]);
    assert!(ended);
    assert_eq!(stream.metrics.num_zips.value(), 2);
}

#[test]
fn empty_batches_keep_the_fields_of_both() {
    let zipped =
        ZipStream::batch_zip(&numbers("a", vec![1, 2]), &words("b", vec!["x"])).unwrap();
    let schema = zipped.records.schema();
    assert_eq!(schema.field(0), &Field::new("a", DataType::Int32, false));
    assert_eq!(schema.field(1), &Field::new("b", DataType::Utf8, true));
    let shared =
        ZipStream::batch_zip(&numbers("a", vec![1, 2]), &numbers("a", vec![1])).unwrap();
    assert_eq!(shared.records.num_rows(), 0);
    assert_eq!(shared.records.num_columns(), 1);
    assert!(ZipStream::batch_zip(&numbers("a", vec![1, 2]), &words("a", vec!["x"])).is_err());
}

#[test]
fn the_error_of_the_left_input_comes_first() {
    let mut stream = stream();
    let polled: PolledPair<String> = Some(Some((Err("left".into()), Err("right".into()))));
    match stream.poll_next(polled) {
        Some(Some(Err(ZipStreamError::Input(error)))) => assert_eq!(error, "left"),
        _ => panic!("no error"),
    }
    assert!(stream.metrics.time_elapsed_total.start.is_none());
}

#[test]
fn the_error_of_the_right_input_is_handed_on() {
    let mut stream = stream();
    let polled: PolledPair<String> =
        Some(Some((Ok(numbers("a", vec![1])), Err("right".into()))));
    match stream.poll_next(polled) {
        Some(Some(Err(ZipStreamError::Input(error)))) => assert_eq!(error, "right"),
        _ => panic!("no error"),
    }
    assert!(stream.metrics.time_elapsed_total.start.is_none());
}

#[test]
fn the_end_stops_the_timers() {
    let mut stream = stream();
    let waiting: PolledBatch<String> = stream.poll_next(None);
    assert!(waiting.is_none());
    let answer: PolledBatch<String> = stream.poll_next(Some(None));
    assert!(matches!(answer, Some(None)));
    assert!(stream.metrics.time_elapsed_total.start.is_none());
    assert!(stream.metrics.time_elapsed_waiting.start.is_none());
    assert!(stream.metrics.time_elapsed_total.metrics.value() > 0);
}

#[test]
fn a_running_timer_keeps_its_start() {
    let metrics = ZipMetrics::new(&ExecutionPlanMetricsSet::new(), 3);
    let mut timer = metrics.time_elapsed_zipping;
    timer.stop();
    assert_eq!(timer.metrics.value(), 0);
    let now = Instant::now();
    timer.start_at(now);
    timer.start_at(now + Duration::from_secs(1));
    timer.start();
    assert_eq!(timer.start, Some(now));
    timer.stop();
    assert!(timer.start.is_none());
    assert!(timer.metrics.value() > 0);
}

#[test]
fn metrics_are_registered_under_their_names() {
    let set = ExecutionPlanMetricsSet::new();
    let metrics = ZipMetrics::new(&set, 2);
    metrics.num_zips.add(5);
    let registered = set.clone_inner();
    let names: Vec<String> =
        registered.iter().map(|metric| metric.value().name().to_string()).collect();
    assert_eq!(
        names,
        vec!["time_elapsed_waiting", "time_elapsed_zipping", "time_elapsed_total", "num_zips"]
    );
    assert!(registered.iter().all(|metric| metric.partition() == Some(2)));
    assert_eq!(registered.sum_by_name("num_zips").unwrap().as_usize(), 5);
}

/// A batch without rows, of a type of which arrow makes no empty column.
fn choices() -> Batch {
    let column = UnionArray::try_new(UnionFields::empty(), vec![].into(), None, vec![]).unwrap();
    let schema = Schema::new(vec![Field::new("u", column.data_type().clone(), false)]);
    let column: ArrayRef = Arc::new(column);
    Batch { records: RecordBatch::try_new(Arc::new(schema), vec![column]).unwrap() }
}

#[test]
fn batches_that_cannot_be_empty_have_to_be_of_one_length() {
    assert!(ZipStream::try_batch_zip(&choices(), &numbers("a", vec![1])).is_none());
    let zipped = ZipStream::try_batch_zip(&choices(), &numbers("a", vec![])).unwrap().unwrap();
    assert_eq!((zipped.records.num_rows(), zipped.records.num_columns()), (0, 2));
    let refused = ZipStream::try_batch_zip(&numbers("a", vec![1]), &words("a", vec![])).unwrap();
    assert!(refused.is_err());

    let mut stream = stream();
    let polled: PolledPair<String> = Some(Some((Ok(choices()), Ok(numbers("a", vec![1])))));
    assert!(stream.try_poll_next(polled).is_none());
    let polled: PolledPair<String> = Some(Some((Ok(choices()), Err("lost".into()))));
    assert!(matches!(
        stream.try_poll_next(polled),
        Some(Some(Some(Err(ZipStreamError::Input(error))))) if error == "lost"
    ));
    let polled: PolledPair<String> = Some(None);
    assert!(matches!(stream.try_poll_next(polled), Some(Some(None))));
}
