//! Metrics that an operator reports: what is added to them, and under which names
//! they are reported.

use datafusion::physical_plan::metrics::{Count, ExecutionPlanMetricsSet, MetricBuilder, Time};
use std::time::Instant;
use vstd::prelude::*;

verus! {

/// A metric that adds up time.
#[verifier::external_type_specification]
#[verifier::external_body]
pub struct ExTime(Time);

/// A metric that counts.
#[verifier::external_type_specification]
#[verifier::external_body]
pub struct ExCount(Count);

/// A moment of a monotonic clock.
#[verifier::external_type_specification]
#[verifier::external_body]
pub struct ExInstant(Instant);

/// The metrics of one operator.
#[verifier::external_type_specification]
#[verifier::external_body]
pub struct ExExecutionPlanMetricsSet(ExecutionPlanMetricsSet);

/// `ExecutionPlanMetricsSet::new`: a set without metrics.
pub assume_specification[ ExecutionPlanMetricsSet::new ]() -> (metrics: ExecutionPlanMetricsSet)
;

/// `Instant::now`: the present moment.
pub assume_specification[ Instant::now ]() -> (now: Instant)
;

/// A set of metrics reports the timer under a name, for a partition.
pub uninterp spec fn reports_time(
    metrics: ExecutionPlanMetricsSet,
    name: Seq<char>,
    partition: usize,
    timer: Time,
) -> bool;

/// A set of metrics reports the count under a name, for a partition.
pub uninterp spec fn reports_count(
    metrics: ExecutionPlanMetricsSet,
    name: Seq<char>,
    partition: usize,
    count: Count,
) -> bool;

/// A set of metrics reports the count under a name, for the whole operator.
pub uninterp spec fn reports_overall(
    metrics: ExecutionPlanMetricsSet,
    name: Seq<char>,
    count: Count,
) -> bool;

/// The moments from which time was added to a metric, through the handle.
pub uninterp spec fn stretches(metric: Time) -> Seq<Instant>;

/// What was added to a metric, through the handle.
pub uninterp spec fn counted(metric: Count) -> nat;

/// Two handles are reported alike.
pub open spec fn reported_alike(a: Time, b: Time) -> bool {
    forall|set: ExecutionPlanMetricsSet, name: Seq<char>, partition: usize| #[trigger]
        reports_time(set, name, partition, b) == reports_time(set, name, partition, a)
}

/// `Time::add_elapsed`: adds the time since `start` to a metric, which is reported
/// as before.
#[verifier::external_body]
pub(crate) fn add_elapsed(metric: &mut Time, start: Instant)
    ensures
        stretches(*final(metric)) == stretches(*old(metric)).push(start),
        reported_alike(*old(metric), *final(metric)),
{
    metric.add_elapsed(start)
}

/// `Count::add`: adds to a metric, which is reported as before.
#[verifier::external_body]
pub(crate) fn add_to(metric: &mut Count, n: usize)
    ensures
        counted(*final(metric)) == counted(*old(metric)) + n,
        forall|set: ExecutionPlanMetricsSet, name: Seq<char>, partition: usize| #[trigger]
            reports_count(set, name, partition, *final(metric)) == reports_count(
                set,
                name,
                partition,
                *old(metric),
            ),
{
    metric.add(n)
}

/// `MetricBuilder::subset_time`: registers a new metric that adds up time. The set
/// reports it from then on, under the name and for the partition.
#[verifier::external_body]
pub(crate) fn subset_time(
    metrics: &ExecutionPlanMetricsSet,
    name: &'static str,
    partition: usize,
) -> (timer: Time)
    ensures
        reports_time(*metrics, name@, partition, timer),
        stretches(timer) == Seq::<Instant>::empty(),
{
    MetricBuilder::new(metrics).subset_time(name, partition)
}

/// `MetricBuilder::counter`: registers a new metric that counts. The set reports it
/// from then on, under the name and for the partition.
#[verifier::external_body]
pub(crate) fn counter(
    metrics: &ExecutionPlanMetricsSet,
    name: &'static str,
    partition: usize,
) -> (count: Count)
    ensures
        reports_count(*metrics, name@, partition, count),
        counted(count) == 0,
{
    MetricBuilder::new(metrics).counter(name, partition)
}

/// `MetricBuilder::global_counter`: registers a new metric that counts. The set
/// reports it from then on, under the name and for no partition.
#[verifier::external_body]
pub(crate) fn global_counter(metrics: &ExecutionPlanMetricsSet, name: &'static str) -> (count:
    Count)
    ensures
        reports_overall(*metrics, name@, count),
        counted(count) == 0,
{
    MetricBuilder::new(metrics).global_counter(name)
}

} // verus!
