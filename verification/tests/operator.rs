use datafusion::arrow::datatypes::{DataType, Field, Schema};
use datafusion::datasource::physical_plan::parquet::ParquetAccessPlan;
use std::collections::HashMap;
use std::sync::Arc;
use zipped_tables::exec::{
    boundedness_from_children, Boundedness, EmissionType, ZipExec, ZipInput,
};
use zipped_tables::scan::ZipPartitionInfo;
use zipped_tables::zip::ZipError;

const INFINITE: Boundedness = Boundedness::Unbounded { requires_infinite_memory: true };
const ENDLESS: Boundedness = Boundedness::Unbounded { requires_infinite_memory: false };

fn input(plan: &'static str, column: &str, partitions: usize) -> ZipInput<&'static str, usize> {
    ZipInput {
        plan,
        schema: Arc::new(Schema::new(vec![Field::new(column, DataType::Int32, false)])),
        partitioning: partitions,
        boundedness: Boundedness::Bounded,
    }
}

fn info(path: &str) -> Arc<ZipPartitionInfo> {
    Arc::new(ZipPartitionInfo::new(
        path.to_string(),
        9,
        ParquetAccessPlan::new_all(1),
        vec![(4, 9)],
    ))
}

#[test]
fn bounded_children_make_a_bounded_operator() {
    let bounded = Boundedness::Bounded;
    assert_eq!(boundedness_from_children(&vec![]), bounded);
    assert_eq!(boundedness_from_children(&vec![bounded, bounded]), bounded);
    assert_eq!(boundedness_from_children(&vec![bounded, ENDLESS]), ENDLESS);
    assert_eq!(boundedness_from_children(&vec![ENDLESS, bounded, INFINITE]), INFINITE);
}

#[test]
fn operator_puts_inputs_side_by_side() {
    let mut right = input("right", "b", 7);
    right.boundedness = ENDLESS;
    let operator =
        ZipExec::try_new(input("left", "a", 3), right, Some(info("x")), None).unwrap();
    assert_eq!(operator.schema.fields().len(), 2);
    assert_eq!(operator.schema.field(0).name(), "a");
    assert_eq!(operator.schema.field(1).name(), "b");
    assert_eq!(operator.cache.partitioning, 3);
    assert_eq!(operator.cache.emission, EmissionType::Incremental);
    assert_eq!(operator.cache.boundedness, ENDLESS);
    assert_eq!(operator.children(), vec![&"left", &"right"]);
    assert_eq!(operator.maintains_input_order(), vec![true, true]);
    assert_eq!(operator.left_info.as_ref().unwrap().path, "x");
    assert!(operator.right_info.is_none());
}

#[test]
fn new_children_keep_the_partition_info() {
    let operator = ZipExec::try_new(
        input("left", "a", 3),
        input("right", "b", 3),
        Some(info("x")),
        Some(info("y")),
    )
    .unwrap();
    let changed = operator
        .with_new_children(vec![input("first", "c", 2), input("second", "d", 5)])
        .unwrap();
    assert_eq!(changed.children(), vec![&"first", &"second"]);
    assert_eq!(changed.cache.partitioning, 2);
    assert_eq!(changed.schema.field(1).name(), "d");
    assert_eq!(changed.left_info.as_ref().unwrap().path, "x");
    assert_eq!(changed.right_info.as_ref().unwrap().path, "y");
}

#[test]
fn schemas_at_odds_make_no_operator() {
    let mut left = input("left", "a", 1);
    let mut right = input("right", "b", 1);
    let tag = |value: &str| HashMap::from([("origin".to_string(), value.to_string())]);
    left.schema = Arc::new(left.schema.as_ref().clone().with_metadata(tag("1")));
    right.schema = Arc::new(right.schema.as_ref().clone().with_metadata(tag("2")));
    let failed = ZipExec::try_new(left, right, None, None);
    assert!(matches!(failed, Err(ZipError::Merge(_))));
}

#[test]
fn a_common_column_that_agrees_is_listed_once() {
    let operator =
        ZipExec::try_new(input("left", "key", 1), input("right", "key", 1), None, None).unwrap();
    assert_eq!(operator.schema.fields().len(), 1);
    assert_eq!(operator.schema.field(0).data_type(), &DataType::Int32);
    assert!(!operator.schema.field(0).is_nullable());
}

#[test]
fn inputs_without_a_common_column_can_be_stitched_one_by_one() {
    let two = ZipExec::try_new(input("0", "a", 1), input("1", "b", 1), None, None).unwrap();
    let stitched = ZipInput {
        plan: "0+1",
        schema: Arc::clone(&two.schema),
        partitioning: two.cache.partitioning,
        boundedness: two.cache.boundedness,
    };
    let three = ZipExec::try_new(stitched, input("2", "c", 1), None, None).unwrap();
    let names: Vec<&str> =
        three.schema.fields().iter().map(|field| field.name().as_str()).collect();
    assert_eq!(names, vec!["a", "b", "c"]);
}
