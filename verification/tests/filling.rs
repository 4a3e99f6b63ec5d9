use datafusion::arrow::array::{new_null_array, Array};
use datafusion::arrow::datatypes::{
    DataType, Field, Fields, IntervalUnit, Schema, TimeUnit, UnionFields, UnionMode,
};
use std::sync::Arc;
use zipped_tables::types::{all_can_be_empty, can_fill};

fn item(data_type: DataType) -> Arc<Field> {
    Arc::new(Field::new("item", data_type, true))
}

fn entries(types: Vec<DataType>) -> Arc<Field> {
    let fields: Vec<Field> =
        types.into_iter().enumerate().map(|(i, t)| Field::new(format!("f{i}"), t, true)).collect();
    item(DataType::Struct(fields.into()))
}

fn union(types: Vec<DataType>, mode: UnionMode) -> DataType {
    let fields: Vec<Field> =
        types.into_iter().enumerate().map(|(i, t)| Field::new(format!("f{i}"), t, true)).collect();
    DataType::Union(UnionFields::try_from_fields(fields).unwrap(), mode)
}

fn dictionary(key: DataType, value: DataType) -> DataType {
    DataType::Dictionary(Box::new(key), Box::new(value))
}

fn runs(end: DataType, value: DataType) -> DataType {
    DataType::RunEndEncoded(Arc::new(Field::new("run_ends", end, false)), item(value))
}

#[test]
fn columns_that_can_be_filled_are_filled() {
    let types = vec![
        DataType::Null,
        DataType::Boolean,
        DataType::Int8,
        DataType::UInt64,
        DataType::Float64,
        DataType::Decimal32(9, 2),
        DataType::Decimal256(76, 0),
        DataType::Time32(TimeUnit::Second),
        DataType::Time64(TimeUnit::Nanosecond),
        DataType::Timestamp(TimeUnit::Second, None),
        DataType::Interval(IntervalUnit::MonthDayNano),
        DataType::Utf8,
        DataType::LargeBinary,
        DataType::Utf8View,
        DataType::FixedSizeBinary(0),
        DataType::FixedSizeBinary(3),
        DataType::List(item(DataType::Int32)),
        DataType::LargeListView(item(DataType::Utf8)),
        DataType::FixedSizeList(item(DataType::Int32), 4),
        DataType::Map(entries(vec![DataType::Utf8, DataType::Int32]), false),
        DataType::Struct(Fields::empty()),
        DataType::Struct(vec![Field::new("a", DataType::Int32, false)].into()),
        union(vec![DataType::Int32, DataType::Utf8], UnionMode::Sparse),
        union(vec![DataType::Int32, DataType::Utf8], UnionMode::Dense),
        dictionary(DataType::UInt16, DataType::Utf8),
        runs(DataType::Int16, DataType::Utf8),
    ];
    for data_type in types {
        for len in [0, 1, 5] {
            assert!(can_fill(&data_type, len), "{data_type:?}");
            assert_eq!(new_null_array(&data_type, len).len(), len);
        }
    }
}

#[test]
fn columns_that_cannot_be_filled_are_told() {
    let types = vec![
        DataType::Time32(TimeUnit::Microsecond),
        DataType::Time32(TimeUnit::Nanosecond),
        DataType::Time64(TimeUnit::Second),
        DataType::Time64(TimeUnit::Millisecond),
        DataType::FixedSizeBinary(-1),
        DataType::Map(item(DataType::Int32), false),
        DataType::Map(entries(vec![DataType::Utf8]), false),
        union(vec![], UnionMode::Sparse),
        union(vec![], UnionMode::Dense),
        dictionary(DataType::Utf8, DataType::Utf8),
        dictionary(DataType::Float32, DataType::Utf8),
        dictionary(DataType::Int8, union(vec![], UnionMode::Sparse)),
        runs(DataType::Int8, DataType::Utf8),
        runs(DataType::Int32, DataType::FixedSizeList(item(DataType::Int32), -1)),
        DataType::List(item(DataType::Time64(TimeUnit::Second))),
        DataType::Struct(vec![Field::new("a", DataType::FixedSizeBinary(-2), true)].into()),
        union(vec![DataType::Int32, DataType::FixedSizeBinary(-2)], UnionMode::Dense),
    ];
    for data_type in types {
        assert!(!can_fill(&data_type, 0), "{data_type:?}");
        assert!(!can_fill(&data_type, 3), "{data_type:?}");
    }
}

#[test]
fn some_columns_can_only_be_empty() {
    let negative = DataType::FixedSizeList(item(DataType::Int32), -1);
    assert!(can_fill(&negative, 0));
    assert_eq!(new_null_array(&negative, 0).len(), 0);
    assert!(!can_fill(&negative, 1));
    let wide = DataType::FixedSizeBinary(i32::MAX);
    assert!(can_fill(&wide, 0) && can_fill(&wide, 1) && !can_fill(&wide, 2));
    let short = runs(DataType::Int16, DataType::Int32);
    assert!(can_fill(&short, 32_767) && !can_fill(&short, 32_768));
    let dense = union(vec![DataType::Int32, negative], UnionMode::Dense);
    assert!(can_fill(&dense, 1));
    assert_eq!(new_null_array(&dense, 1).len(), 1);
    assert!(!can_fill(&DataType::Int64, usize::MAX / 64));
}

#[test]
fn a_schema_can_be_empty_if_all_columns_can() {
    let schema = |t: DataType| {
        Schema::new(vec![Field::new("a", DataType::Int32, false), Field::new("b", t, true)])
    };
    assert!(all_can_be_empty(&schema(DataType::Utf8)));
    assert!(!all_can_be_empty(&schema(union(vec![], UnionMode::Sparse))));
    assert!(all_can_be_empty(&Schema::empty()));
}
