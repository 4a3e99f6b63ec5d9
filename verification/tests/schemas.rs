use datafusion::arrow::datatypes::{DataType, Field, Schema};
use std::collections::HashMap;
use std::sync::Arc;
use zipped_tables::schema::merge_all;

fn schema(columns: &[(&str, DataType)]) -> Schema {
    let fields: Vec<Field> =
        columns.iter().map(|(name, kind)| Field::new(*name, kind.clone(), true)).collect();
    Schema::new(fields)
}

fn tagged(columns: &[(&str, DataType)], key: &str, value: &str) -> Schema {
    schema(columns).with_metadata(HashMap::from([(key.to_string(), value.to_string())]))
}

fn names(schema: &Schema) -> Vec<String> {
    schema.fields().iter().map(|f| f.name().clone()).collect()
}

#[test]
fn columns_come_part_after_part() {
    let parts = vec![
        Arc::new(schema(&[("c", DataType::Int32), ("a", DataType::Utf8)])),
        Arc::new(schema(&[("b", DataType::Int64)])),
    ];
    let merged = merge_all(&parts).unwrap();
    assert_eq!(names(&merged), vec!["c", "a", "b"]);
    assert_eq!(merged.field(0).data_type(), &DataType::Int32);
    assert_eq!(merged.field(2).data_type(), &DataType::Int64);
}

#[test]
fn a_common_column_is_listed_once() {
    let parts = vec![
        Arc::new(schema(&[("key", DataType::Int32), ("x", DataType::Utf8)])),
        Arc::new(schema(&[("y", DataType::Int64), ("key", DataType::Int32)])),
    ];
    let merged = merge_all(&parts).unwrap();
    assert_eq!(names(&merged), vec!["key", "x", "y"]);
    assert_eq!(merged.field(0), &Field::new("key", DataType::Int32, true));
}

#[test]
fn columns_of_different_types_do_not_merge() {
    let parts = vec![
        Arc::new(schema(&[("x", DataType::Int32)])),
        Arc::new(schema(&[("x", DataType::Utf8)])),
    ];
    assert!(merge_all(&parts).is_err());
}

#[test]
fn metadata_is_united() {
    let parts = vec![
        Arc::new(tagged(&[("x", DataType::Int32)], "left", "1")),
        Arc::new(tagged(&[("y", DataType::Int32)], "right", "2")),
    ];
    let merged = merge_all(&parts).unwrap();
    assert_eq!(merged.metadata().get("left").unwrap(), "1");
    assert_eq!(merged.metadata().get("right").unwrap(), "2");
}

#[test]
fn metadata_at_odds_does_not_merge() {
    let parts = vec![
        Arc::new(tagged(&[("x", DataType::Int32)], "origin", "1")),
        Arc::new(tagged(&[("y", DataType::Int32)], "origin", "2")),
    ];
    assert!(merge_all(&parts).is_err());
}

#[test]
fn no_part_gives_no_column() {
    assert_eq!(names(&merge_all(&vec![]).unwrap()), Vec::<String>::new());
}

/// A schema of one column.
fn single(field: Field) -> Arc<Schema> {
    Arc::new(Schema::new(vec![field]))
}

fn noted(value: &str) -> Field {
    let notes = HashMap::from([("unit".to_string(), value.to_string())]);
    Field::new("x", DataType::Int32, false).with_metadata(notes)
}

#[test]
fn a_common_column_is_nullable_if_one_of_them_is() {
    let plain = single(Field::new("x", DataType::Int32, false));
    let nullable = single(Field::new("x", DataType::Int32, true));
    let merged = merge_all(&vec![Arc::clone(&plain), Arc::clone(&nullable)]).unwrap();
    assert_eq!(merged.field(0), &Field::new("x", DataType::Int32, true));
    let merged = merge_all(&vec![nullable, Arc::clone(&plain)]).unwrap();
    assert!(merged.field(0).is_nullable());
    let merged = merge_all(&vec![Arc::clone(&plain), plain]).unwrap();
    assert!(!merged.field(0).is_nullable());
}

#[test]
fn a_common_column_has_the_metadata_of_all() {
    let plain = single(Field::new("x", DataType::Int32, false));
    let merged = merge_all(&vec![plain, single(noted("m"))]).unwrap();
    assert_eq!(merged.field(0), &noted("m"));
    assert!(merge_all(&vec![single(noted("m")), single(noted("km"))]).is_err());
}

#[test]
fn common_columns_that_hold_others_merge_if_they_are_equal() {
    let words = |key: DataType| DataType::Dictionary(Box::new(key), Box::new(DataType::Utf8));
    let field = |t: DataType| single(Field::new("x", t, false));
    let merged = merge_all(&vec![field(words(DataType::Int8)), field(words(DataType::Int8))]);
    assert_eq!(merged.unwrap().field(0).data_type(), &words(DataType::Int8));
    assert!(merge_all(&vec![field(words(DataType::Int8)), field(words(DataType::Int16))]).is_err());
    let item = Arc::new(Field::new("item", DataType::Int32, true));
    let fixed = |size: i32| DataType::FixedSizeList(Arc::clone(&item), size);
    assert!(merge_all(&vec![field(fixed(2)), field(fixed(2))]).is_ok());
    assert!(merge_all(&vec![field(fixed(2)), field(fixed(3))]).is_err());
}
