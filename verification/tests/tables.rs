use bytes::Bytes;
use datafusion::arrow::array::{ArrayRef, Decimal128Array, Int32Array, RecordBatch};
use datafusion::arrow::datatypes::{DataType, Field, Schema};
use datafusion::datasource::physical_plan::parquet::ParquetAccessPlan;
use datafusion::logical_expr::Operator;
use datafusion::parquet::arrow::arrow_reader::ParquetRecordBatchReaderBuilder;
use datafusion::parquet::arrow::ArrowWriter;
use datafusion::parquet::data_type::{ByteArray, FixedLenByteArray};
use datafusion::parquet::file::metadata::{
    ParquetMetaData, ParquetMetaDataBuilder, RowGroupMetaData,
};
use datafusion::parquet::file::statistics::Statistics;
use datafusion::physical_expr::expressions::{binary, col, lit};
use datafusion::physical_optimizer::pruning::build_pruning_predicate;
use datafusion::physical_plan::metrics::Count;
use datafusion::scalar::ScalarValue;
use std::collections::HashMap;
use std::sync::Arc;
use zipped_tables::access::{
    count_rows, ColumnChunk, Filter, RowGroup, RowGroupAccess, RowSelector,
};
use zipped_tables::scan::{ScanNode, ScanOutline};
use zipped_tables::zip::{
    file_name, FilterPushDown, ZipError, ZippedFile, ZippedTableProvider,
};

/// A parquet file with `groups` row groups of `rows` rows each. The columns count
/// up from zero.
fn file(name: &str, columns: &[&str], groups: i32, rows: i32) -> ZippedFile {
    let (metadata, schema, size) = footer(columns, groups, rows);
    ZippedFile::try_new(name.to_string(), format!("/data/{name}"), size, metadata, schema).unwrap()
}

fn footer(columns: &[&str], groups: i32, rows: i32) -> (Arc<ParquetMetaData>, Arc<Schema>, u64) {
    let fields: Vec<Field> =
        columns.iter().map(|column| Field::new(*column, DataType::Int32, false)).collect();
    let schema = Arc::new(Schema::new(fields));
    let mut writer = ArrowWriter::try_new(Vec::new(), Arc::clone(&schema), None).unwrap();
    for group in 0..groups {
        let arrays: Vec<ArrayRef> = columns
            .iter()
            .map(|_| {
                let values: Vec<i32> = (group * rows..(group + 1) * rows).collect();
                Arc::new(Int32Array::from(values)) as ArrayRef
            })
            .collect();
        writer.write(&RecordBatch::try_new(Arc::clone(&schema), arrays).unwrap()).unwrap();
        writer.flush().unwrap();
    }
    let bytes = Bytes::from(writer.into_inner().unwrap());
    let size = bytes.len() as u64;
    let reader = ParquetRecordBatchReaderBuilder::try_new(bytes).unwrap();
    (Arc::clone(reader.metadata()), Arc::clone(reader.schema()), size)
}

fn table() -> ZippedTableProvider {
    ZippedTableProvider::try_new(vec![
        file("t_b0.parquet", &["a", "b"], 4, 10),
        file("t_b1.parquet", &["c"], 4, 10),
    ])
    .unwrap()
}

/// `column <op> bound`, over the columns of the table.
fn holds(provider: &ZippedTableProvider, column: &str, op: Operator, bound: i32) -> Filter {
    let schema = provider.schema();
    let left = col(column, &schema).unwrap();
    Filter { expr: binary(left, op, lit(bound), &schema).unwrap() }
}

/// A filter that all rows meet.
fn always() -> Filter {
    Filter { expr: lit(true) }
}

#[test]
fn a_file_knows_its_row_groups() {
    let (metadata, schema, size) = footer(&["a", "b"], 3, 10);
    let file = ZippedFile::try_new(
        "t.parquet".into(),
        "/data/t.parquet".into(),
        size,
        Arc::clone(&metadata),
        Arc::clone(&schema),
    )
    .unwrap();
    assert_eq!(file.row_groups().len(), 3);
    assert_eq!(file.row_group_ranges().len(), 3);
    assert_eq!(file.row_group_ranges()[0].0, 4);
    for (i, range) in file.row_group_ranges().iter().enumerate() {
        let group = metadata.row_group(i);
        assert_eq!(range.0, group.file_offset().unwrap());
        assert_eq!(range.1, group.file_offset().unwrap() + group.compressed_size());
        assert_eq!(file.row_groups()[i].num_rows, 10);
        assert_eq!(file.row_groups()[i].chunks[1].column, "b");
    }
    assert_eq!(file.scan_all_plan(), ParquetAccessPlan::new_all(3));
    assert_eq!(file.path(), "/data/t.parquet");
    assert_eq!(*file.schema(), schema);
}

#[test]
fn a_row_group_without_an_offset_is_refused() {
    let (metadata, schema, size) = footer(&["a"], 1, 10);
    let group = metadata.row_group(0);
    let without = RowGroupMetaData::builder(group.schema_descr_ptr())
        .set_column_metadata(group.columns().to_vec())
        .set_num_rows(10)
        .build()
        .unwrap();
    assert!(without.file_offset().is_none());
    let broken = ParquetMetaDataBuilder::new(metadata.file_metadata().clone())
        .add_row_group(without)
        .build();
    let refused =
        ZippedFile::try_new("t".into(), "/t".into(), size, Arc::new(broken), schema);
    assert!(matches!(refused, Err(ZipError::Footer)));
}

#[test]
fn a_table_has_the_columns_of_all_files() {
    let provider = table();
    let schema = provider.schema();
    let names: Vec<&str> =
        schema.fields().iter().map(|field| field.name().as_str()).collect();
    assert_eq!(names, vec!["a", "b", "c"]);
    assert_eq!(provider.statistics(), Some(40));
}

#[test]
fn files_with_metadata_at_odds_make_no_table() {
    let tagged = |column: &str, value: &str| {
        let (metadata, schema, size) = footer(&[column], 1, 1);
        let tag = HashMap::from([("origin".to_string(), value.to_string())]);
        let schema = Arc::new(schema.as_ref().clone().with_metadata(tag));
        ZippedFile::try_new(column.into(), column.into(), size, metadata, schema).unwrap()
    };
    let refused = ZippedTableProvider::try_new(vec![tagged("a", "1"), tagged("b", "2")]);
    assert!(matches!(refused, Err(ZipError::Merge(_))));
}

#[test]
fn files_may_share_a_column_that_agrees() {
    let provider = ZippedTableProvider::try_new(vec![
        file("l", &["key", "a"], 1, 1),
        file("r", &["key", "b"], 1, 1),
    ])
    .unwrap();
    let schema = provider.schema();
    let names: Vec<&str> = schema.fields().iter().map(|field| field.name().as_str()).collect();
    assert_eq!(names, vec!["key", "a", "b"]);
    assert_eq!(schema.field(0).data_type(), &DataType::Int32);
    assert!(!schema.field(0).is_nullable());
}

#[test]
fn a_table_without_files_is_empty() {
    let provider = ZippedTableProvider::try_new(vec![]).unwrap();
    assert_eq!(provider.statistics(), Some(0));
    let plan = provider.create_plan(&always()).unwrap();
    assert_eq!(plan, ParquetAccessPlan::new_none(0));
    assert_eq!(provider.estimate_rows(&plan), 0);
    let outline = provider.scan(&always(), None, None, 0).unwrap();
    assert!(outline.scans.is_empty());
    assert_eq!(outline.root, ScanNode::Empty);
}

#[test]
fn without_predicates_all_is_read() {
    let provider = table();
    let plan = provider.create_plan(&always()).unwrap();
    let nothing = provider.prune(&vec![None, None]);
    assert_eq!(nothing, plan);
    assert_eq!(plan, ParquetAccessPlan::new_all(4));
    assert_eq!(provider.estimate_rows(&plan), 40);
}

#[test]
fn row_groups_that_a_file_rules_out_are_skipped() {
    let provider = table();
    let plan = provider.create_plan(&holds(&provider, "c", Operator::Gt, 19)).unwrap();
    let mut expected = ParquetAccessPlan::new_all(4);
    expected.skip(0);
    expected.skip(1);
    assert_eq!(plan, expected);
    assert_eq!(provider.estimate_rows(&plan), 20);
    assert_eq!(provider.try_estimate_rows(&plan), Some(20));
}

#[test]
fn what_any_file_rules_out_is_skipped() {
    let provider = table();
    let low = holds(&provider, "a", Operator::Gt, 19);
    let high = holds(&provider, "c", Operator::Lt, 30);
    let both = binary(low.expr, Operator::And, high.expr, &provider.schema()).unwrap();
    let mut expected = ParquetAccessPlan::new_none(4);
    expected.scan(2);
    assert_eq!(provider.create_plan(&Filter { expr: both }), Some(expected));
}

#[test]
fn predicates_are_held_against_their_files() {
    let provider = table();
    let errors = Count::new();
    let files = provider.zipped_files();
    let build = |i: usize, column: &str, op: Operator, bound: i32| {
        let schema = files[i].schema();
        let predicate = binary(col(column, schema).unwrap(), op, lit(bound), schema).unwrap();
        build_pruning_predicate(predicate, schema, &errors)
    };
    let predicates = vec![build(0, "a", Operator::Gt, 9), build(1, "c", Operator::Lt, 30)];
    assert!(predicates.iter().all(|predicate| predicate.is_some()));
    let mut expected = ParquetAccessPlan::new_none(4);
    expected.scan(1);
    expected.scan(2);
    assert_eq!(provider.prune(&predicates), expected);
}

#[test]
fn files_out_of_step_cannot_be_pruned() {
    let provider = ZippedTableProvider::try_new(vec![
        file("l", &["a"], 2, 5),
        file("r", &["b"], 1, 10),
    ])
    .unwrap();
    assert_eq!(provider.create_plan(&holds(&provider, "b", Operator::Gt, 3)), None);
    assert!(provider.scan(&holds(&provider, "b", Operator::Gt, 3), None, None, 1).is_none());
    let plan = provider.create_plan(&holds(&provider, "a", Operator::Gt, 5)).unwrap();
    let mut expected = ParquetAccessPlan::new_none(2);
    expected.scan(1);
    assert_eq!(plan, expected);
}

#[test]
fn a_predicate_may_rule_all_out() {
    let provider = table();
    let plan = provider.create_plan(&holds(&provider, "a", Operator::Gt, 100)).unwrap();
    assert_eq!(plan, ParquetAccessPlan::new_none(4));
    assert_eq!(provider.estimate_rows(&plan), 0);
}

#[test]
fn filters_are_applied_to_row_groups_only() {
    let provider = table();
    assert_eq!(provider.supports_filters_pushdown(3), vec![FilterPushDown::Inexact; 3]);
    assert_eq!(provider.supports_filters_pushdown(0), vec![]);
}

#[test]
fn rows_of_a_plan_are_counted() {
    let groups: Vec<RowGroup> = [10, 20, 30]
        .iter()
        .map(|rows| RowGroup {
            num_rows: *rows,
            file_offset: None,
            chunks: vec![ColumnChunk { column: "a".into(), compressed_size: 1 }],
        })
        .collect();
    let selection = vec![
        RowSelector { row_count: 4, skip: false },
        RowSelector { row_count: 20, skip: true },
        RowSelector { row_count: 6, skip: false },
    ];
    let list = vec![
        RowGroupAccess::Scan,
        RowGroupAccess::Skip,
        RowGroupAccess::Selection(selection),
    ];
    assert_eq!(count_rows(&groups, &list), Some(20));
    assert_eq!(count_rows(&groups, &vec![RowGroupAccess::Scan]), Some(10));
    let huge = vec![RowGroupAccess::Selection(vec![
        RowSelector { row_count: usize::MAX, skip: false },
        RowSelector { row_count: 1, skip: false },
    ])];
    assert_eq!(count_rows(&groups, &huge), None);
}

#[test]
fn selected_rows_of_a_plan_are_counted() {
    let provider = table();
    let mut plan = ParquetAccessPlan::new_none(4);
    plan.scan(2);
    assert_eq!(provider.estimate_rows(&plan), 10);
}

#[test]
fn a_scan_reads_the_files_that_hold_a_requested_column() {
    let provider = table();
    let outline = provider.scan(&always(), Some(&vec![1]), Some(7), 2).unwrap();
    assert_eq!(outline.scans.len(), 1);
    assert_eq!(outline.root, ScanNode::Source(0));
    let scan = &outline.scans[0];
    assert_eq!(scan.file, 0);
    assert_eq!(scan.projection, Some(vec![1]));
    assert_eq!(scan.limit, Some(7));
    assert_eq!(scan.num_rows, 40);
    assert_eq!(scan.file_groups.len(), 2);
    let range = scan.file_groups[0].files()[0].range.clone().unwrap();
    assert_eq!(range.start, provider.zipped_files()[0].row_group_ranges()[0].0);
    assert_eq!(range.end, provider.zipped_files()[0].row_group_ranges()[1].1);
    assert_eq!(scan.info.path, "/data/t_b0.parquet");
    assert_eq!(scan.info.row_group_ranges, *provider.zipped_files()[0].row_group_ranges());
}

#[test]
fn a_scan_of_columns_of_both_files_zips_them() {
    let provider = table();
    let outline = provider.scan(&always(), Some(&vec![2, 0]), None, 3).unwrap();
    assert_eq!(outline.scans.len(), 2);
    assert_eq!(outline.scans[0].projection, Some(vec![0]));
    assert_eq!(outline.scans[1].projection, Some(vec![0]));
    assert_eq!(
        outline.root,
        ScanNode::Zip {
            left: Box::new(ScanNode::Source(0)),
            right: Box::new(ScanNode::Source(1)),
            left_info: Some(0),
            right_info: Some(1),
        }
    );
}

#[test]
fn every_scan_uses_the_same_access_plan() {
    let provider = table();
    let outline = provider.scan(&holds(&provider, "a", Operator::Gt, 29), None, None, 1).unwrap();
    let mut expected = ParquetAccessPlan::new_none(4);
    expected.scan(3);
    assert_eq!(outline.scans.len(), 2);
    for scan in &outline.scans {
        assert_eq!(scan.projection, None);
        assert_eq!(scan.num_rows, 10);
        assert_eq!(scan.info.access_plan, expected);
        let attached = scan.file_groups[0].files()[0].extensions.clone().unwrap();
        assert_eq!(*attached.downcast::<ParquetAccessPlan>().unwrap(), expected);
    }
}

#[test]
fn an_empty_projection_reads_no_file() {
    let provider = table();
    let outline = provider.scan(&always(), Some(&vec![]), None, 2).unwrap();
    assert!(outline.scans.is_empty());
    assert_eq!(outline.root, ScanNode::Empty);
}

fn three_files() -> ZippedTableProvider {
    ZippedTableProvider::try_new(vec![
        file("t_c0.parquet", &["a", "b"], 1, 5),
        file("t_c1.parquet", &["c"], 1, 5),
        file("t_c2.parquet", &["d", "e"], 1, 5),
    ])
    .unwrap()
}

/// The columns that the scans read, in the order in which a node lists them.
fn listed(provider: &ZippedTableProvider, outline: &ScanOutline, node: &ScanNode) -> Vec<String> {
    match node {
        ScanNode::Empty => vec![],
        ScanNode::Source(scan) => {
            let scan = &outline.scans[*scan];
            let schema = provider.zipped_files()[scan.file].schema();
            let all: Vec<usize> = (0..schema.fields().len()).collect();
            let picked = scan.projection.clone().unwrap_or(all);
            picked.iter().map(|i| schema.field(*i).name().clone()).collect()
        }
        ScanNode::Zip { left, right, .. } => {
            let mut names = listed(provider, outline, left);
            names.extend(listed(provider, outline, right));
            names
        }
    }
}

#[test]
fn later_files_are_put_to_the_right() {
    let provider = three_files();
    let outline = provider.scan_with_plan(&ParquetAccessPlan::new_all(1), None, None, 4);
    assert_eq!(outline.scans.len(), 3);
    assert_eq!(
        outline.root,
        ScanNode::Zip {
            left: Box::new(ScanNode::Zip {
                left: Box::new(ScanNode::Source(0)),
                right: Box::new(ScanNode::Source(1)),
                left_info: Some(0),
                right_info: Some(1),
            }),
            right: Box::new(ScanNode::Source(2)),
            left_info: None,
            right_info: Some(2),
        }
    );
}

#[test]
fn a_full_scan_lists_columns_as_the_table_does() {
    let provider = three_files();
    let outline = provider.scan(&always(), None, None, 2).unwrap();
    let schema = provider.schema();
    let names: Vec<String> = schema.fields().iter().map(|field| field.name().clone()).collect();
    assert_eq!(names, vec!["a", "b", "c", "d", "e"]);
    assert_eq!(listed(&provider, &outline, &outline.root), names);
}

#[test]
fn requested_columns_are_listed_in_the_order_of_the_table() {
    let provider = three_files();
    let outline = provider.scan(&always(), Some(&vec![1, 2, 4]), None, 2).unwrap();
    assert_eq!(listed(&provider, &outline, &outline.root), vec!["b", "c", "e"]);
    let outline = provider.scan(&always(), Some(&vec![0, 3]), None, 2).unwrap();
    assert_eq!(outline.scans.len(), 2);
    assert_eq!(listed(&provider, &outline, &outline.root), vec!["a", "d"]);
}

#[test]
fn a_footer_without_all_chunks_is_refused() {
    let (two, schema, size) = footer(&["a", "b"], 1, 10);
    let (one, _, _) = footer(&["a"], 1, 10);
    let broken = ParquetMetaData::new(two.file_metadata().clone(), one.row_groups().to_vec());
    let refused = ZippedFile::try_new("t".into(), "/t".into(), size, Arc::new(broken), schema);
    assert!(matches!(refused, Err(ZipError::Footer)));
}

/// The footer and the schema of a file with numbers `n` and decimals `d`, where `bound`
/// is kept as the lower bound of the decimals.
fn decimals(bound: Option<FixedLenByteArray>) -> (Arc<ParquetMetaData>, Arc<Schema>) {
    let schema = Arc::new(Schema::new(vec![
        Field::new("n", DataType::Int32, false),
        Field::new("d", DataType::Decimal128(38, 0), false),
    ]));
    let values = Decimal128Array::from(vec![3, 4]).with_precision_and_scale(38, 0).unwrap();
    let columns: Vec<ArrayRef> = vec![Arc::new(Int32Array::from(vec![1, 2])), Arc::new(values)];
    let mut writer = ArrowWriter::try_new(Vec::new(), Arc::clone(&schema), None).unwrap();
    writer.write(&RecordBatch::try_new(Arc::clone(&schema), columns).unwrap()).unwrap();
    let bytes = Bytes::from(writer.into_inner().unwrap());
    let metadata =
        Arc::clone(ParquetRecordBatchReaderBuilder::try_new(bytes).unwrap().metadata());
    let group = metadata.row_group(0).clone();
    let mut chunks = group.columns().to_vec();
    let kept = Statistics::fixed_len_byte_array(bound, None, None, Some(0), false);
    chunks[1] = chunks[1].clone().into_builder().set_statistics(kept).build().unwrap();
    let group = group.into_builder().set_column_metadata(chunks).build().unwrap();
    let changed = metadata.as_ref().clone().into_builder().set_row_groups(vec![group]).build();
    (Arc::new(changed), schema)
}

/// How a file of decimals is read where `d` is above five, and where `n` is.
fn plans_above(bound: Option<Vec<u8>>) -> Vec<Option<ParquetAccessPlan>> {
    let (metadata, schema) = decimals(bound.map(|bytes| ByteArray::from(bytes).into()));
    let file = ZippedFile::try_new("t".into(), "/t".into(), 1, metadata, schema).unwrap();
    let provider = ZippedTableProvider::try_new(vec![file]).unwrap();
    let schema = provider.schema();
    let five = lit(ScalarValue::Decimal128(Some(5), 38, 0));
    let above = binary(col("d", &schema).unwrap(), Operator::Lt, five, &schema).unwrap();
    let other = holds(&provider, "n", Operator::Gt, 5);
    vec![provider.create_plan(&Filter { expr: above }), provider.create_plan(&other)]
}

#[test]
fn statistics_have_to_have_a_length_that_can_be_read() {
    let (all, none) =
        (Some(ParquetAccessPlan::new_all(1)), Some(ParquetAccessPlan::new_none(1)));
    assert_eq!(plans_above(None), vec![all.clone(), none.clone()]);
    assert_eq!(plans_above(Some(vec![4])), vec![all.clone(), none.clone()]);
    assert_eq!(plans_above(Some(vec![6])), vec![none.clone(), none.clone()]);
    assert_eq!(plans_above(Some(vec![0; 16])), vec![all, none.clone()]);
    assert_eq!(plans_above(Some(vec![])), vec![None, none.clone()]);
    assert_eq!(plans_above(Some(vec![0; 17])), vec![None, none]);
}

#[test]
fn statistics_without_bytes_are_refused() {
    let (metadata, schema) = decimals(Some(FixedLenByteArray::default()));
    let refused = ZippedFile::try_new("t".into(), "/t".into(), 1, metadata, schema);
    assert!(matches!(refused, Err(ZipError::Footer)));
}

#[test]
fn a_path_ends_in_the_name_of_a_file() {
    assert_eq!(file_name("/data/tpch/part_b0.parquet").unwrap(), "part_b0.parquet");
    assert_eq!(file_name("part.parquet").unwrap(), "part.parquet");
    assert!(matches!(file_name("/data/.."), Err(ZipError::Path)));
    assert!(matches!(file_name("/"), Err(ZipError::Path)));
}
