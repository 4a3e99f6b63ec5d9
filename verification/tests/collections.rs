use bytes::Bytes;
use datafusion::arrow::array::{ArrayRef, Int32Array, RecordBatch};
use datafusion::arrow::datatypes::{DataType, Field, Schema};
use datafusion::parquet::arrow::arrow_reader::ParquetRecordBatchReaderBuilder;
use datafusion::parquet::arrow::ArrowWriter;
use std::sync::Arc;
use zipped_tables::access::{ColumnChunk, RowGroup};
use zipped_tables::columns::{plan_columns, PlanNode, TableColumns, TableScan};
use zipped_tables::counts::{PairCount, PairCounts};
use zipped_tables::order::{rank_texts, Rank, TextSet};

fn scan(table: &str, columns: &[&str]) -> PlanNode {
    PlanNode {
        scan: Some(TableScan {
            table: table.to_string(),
            columns: columns.iter().map(|column| column.to_string()).collect(),
        }),
        inputs: vec![],
    }
}

fn over(inputs: Vec<PlanNode>) -> PlanNode {
    PlanNode { scan: None, inputs }
}

fn listed(columns: &TableColumns) -> Vec<(String, Vec<String>)> {
    columns
        .entries()
        .iter()
        .map(|entry| (entry.table.clone(), entry.columns.items().clone()))
        .collect()
}

fn entry(table: &str, columns: &[&str]) -> (String, Vec<String>) {
    (table.to_string(), columns.iter().map(|column| column.to_string()).collect())
}

fn counted(counts: &PairCounts) -> Vec<(&str, &str, u64)> {
    shown(counts.entries())
}

fn shown(list: &[PairCount]) -> Vec<(&str, &str, u64)> {
    list.iter().map(|e| (e.table.as_str(), e.column.as_str(), e.count)).collect()
}

fn group(chunks: &[(&str, i64)]) -> RowGroup {
    RowGroup {
        num_rows: 1,
        file_offset: Some(4),
        chunks: chunks
            .iter()
            .map(|(column, size)| ColumnChunk { column: column.to_string(), compressed_size: *size })
            .collect(),
    }
}

#[test]
fn texts_are_ordered_as_strings_are() {
    let texts = ["", "a", "ab", "b", "B", "\u{e4}", "\u{ffff}", "\u{10000}", "a\u{10ffff}"];
    for a in texts {
        for b in texts {
            let expected = if a == b {
                Rank::Same
            } else if a < b {
                Rank::Before
            } else {
                Rank::After
            };
            assert_eq!(rank_texts(a, b), expected, "{a:?} {b:?}");
        }
    }
}

#[test]
fn a_set_holds_each_text_once_in_order() {
    let mut set = TextSet::new();
    assert_eq!(set.len(), 0);
    for text in ["m", "a", "z", "m", "b", "a"] {
        set.insert(text);
    }
    assert_eq!(*set.items(), vec!["a", "b", "m", "z"]);
    assert_eq!(set.len(), 4);
}

#[test]
fn scans_anywhere_in_a_plan_are_found() {
    let plan = over(vec![
        over(vec![scan("orders", &["o_key", "o_date"]), scan("lineitem", &["l_key"])]),
        scan("lineitem", &["l_price", "l_key"]),
        scan("region", &[]),
    ]);
    let mut out = TableColumns::new();
    plan_columns(&plan, &mut out);
    assert_eq!(
        listed(&out),
        vec![
            entry("lineitem", &["l_key", "l_price"]),
            entry("orders", &["o_date", "o_key"]),
            entry("region", &[]),
        ]
    );
    assert_eq!(out.count(), Some(4));
}

#[test]
fn inputs_of_a_scan_are_walked_too() {
    let mut plan = scan("outer", &["x"]);
    plan.inputs.push(scan("inner", &["y"]));
    let mut out = TableColumns::new();
    plan_columns(&plan, &mut out);
    assert_eq!(listed(&out), vec![entry("inner", &["y"]), entry("outer", &["x"])]);
}

#[test]
fn plans_add_up_in_any_order() {
    let p = over(vec![scan("t", &["a", "c"]), scan("u", &["x"])]);
    let q = scan("t", &["b", "c"]);
    let mut one = TableColumns::new();
    plan_columns(&p, &mut one);
    plan_columns(&q, &mut one);
    let mut other = TableColumns::new();
    plan_columns(&q, &mut other);
    plan_columns(&p, &mut other);
    plan_columns(&p, &mut other);
    assert_eq!(listed(&one), listed(&other));
    assert_eq!(listed(&one), vec![entry("t", &["a", "b", "c"]), entry("u", &["x"])]);
}

#[test]
fn numbers_are_kept_by_pair() {
    let mut counts = PairCounts::new();
    assert!(counts.add("t", "b", 2));
    assert!(counts.add("t", "a", 1));
    assert!(counts.add("s", "z", 5));
    assert!(counts.add("t", "b", 3));
    assert_eq!(counted(&counts), vec![("s", "z", 5), ("t", "a", 1), ("t", "b", 5)]);
    assert_eq!(counts.get("t", "b"), 5);
    assert_eq!(counts.get("t", "c"), 0);
    assert_eq!(counts.get("a", "b"), 0);
    assert_eq!(counts.get("z", "b"), 0);
}

#[test]
fn a_sum_that_does_not_fit_is_refused() {
    let mut counts = PairCounts::new();
    assert!(counts.add("t", "a", u64::MAX));
    assert!(!counts.add("t", "a", 1));
    assert_eq!(counts.get("t", "a"), u64::MAX);
    assert!(counts.with_row_groups("t", &vec![group(&[("a", 1)])]).is_none());
}

#[test]
fn sizes_of_chunks_add_up_by_column() {
    let groups = vec![group(&[("a", 10), ("b", 7)]), group(&[("a", 5), ("b", 0)])];
    let sizes = PairCounts::new().with_row_groups("t", &groups).unwrap();
    assert_eq!(counted(&sizes), vec![("t", "a", 15), ("t", "b", 7)]);
    let more = sizes.with_row_groups("u", &vec![group(&[("a", 1)])]).unwrap();
    assert_eq!(counted(&more), vec![("t", "a", 15), ("t", "b", 7), ("u", "a", 1)]);
}

#[test]
fn row_groups_one_by_one_count_as_all_together() {
    let both = vec![group(&[("a", 10), ("b", 7)]), group(&[("a", 5)])];
    let together = PairCounts::new().with_row_groups("t", &both).unwrap();
    let apart = PairCounts::new()
        .with_row_groups("t", &vec![group(&[("a", 10), ("b", 7)])])
        .unwrap()
        .with_row_groups("t", &vec![group(&[("a", 5)])])
        .unwrap();
    assert_eq!(counted(&together), counted(&apart));
}

#[test]
fn a_negative_size_counts_as_its_bits_do() {
    let sizes = PairCounts::new().with_row_groups("t", &vec![group(&[("a", -1)])]).unwrap();
    assert_eq!(sizes.get("t", "a"), u64::MAX);
}

#[test]
fn sizes_are_read_from_a_footer() {
    let fields: Vec<Field> =
        ["x", "y"].iter().map(|column| Field::new(*column, DataType::Int32, false)).collect();
    let schema = Arc::new(Schema::new(fields));
    let mut writer = ArrowWriter::try_new(Vec::new(), Arc::clone(&schema), None).unwrap();
    for _ in 0..2 {
        let column: ArrayRef = Arc::new(Int32Array::from((0..50).collect::<Vec<i32>>()));
        let batch =
            RecordBatch::try_new(Arc::clone(&schema), vec![Arc::clone(&column), column]).unwrap();
        writer.write(&batch).unwrap();
        writer.flush().unwrap();
    }
    let bytes = Bytes::from(writer.into_inner().unwrap());
    let reader = ParquetRecordBatchReaderBuilder::try_new(bytes).unwrap();
    let metadata = reader.metadata();
    let sizes = PairCounts::new().with_footer("t", metadata).unwrap();
    for (i, column) in ["x", "y"].iter().enumerate() {
        let expected: i64 =
            metadata.row_groups().iter().map(|group| group.column(i).compressed_size()).sum();
        assert!(expected > 0);
        assert_eq!(sizes.get("t", column), expected as u64);
    }
    assert_eq!(sizes.entries().len(), 2);
}

#[test]
fn the_hottest_columns_come_first() {
    let mut counts = PairCounts::new();
    for (table, column, count) in
        [("t", "a", 1), ("t", "b", 3), ("s", "z", 3), ("u", "q", 2), ("s", "a", 3)]
    {
        assert!(counts.add(table, column, count));
    }
    assert_eq!(
        shown(&counts.hottest(10)),
        vec![("s", "a", 3), ("s", "z", 3), ("t", "b", 3), ("u", "q", 2), ("t", "a", 1)]
    );
    assert_eq!(shown(&counts.hottest(2)), vec![("s", "a", 3), ("s", "z", 3)]);
    assert!(counts.hottest(0).is_empty());
}
