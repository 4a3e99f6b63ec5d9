use datafusion::datasource::physical_plan::parquet::ParquetAccessPlan;
use datafusion::datasource::physical_plan::FileGroup;
use zipped_tables::partition::partition_file;

fn ranges_of(groups: &[FileGroup]) -> Vec<(i64, i64)> {
    groups
        .iter()
        .map(|group| {
            assert_eq!(group.files().len(), 1);
            let range = group.files()[0].range.clone().unwrap();
            (range.start, range.end)
        })
        .collect()
}

#[test]
fn row_groups_are_divided_by_offset() {
    let ranges = vec![(300, 400), (4, 100), (100, 200), (200, 300), (400, 500)];
    let groups =
        partition_file("data/part.parquet".into(), 600, ranges, 2, ParquetAccessPlan::new_all(5));
    assert_eq!(ranges_of(&groups), vec![(4, 300), (300, 500)]);
}

#[test]
fn one_partition_spans_the_whole_file() {
    let ranges = vec![(100, 200), (4, 100)];
    let groups = partition_file("t".into(), 200, ranges, 1, ParquetAccessPlan::new_all(2));
    assert_eq!(ranges_of(&groups), vec![(4, 200)]);
}

#[test]
fn no_partition_is_empty() {
    let ranges = vec![(4, 10), (10, 20)];
    let groups = partition_file("t".into(), 20, ranges, 8, ParquetAccessPlan::new_all(2));
    assert_eq!(ranges_of(&groups), vec![(4, 10), (10, 20)]);
    let none = partition_file("t".into(), 20, vec![], 8, ParquetAccessPlan::new_all(0));
    assert!(none.is_empty());
}

#[test]
fn ranges_that_start_together_keep_their_order() {
    let ranges = vec![(4, 9), (4, 4), (4, 7)];
    let groups = partition_file("t".into(), 9, ranges, 3, ParquetAccessPlan::new_all(3));
    assert_eq!(ranges_of(&groups), vec![(4, 9), (4, 4), (4, 7)]);
}

#[test]
fn files_carry_location_size_and_plan() {
    let mut plan = ParquetAccessPlan::new_all(2);
    plan.skip(1);
    let groups = partition_file("/tmp/a file%.parquet".into(), 77, vec![(4, 9)], 3, plan.clone());
    let file = &groups[0].files()[0];
    assert_eq!(file.object_meta.location.as_ref(), "tmp/a file%25.parquet");
    assert_eq!(file.object_meta.size, 77);
    let attached = file.extensions.clone().unwrap().downcast::<ParquetAccessPlan>().unwrap();
    assert_eq!(*attached, plan);
}

#[test]
fn each_row_group_belongs_to_one_partition() {
    let ranges: Vec<(i64, i64)> = (0..7).map(|i| (4 + 10 * i, 14 + 10 * i)).collect();
    let groups = partition_file("t".into(), 74, ranges.clone(), 3, ParquetAccessPlan::new_all(7));
    let parts = ranges_of(&groups);
    for (start, _) in ranges {
        let owners = parts.iter().filter(|(from, to)| *from <= start && start < *to).count();
        assert_eq!(owners, 1);
    }
}

#[test]
fn files_with_the_same_row_groups_are_cut_alike() {
    let narrow: Vec<(i64, i64)> = (0..7).map(|i| (4 + i, 5 + i)).collect();
    let wide: Vec<(i64, i64)> = (0..7).map(|i| (4 + 100 * i, 104 + 100 * i)).collect();
    let a = partition_file("a".into(), 11, narrow, 3, ParquetAccessPlan::new_all(7));
    let b = partition_file("b".into(), 704, wide, 3, ParquetAccessPlan::new_all(7));
    assert_eq!(ranges_of(&a), vec![(4, 7), (7, 9), (9, 11)]);
    assert_eq!(ranges_of(&b), vec![(4, 304), (304, 504), (504, 704)]);
}
