use zipped_tables::split::split;

#[test]
fn ten_items_in_three_runs() {
    let items = [0, 1, 2, 3, 4, 5, 6, 7, 8, 9];
    let runs = split(&items, 3);
    assert_eq!(runs, vec![&items[0..4], &items[4..7], &items[7..10]]);
}

#[test]
fn runs_cover_all_items_in_order() {
    let items: Vec<u32> = (0..23).collect();
    for n in 1..30 {
        let runs = split(&items, n);
        let joined: Vec<u32> = runs.iter().flat_map(|run| run.iter().copied()).collect();
        assert_eq!(joined, items);
    }
}

#[test]
fn runs_differ_by_at_most_one_item() {
    let items: Vec<u32> = (0..23).collect();
    for n in 1..24 {
        let runs = split(&items, n);
        assert_eq!(runs.len(), n);
        let longest = runs.iter().map(|run| run.len()).max().unwrap();
        let shortest = runs.iter().map(|run| run.len()).min().unwrap();
        assert!(longest - shortest <= 1);
    }
}

#[test]
fn more_runs_than_items_leave_the_rest_out() {
    let items = [1, 2];
    let runs = split(&items, 5);
    assert_eq!(runs, vec![&items[0..1], &items[1..2]]);
}

#[test]
fn nothing_to_split_gives_no_run() {
    let items: [u8; 0] = [];
    assert!(split(&items, 4).is_empty());
}
