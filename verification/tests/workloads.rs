use rand::Rng;
use zipped_tables::columns::{plan_columns, PlanNode, TableColumns, TableScan};
use zipped_tables::counting_store::StatsSnapshot;
use zipped_tables::counts::PairCounts;
use zipped_tables::storage::{Backend, Storage, Variant};
use zipped_tables::workload::{
    columns_file, events_file, written, Figures, FiredQuery, Sampler, WorkloadConfig, WorkloadLog,
};

fn reads(scans: &[(&str, &[&str])]) -> TableColumns {
    let mut out = TableColumns::new();
    for (table, columns) in scans {
        let scan = TableScan {
            table: table.to_string(),
            columns: columns.iter().map(|column| column.to_string()).collect(),
        };
        plan_columns(&PlanNode { scan: Some(scan), inputs: vec![] }, &mut out);
    }
    out
}

fn fired(number: usize, gets: u64, bytes: u64, ok: bool) -> FiredQuery {
    FiredQuery {
        offset_ms: 1500,
        number,
        latency: "12.3".into(),
        counted: StatsSnapshot {
            get_requests: 1,
            get_ranges_ranges: gets - 1,
            bytes_read: bytes,
            ..StatsSnapshot::default()
        },
        ok,
    }
}

fn sizes() -> PairCounts {
    let mut sizes = PairCounts::new();
    assert!(sizes.add("t", "a", 100));
    assert!(sizes.add("u", "x", 7));
    sizes
}

fn figures() -> Figures {
    Figures {
        duration: "60".into(),
        p50: "1".into(),
        p95: "2".into(),
        max: "3".into(),
        mib: "0.1".into(),
    }
}

fn workload() -> WorkloadConfig {
    WorkloadConfig {
        variant: Variant::B,
        avg_interval: None,
        duration: Some("60".into()),
        dist: "uniform".into(),
        arrival: "fixed".into(),
        seed: 42,
    }
}

#[test]
fn a_new_log_holds_only_headers() {
    let log = WorkloadLog::new();
    assert_eq!(
        *log.events(),
        vec!["t_offset_ms,query_nr,latency_ms,get_requests,bytes_read,ok"]
    );
    assert_eq!(*log.colrows(), vec!["t_offset_ms,query_nr,table,column,est_bytes"]);
    assert!(log.touch().entries().is_empty());
    assert_eq!(log.total_bytes(), 0);
}

#[test]
fn queries_are_logged_with_their_columns() {
    let mut log = WorkloadLog::new();
    let columns = reads(&[("u", &["x"]), ("t", &["b", "a"])]);
    assert!(log.record(&fired(7, 5, 900, true), &columns, &sizes()));
    assert!(log.record(&fired(8, 2, 100, false), &reads(&[("t", &["a"])]), &sizes()));
    assert_eq!(log.events()[1], "1500,7,12.3,5,900,true");
    assert_eq!(log.events()[2], "1500,8,12.3,2,100,false");
    assert_eq!(
        log.colrows()[1..],
        ["1500,7,t,a,100", "1500,7,t,b,0", "1500,7,u,x,7", "1500,8,t,a,100"]
    );
    assert_eq!(log.total_bytes(), 1000);
    assert!(log.summary(&figures()).contains("2 queries fired in 60s (1 ok)"));
    assert!(log.summary(&figures()).contains("total 7 GETs"));
}

#[test]
fn a_query_counts_once_for_each_column() {
    let mut log = WorkloadLog::new();
    let columns = reads(&[("t", &["a", "a", "b"]), ("t", &["a"])]);
    assert!(log.record(&fired(1, 1, 0, true), &columns, &sizes()));
    assert_eq!(log.touch().get("t", "a"), 1);
    assert_eq!(log.touch().get("t", "b"), 1);
    assert_eq!(log.touch().get("t", "c"), 0);
    assert!(log.record(&fired(2, 1, 0, true), &reads(&[("t", &["a"])]), &sizes()));
    assert_eq!(log.touch().get("t", "a"), 2);
    assert_eq!(log.touch().get("t", "b"), 1);
}

#[test]
fn totals_that_do_not_fit_are_refused() {
    let columns = reads(&[("t", &["a"])]);
    let mut log = WorkloadLog::new();
    assert!(log.record(&fired(1, 1, u64::MAX, true), &columns, &sizes()));
    assert!(!log.record(&fired(1, 1, 1, true), &columns, &sizes()));
    assert_eq!((log.events().len(), log.touch().get("t", "a")), (2, 1));
    assert_eq!(log.total_bytes(), u64::MAX);
    let mut log = WorkloadLog::new();
    assert!(log.record(&fired(1, u64::MAX, 0, true), &columns, &sizes()));
    assert!(!log.record(&fired(1, 1, 0, true), &columns, &sizes()));
    assert_eq!(log.events().len(), 2);
    let mut log = WorkloadLog::new();
    let mut full = fired(1, 2, 0, true);
    full.counted.get_requests = u64::MAX;
    assert!(!log.record(&full, &columns, &sizes()));
}

#[test]
fn sampled_queries_exist() {
    let mut sampler = Sampler::new(42);
    let picked: Vec<usize> = (0..200).map(|_| sampler.pick(5)).collect();
    assert!(picked.iter().all(|place| *place < 5));
    assert!((0..5).all(|place| picked.contains(&place)));
    assert_eq!(sampler.pick(1), 0);
}

#[test]
fn the_same_seed_draws_the_same_queries() {
    let draw = |seed: u64| {
        let mut sampler = Sampler::new(seed);
        (0..50).map(|_| sampler.pick(99)).collect::<Vec<usize>>()
    };
    assert_eq!(draw(42), draw(42));
    assert_ne!(draw(42), draw(43));
}

#[test]
fn draws_in_between_keep_runs_alike() {
    let draw = |seed: u64| {
        let mut sampler = Sampler::new(seed);
        (0..50)
            .map(|_| {
                let place = sampler.pick(99);
                let gap: f64 = sampler.rng.gen_range(0.0..1.0);
                (place, gap)
            })
            .collect::<Vec<(usize, f64)>>()
    };
    assert_eq!(draw(7), draw(7));
}

#[test]
fn gaps_are_random_only_if_asked_for() {
    assert!(!workload().random_gaps());
    assert!(WorkloadConfig { arrival: "poisson".into(), ..workload() }.random_gaps());
    assert!(!WorkloadConfig { arrival: "Poisson".into(), ..workload() }.random_gaps());
}

#[test]
fn files_are_named_after_the_workload() {
    let storage = Storage::open(&Backend::Local).unwrap();
    let tag = workload().tag("tpcds", &storage);
    assert_eq!(tag, "tpcds-b-local-uniform");
    assert_eq!(events_file(&tag), "workload-events-tpcds-b-local-uniform.csv");
    assert_eq!(columns_file(&tag), "workload-columns-tpcds-b-local-uniform.csv");
    assert_eq!(
        written("x"),
        "\nwrote workload-events-x.csv and workload-columns-x.csv\nnext: python3 workload_report.py x"
    );
    assert_eq!(
        workload().opening("tpcds", &storage, "2", "60"),
        "workload: tpcds variant=b backend=local dist=uniform arrivals=fixed avg every 2s for 60s seed=42"
    );
}

#[test]
fn progress_is_shown_in_columns() {
    let query = fired(7, 42, 1_234_567, true);
    assert_eq!(
        query.progress("1.5", 9),
        format!(
            "  t={:>6.1}s Q{:<3} {:>8.1}ms {:>5} GETs {:>11} B  cols={}",
            1.5, 7, 12.3, 42, 1_234_567, 9
        )
    );
}

#[test]
fn a_workload_is_summed_up() {
    let mut log = WorkloadLog::new();
    assert!(log.record(&fired(1, 3, 10, true), &reads(&[("t", &["b", "a"])]), &sizes()));
    assert!(log.record(&fired(2, 4, 20, false), &reads(&[("t", &["b"])]), &sizes()));
    assert_eq!(
        log.summary(&figures()),
        "\n2 queries fired in 60s (1 ok) | latency p50=1ms p95=2ms max=3ms | total 7 GETs, 0.1 MiB read"
    );
    assert_eq!(
        log.hot_columns(),
        vec![
            "\nhottest columns (touches across 2 queries):",
            "     2x  t.b",
            "     1x  t.a",
        ]
    );
}

#[test]
fn ten_columns_are_the_hottest_at_most() {
    let names: Vec<String> = (0..15).map(|i| format!("c{i:02}")).collect();
    let borrowed: Vec<&str> = names.iter().map(|name| name.as_str()).collect();
    let mut log = WorkloadLog::new();
    assert!(log.record(&fired(1, 1, 0, true), &reads(&[("t", &borrowed)]), &sizes()));
    let lines = log.hot_columns();
    assert_eq!(lines.len(), 11);
    assert_eq!(lines[10], "     1x  t.c09");
}

#[test]
fn what_was_read_is_listed_in_order() {
    let mut log = WorkloadLog::new();
    let columns = reads(&[("u", &["b", "a"]), ("t", &["c"])]);
    assert!(log.record(&fired(1, 1, 1, true), &columns, &sizes()));
    assert!(log.record(&fired(2, 1, 1, true), &reads(&[("t", &["c"])]), &sizes()));
    let listed: Vec<(&str, &str, u64)> = log
        .touch()
        .entries()
        .iter()
        .map(|entry| (entry.table.as_str(), entry.column.as_str(), entry.count))
        .collect();
    assert_eq!(listed, vec![("t", "c", 2), ("u", "a", 1), ("u", "b", 1)]);
}
