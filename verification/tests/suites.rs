use datafusion::arrow::array::{Int64Array, StringArray, UInt32Array, UInt64Array};
use zipped_tables::bench::{
    announcement, conclude, find_query, profile_header, query_not_found, result_columns,
    results_file, results_to_df, runtime, schedule, starting, stats_header, stats_row, stats_title, Moment, Step,
    TestResult,
};
use zipped_tables::config::{
    load_queries, missing_query, query_path, tpcds_config, tpch_config, BenchConfig, Query, Suite,
};
use zipped_tables::counting_store::StatsSnapshot;
use zipped_tables::storage::{
    variants, Backend, Environment, ObjectKey, Storage, StorageError, TableSource, Variant,
};

fn nothing_set() -> Environment {
    Environment {
        storage: None,
        s3_endpoint: None,
        s3_bucket: None,
        s3_access_key: None,
        s3_secret_key: None,
    }
}

fn local() -> Storage {
    Storage::open(&Backend::from_env(nothing_set())).unwrap()
}

fn s3() -> Storage {
    let env = Environment { storage: Some("s3".into()), ..nothing_set() };
    Storage::open(&Backend::from_env(env)).unwrap()
}

fn queries(numbers: &[usize]) -> Vec<Query> {
    numbers.iter().map(|n| Query { number: *n, sql: format!("select {n}") }).collect()
}

fn config() -> BenchConfig {
    tpch_config(queries(&[1, 2]))
}

#[test]
fn tpch_has_eight_tables() {
    let config = tpch_config(queries(&[3]));
    assert_eq!(config.name, "tpch");
    assert_eq!(config.data_dir, "data/tpch");
    assert_eq!(
        config.tables,
        vec![
            "lineitem", "orders", "partsupp", "supplier", "nation", "region", "part", "customer"
        ]
    );
    assert_eq!(config.queries[0].number, 3);
    assert_eq!(Suite::Tpch.config(vec![]).tables, config.tables);
}

#[test]
fn tpcds_has_twenty_four_tables() {
    let config = tpcds_config(vec![]);
    assert_eq!(config.name, "tpcds");
    assert_eq!(config.data_dir, "data/tpcds");
    assert_eq!(config.tables.len(), 24);
    assert_eq!(config.tables[0], "call_center");
    assert_eq!(config.tables[23], "web_site");
    assert_eq!(Suite::Tpcds.config(vec![]).name, "tpcds");
}

#[test]
fn queries_are_numbered_from_one() {
    assert_eq!(Suite::Tpch.query_numbers(), (1..=22).collect::<Vec<usize>>());
    assert_eq!(Suite::Tpcds.query_numbers(), (1..=99).collect::<Vec<usize>>());
    assert_eq!(Suite::Tpch.query_dir(), "queries");
    assert_eq!(Suite::Tpcds.query_dir(), "queries_tpcds");
    assert_eq!(query_path("queries", 17), "queries/q17.sql");
    assert_eq!(
        missing_query("queries", 4),
        "warning: missing query file queries/q4.sql, skipping"
    );
}

#[test]
fn queries_without_a_file_are_passed_over() {
    let loaded =
        load_queries(&vec![1, 2, 3], vec![Some("select 1".into()), None, Some("select 3".into())]);
    assert_eq!(loaded.len(), 2);
    assert_eq!((loaded[0].number, loaded[0].sql.as_str()), (1, "select 1"));
    assert_eq!((loaded[1].number, loaded[1].sql.as_str()), (3, "select 3"));
}

#[test]
fn files_are_local_unless_s3_is_asked_for() {
    assert!(matches!(Backend::from_env(nothing_set()), Backend::Local));
    let other = Environment { storage: Some("S3".into()), ..nothing_set() };
    assert!(matches!(Backend::from_env(other), Backend::Local));
    let storage = local();
    assert_eq!(storage.url, "file:///");
    assert_eq!(storage.bucket, "");
    assert!(!storage.s3);
    assert_eq!(storage.backend(), "local");
}

#[test]
fn s3_has_the_defaults_of_a_local_store() {
    let env = Environment { storage: Some("s3".into()), ..nothing_set() };
    match Backend::from_env(env) {
        Backend::S3(settings) => {
            assert_eq!(settings.endpoint, "http://127.0.0.1:9000");
            assert_eq!(settings.bucket, "bench");
            assert_eq!(settings.region, "us-east-1");
            assert_eq!(settings.access_key, "minioadmin");
            assert_eq!(settings.secret_key, "minioadmin");
            assert!(settings.allow_http);
        }
        Backend::Local => panic!("not S3"),
    }
    let storage = s3();
    assert_eq!(storage.url, "s3://bench/");
    assert_eq!(storage.bucket, "bench");
    assert_eq!(storage.backend(), "s3");
}

#[test]
fn s3_settings_are_taken_from_the_environment() {
    let env = Environment {
        storage: Some("s3".into()),
        s3_endpoint: Some("http://store:1".into()),
        s3_bucket: Some("data".into()),
        s3_access_key: Some("user".into()),
        s3_secret_key: Some("word".into()),
    };
    match Backend::from_env(env) {
        Backend::S3(settings) => {
            assert_eq!(settings.endpoint, "http://store:1");
            assert_eq!(settings.bucket, "data");
            assert_eq!(settings.access_key, "user");
            assert_eq!(settings.secret_key, "word");
        }
        Backend::Local => panic!("not S3"),
    }
}

#[test]
fn a_bucket_that_makes_no_address_is_refused() {
    let env = Environment {
        storage: Some("s3".into()),
        s3_bucket: Some("a/b".into()),
        ..nothing_set()
    };
    assert!(matches!(Storage::open(&Backend::from_env(env)), Err(StorageError::Url(_))));
}

#[test]
fn variants_have_letters() {
    let letters: Vec<String> = variants().iter().map(|variant| variant.name()).collect();
    assert_eq!(letters, vec!["a", "b", "c"]);
    for variant in variants() {
        assert_eq!(Variant::parse(&variant.name()), Some(variant));
    }
    assert_eq!(Variant::parse("d"), None);
    assert_eq!(Variant::parse(""), None);
}

#[test]
fn the_control_is_one_file() {
    match local().register_variant(&config(), "orders", Variant::A) {
        TableSource::Control(source) => assert_eq!(source, "data/tpch/orders_a0.parquet"),
        TableSource::Zipped(_) => panic!("zipped"),
    }
    match s3().register_variant(&config(), "orders", Variant::A) {
        TableSource::Control(source) => {
            assert_eq!(source, "s3://bench/tpch/orders_a0.parquet")
        }
        TableSource::Zipped(_) => panic!("zipped"),
    }
}

#[test]
fn splits_are_zipped() {
    let text = |key: &ObjectKey| match key {
        ObjectKey::Location { path, location } => format!("{path} at {location}"),
        ObjectKey::LocalFile(path) => format!("in {path}"),
    };
    match local().register_variant(&config(), "orders", Variant::B) {
        TableSource::Zipped(keys) => {
            let texts: Vec<String> = keys.iter().map(text).collect();
            assert_eq!(
                texts,
                vec!["in data/tpch/orders_b0.parquet", "in data/tpch/orders_b1.parquet"]
            );
        }
        TableSource::Control(_) => panic!("one file"),
    }
    match s3().register_variant(&config(), "or%ders", Variant::C) {
        TableSource::Zipped(keys) => {
            let texts: Vec<String> = keys.iter().map(text).collect();
            assert_eq!(
                texts,
                vec![
                    "tpch/or%ders_c0.parquet at tpch/or%25ders_c0.parquet",
                    "tpch/or%ders_c1.parquet at tpch/or%25ders_c1.parquet",
                    "tpch/or%ders_c2.parquet at tpch/or%25ders_c2.parquet",
                ]
            );
        }
        TableSource::Control(_) => panic!("one file"),
    }
    assert_eq!(text(&s3().control_key(&config(), "part")), "tpch/part_a0.parquet at tpch/part_a0.parquet");
    assert_eq!(text(&local().key(&config(), "x")), "in data/tpch/x");
}

#[test]
fn runtimes_are_whole_milliseconds() {
    let start = Moment { seconds: 1_700_000_000, nanos: 999_000_000 };
    let end = Moment { seconds: 1_700_000_002, nanos: 500_999 };
    assert_eq!(runtime(start, end), Some(1_001));
    assert_eq!(runtime(end, start), Some(-1_001));
    assert_eq!(runtime(start, start), Some(0));
    let shortly = Moment { seconds: 1_700_000_000, nanos: 999_999_999 };
    assert_eq!(runtime(start, shortly), Some(0));
    let long_ago = Moment { seconds: -1, nanos: 500_000_000 };
    assert_eq!(runtime(long_ago, Moment { seconds: 1, nanos: 0 }), Some(1_500));
}

#[test]
fn leap_seconds_are_counted() {
    let leap = Moment { seconds: 1_483_228_799, nanos: 1_500_000_000 };
    let before = Moment { seconds: 1_483_228_799, nanos: 500_000_000 };
    let noon = Moment { seconds: 1_483_228_799 - 43_199, nanos: 0 };
    assert_eq!(runtime(before, leap), Some(1_000));
    assert_eq!(runtime(noon, leap), Some(43_200_500));
    assert_eq!(runtime(leap, noon), Some(-43_200_500));
    let minute = Moment { seconds: 59, nanos: 1_500_000_000 };
    assert_eq!(runtime(minute, Moment { seconds: 60, nanos: 0 }), Some(500));
    assert_eq!(runtime(Moment { seconds: 60, nanos: 0 }, minute), Some(-500));
}

#[test]
fn moments_off_the_calendar_have_no_runtime() {
    let first = Moment { seconds: -8_334_601_228_800, nanos: 0 };
    let last = Moment { seconds: 8_210_266_876_799, nanos: 999_999_999 };
    assert_eq!(runtime(first, last), Some(16_544_868_105_599_999));
    assert_eq!(runtime(Moment { seconds: first.seconds - 1, nanos: 0 }, last), None);
    assert_eq!(runtime(first, Moment { seconds: last.seconds + 1, nanos: 0 }), None);
    assert_eq!(runtime(first, Moment { seconds: 0, nanos: 1_000_000_000 }), None);
    assert_eq!(runtime(first, Moment { seconds: 59, nanos: 2_000_000_000 }), None);
}

#[test]
fn every_trial_runs_all_queries() {
    let steps = schedule(&queries(&[4, 9]), 2, &None);
    assert_eq!(
        steps,
        vec![
            Step { trial: 0, query: 0 },
            Step { trial: 0, query: 1 },
            Step { trial: 1, query: 0 },
            Step { trial: 1, query: 1 },
        ]
    );
    assert!(schedule(&queries(&[4]), 0, &None).is_empty());
}

#[test]
fn a_subset_of_queries_is_run() {
    let steps = schedule(&queries(&[4, 9, 7]), 1, &Some(vec![7, 4, 100]));
    assert_eq!(steps, vec![Step { trial: 0, query: 0 }, Step { trial: 0, query: 2 }]);
    assert!(schedule(&queries(&[4]), 3, &Some(vec![])).is_empty());
}

#[test]
fn a_run_is_announced() {
    assert_eq!(
        starting("tpch", Variant::B, 14, 0),
        "Starting tpch Test b, Q14 (#1)..."
    );
    assert_eq!(
        announcement(&config()),
        "Running tpch benchmark (8 tables, 2 queries loaded)"
    );
}

#[test]
fn a_run_that_succeeds_gives_a_result() {
    let conclusion = conclude("tpcds", Variant::C, 5, 2, Ok(1234));
    assert_eq!(conclusion.message, "Finished tpcds Test c, Q5: took 1234ms");
    let result = conclusion.result.unwrap();
    assert_eq!(result.test, "c");
    assert_eq!((result.query, result.trial, result.runtime), (5, 2, 1234));
}

#[test]
fn a_run_that_fails_is_skipped() {
    let conclusion =
        conclude("tpcds", Variant::A, 5, 0, Err("no such function\nat line 3".into()));
    assert_eq!(
        conclusion.message,
        "Skipped tpcds Test a, Q5: unsupported (no such function)"
    );
    assert!(conclusion.result.is_none());
}

#[test]
fn results_become_columns() {
    let results = vec![
        TestResult::new("a".into(), 1, 0, 10),
        TestResult::new("b".into(), 22, 2, -3),
    ];
    let columns = result_columns(&results);
    assert_eq!(columns.tests, vec!["a", "b"]);
    assert_eq!(columns.queries, vec![1, 22]);
    assert_eq!(columns.trials, vec![0, 2]);
    assert_eq!(columns.runtimes, vec![10, -3]);
    assert_eq!(results_file("tpch", &local()), "test-data-tpch-local.csv");
    assert_eq!(results_file("tpch", &s3()), "test-data-tpch-s3.csv");
}

#[test]
fn results_become_a_table() {
    let frame = results_to_df(vec![
        TestResult::new("a".into(), 1, 0, 10),
        TestResult::new("b".into(), 22, 2, -3),
    ]);
    let runtime = tokio::runtime::Runtime::new().unwrap();
    let batches = runtime.block_on(frame.collect()).unwrap();
    assert_eq!(batches.len(), 1);
    let batch = &batches[0];
    let names: Vec<String> =
        batch.schema().fields().iter().map(|field| field.name().clone()).collect();
    assert_eq!(names, vec!["test", "query", "trial", "runtime"]);
    let tests = batch.column(0).as_any().downcast_ref::<StringArray>().unwrap();
    let queries = batch.column(1).as_any().downcast_ref::<UInt64Array>().unwrap();
    let trials = batch.column(2).as_any().downcast_ref::<UInt32Array>().unwrap();
    let runtimes = batch.column(3).as_any().downcast_ref::<Int64Array>().unwrap();
    assert_eq!((tests.value(0), tests.value(1)), ("a", "b"));
    assert_eq!(queries.values().to_vec(), vec![1, 22]);
    assert_eq!(trials.values().to_vec(), vec![0, 2]);
    assert_eq!(runtimes.values().to_vec(), vec![10, -3]);
}

#[test]
fn no_results_make_an_empty_table() {
    let frame = results_to_df(vec![]);
    assert_eq!(frame.schema().fields().len(), 4);
}

#[test]
fn the_first_query_with_a_number_is_found() {
    let list = queries(&[3, 8, 3]);
    assert_eq!(find_query(&list, 3), Some(0));
    assert_eq!(find_query(&list, 8), Some(1));
    assert_eq!(find_query(&list, 9), None);
    assert_eq!(query_not_found("tpch", 9), "query Q9 not found in tpch");
}

#[test]
fn profiles_have_headers() {
    assert_eq!(
        profile_header("tpch", 3, Variant::A),
        "\n================ tpch Q3 :: control (1 file) ================"
    );
    assert_eq!(
        profile_header("tpch", 3, Variant::B),
        "\n================ tpch Q3 :: 2-way split (zipped) ================"
    );
    assert_eq!(
        profile_header("tpch", 3, Variant::C),
        "\n================ tpch Q3 :: 3-way split (zipped) ================"
    );
}

#[test]
fn requests_are_shown_in_a_table() {
    assert_eq!(
        stats_title("tpch", &local()),
        "\ntpch object-store interaction (local backend, each query run once)\n"
    );
    assert_eq!(
        stats_header(),
        format!(
            "{:<16}{:>10}{:>8}{:>10}{:>9}{:>14}",
            "variant", "GET reqs", "HEAD", "get_rngs", "ranges", "bytes read"
        )
    );
    let counted = StatsSnapshot {
        get_requests: 12,
        get_ranges_calls: 3,
        get_ranges_ranges: 30,
        head_requests: 8,
        list_requests: 1,
        bytes_read: 5 << 20,
    };
    assert_eq!(
        stats_row(Variant::B, &counted, "5.0"),
        format!(
            "{:<16}{:>10}{:>8}{:>10}{:>9}{:>10.1} MiB",
            "2-way split", 42, 8, 3, 30, 5.0
        )
    );
    assert!(stats_row(Variant::A, &counted, "5.0").starts_with("control 1-file  "));
    assert!(stats_row(Variant::C, &counted, "5.0").starts_with("3-way split "));
}
