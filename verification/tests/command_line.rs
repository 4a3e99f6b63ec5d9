use zipped_tables::cli::{parse_args, Command, UsageError};
use zipped_tables::config::Suite;
use zipped_tables::storage::Variant;

fn parse(args: &[&str]) -> Result<Command, UsageError> {
    let mut all = vec!["program".to_string()];
    all.extend(args.iter().map(|arg| arg.to_string()));
    parse_args(&all)
}

#[test]
fn tpch_is_run_by_default() {
    assert!(matches!(parse(&[]), Ok(Command::Bench { suite: Suite::Tpch })));
    assert!(matches!(parse_args(&vec![]), Ok(Command::Bench { suite: Suite::Tpch })));
    assert!(matches!(parse(&["tpch"]), Ok(Command::Bench { suite: Suite::Tpch })));
    assert!(matches!(parse(&["tpcds"]), Ok(Command::Bench { suite: Suite::Tpcds })));
    assert!(matches!(parse(&["tpcds", "other"]), Ok(Command::Bench { suite: Suite::Tpcds })));
}

#[test]
fn suites_are_known_by_their_names() {
    for suite in [Suite::Tpch, Suite::Tpcds] {
        match parse(&[suite.name().as_str()]) {
            Ok(Command::Bench { suite: asked }) => assert_eq!(asked, suite),
            _ => panic!("not understood"),
        }
    }
}

#[test]
fn an_unknown_suite_is_refused() {
    match parse(&["tpcx", "stats"]) {
        Err(error) => {
            assert!(matches!(&error, UsageError::UnknownBenchmark(name) if name == "tpcx"));
            assert_eq!(error.message(), "unknown benchmark 'tpcx'; use 'tpch' or 'tpcds'");
        }
        Ok(_) => panic!("understood"),
    }
}

#[test]
fn a_query_is_profiled() {
    assert!(matches!(
        parse(&["tpcds", "profile", "64"]),
        Ok(Command::Profile { suite: Suite::Tpcds, query: 64 })
    ));
}

#[test]
fn a_profile_needs_a_number() {
    for args in [vec!["tpch", "profile"], vec!["tpch", "profile", "q1"]] {
        match parse(&args) {
            Err(error) => {
                assert!(matches!(error, UsageError::ProfileUsage(Suite::Tpch)));
                assert_eq!(error.message(), "usage: tpch profile <query_number>");
            }
            Ok(_) => panic!("understood"),
        }
    }
}

#[test]
fn requests_are_counted() {
    assert!(matches!(parse(&["tpch", "stats"]), Ok(Command::Stats { suite: Suite::Tpch })));
}

#[test]
fn a_workload_has_defaults() {
    match parse(&["tpch", "workload"]) {
        Ok(Command::Workload { suite, config }) => {
            assert_eq!(suite, Suite::Tpch);
            assert_eq!(config.variant, Variant::A);
            assert_eq!(config.avg_interval, None);
            assert_eq!(config.duration, None);
            assert_eq!(config.dist, "uniform");
            assert_eq!(config.arrival, "fixed");
            assert_eq!(config.seed, 42);
        }
        _ => panic!("not understood"),
    }
}

#[test]
fn a_workload_is_described_by_arguments() {
    match parse(&["tpcds", "workload", "b", "2", "90.5", "zipf", "poisson", "7"]) {
        Ok(Command::Workload { suite, config }) => {
            assert_eq!(suite, Suite::Tpcds);
            assert_eq!(config.variant, Variant::B);
            assert_eq!(config.avg_interval.as_deref(), Some("2"));
            assert_eq!(config.duration.as_deref(), Some("90.5"));
            assert_eq!(config.dist, "zipf");
            assert_eq!(config.arrival, "poisson");
            assert_eq!(config.seed, 7);
        }
        _ => panic!("not understood"),
    }
}

#[test]
fn a_seed_that_is_no_number_is_passed_over() {
    match parse(&["tpch", "workload", "c", "1", "1", "uniform", "fixed", "lucky"]) {
        Ok(Command::Workload { config, .. }) => assert_eq!(config.seed, 42),
        _ => panic!("not understood"),
    }
}

#[test]
fn an_unknown_variant_is_refused() {
    match parse(&["tpch", "workload", "d"]) {
        Err(error) => {
            assert!(matches!(&error, UsageError::UnknownVariant(_, letter) if letter == "d"));
            assert!(error.suite().is_some());
            assert_eq!(error.message(), "unknown variant 'd'; use a, b, or c");
        }
        Ok(_) => panic!("understood"),
    }
}
