use crackeddb::delta_debug::{DeltaDebugResult, DeltaDebugStats, ShrunkFaultConfig};
use crackeddb::failure::{
    find_and_shrink_failures, find_failures, parse_failure_kind, replay, replay_with_config,
    replay_with_faults, run_with_synthetic_bug, shrink_real_failure, shrink_real_failure_quick,
    verify_shrinker_with_synthetic_bug, FailureKind, FailureReport, FailureSearchResult,
    FoundFailure, SyntheticBug,
};
use crackeddb::fault_scenarios::{FaultScenario, ScenarioConfig};
use crackeddb::serialization::SerializationViolation;
use crackeddb::sim_env::RuntimeFaultConfig;

#[test]
fn failure_kind_names() {
    assert_eq!(
        FailureKind::SerializabilityCycle { txn_ids: vec![1, 2] }.name(),
        "serializability_cycle"
    );
    assert_eq!(FailureKind::LostWrite { key: vec![], expected: vec![] }.name(), "lost_write");
    assert_eq!(FailureKind::Custom("test".into()).name(), "custom");
    assert_eq!(FailureKind::Unrecoverable("test".into()).name(), "unrecoverable");
}

#[test]
fn failure_kind_matches() {
    let cycle1 = FailureKind::SerializabilityCycle { txn_ids: vec![1, 2] };
    let cycle2 = FailureKind::SerializabilityCycle { txn_ids: vec![3, 4, 5] };
    let lost = FailureKind::LostWrite { key: vec![1], expected: vec![2] };

    assert!(cycle1.matches(&cycle2), "Same variant should match");
    assert!(!cycle1.matches(&lost), "Different variants should not match");
}

#[test]
fn failure_report_display() {
    let report = FailureReport::new(
        0xDEADBEEF,
        FaultScenario::Combined,
        500,
        FailureKind::SerializabilityCycle { txn_ids: vec![1, 2, 3] },
    );

    let display = report.describe();
    assert!(display.contains("DEADBEEF"));
    assert!(display.contains("combined"));
    assert!(display.contains("500"));
    assert!(display.contains("T1"));
}

#[test]
fn failure_report_replay_hint() {
    let report = FailureReport::new(
        0xCAFEBABE,
        FaultScenario::PartialWrites,
        100,
        FailureKind::Custom("test".into()),
    );

    assert!(report.replay_cmd_hint.contains("0x00000000CAFEBABE"));
    assert!(report.replay_cmd_hint.contains("partial_writes"));
    assert!(report.replay_cmd_hint.contains("100"));
}

#[test]
fn parse_failure_kind_serialization() {
    let msg = Some("Non-serializable schedule detected. Cycle: T1 -> T2 -> T3".to_string());
    let kind = parse_failure_kind(&msg);

    match kind {
        FailureKind::SerializabilityCycle { txn_ids } => {
            assert_eq!(txn_ids, vec![1, 2, 3]);
        }
        _ => panic!("Expected SerializabilityCycle"),
    }
}

#[test]
fn parse_failure_kind_custom() {
    let msg = Some("Some random error".to_string());
    let kind = parse_failure_kind(&msg);

    match kind {
        FailureKind::Custom(s) => {
            assert!(s.contains("random error"));
        }
        _ => panic!("Expected Custom"),
    }
}

#[test]
fn clean_run_returns_ok() {
    let result = replay(42, &FaultScenario::NoFaults, 50);
    assert!(
        result.is_ok(),
        "Clean run with no faults should succeed: {:?}",
        result.err()
    );
}

#[test]
fn replay_is_deterministic() {
    let seed = 0xDE7E714;
    let scenario = FaultScenario::NoFaults;
    let workload_len = 100;

    let result1 = replay(seed, &scenario, workload_len);
    let result2 = replay(seed, &scenario, workload_len);

    match (&result1, &result2) {
        (Ok(()), Ok(())) => {}
        (Err(r1), Err(r2)) => {
            assert!(
                r1.failure_kind.matches(&r2.failure_kind),
                "Same seed should produce same failure kind"
            );
        }
        _ => panic!("Same seed should produce same result: {:?} vs {:?}", result1, result2),
    }
}

#[test]
fn cycle_txns_helper() {
    let report = FailureReport::new(
        0,
        FaultScenario::NoFaults,
        0,
        FailureKind::SerializabilityCycle { txn_ids: vec![1, 2, 3] },
    );

    assert_eq!(report.cycle_txns(), Some(&[1u64, 2, 3][..]));

    let report2 = FailureReport::custom(0, FaultScenario::NoFaults, 0, "test");
    assert_eq!(report2.cycle_txns(), None);
}

#[test]
fn from_serialization_violation() {
    let violation = SerializationViolation { cycle: vec![10, 20, 30], edges: vec![] };

    let kind = FailureKind::from_serialization_violation(&violation);
    match kind {
        FailureKind::SerializabilityCycle { txn_ids } => {
            assert_eq!(txn_ids, vec![10, 20, 30]);
        }
        _ => panic!("Expected SerializabilityCycle"),
    }
}

#[test]
fn synthetic_bug_should_fail() {
    let bug = SyntheticBug::serializability_cycle(100);

    assert!(!bug.should_fail(50));
    assert!(!bug.should_fail(99));

    assert!(bug.should_fail(100));
    assert!(bug.should_fail(500));
}

#[test]
fn synthetic_bug_variants() {
    let cycle_bug = SyntheticBug::serializability_cycle(10);
    match &cycle_bug.failure_kind {
        FailureKind::SerializabilityCycle { txn_ids } => {
            assert_eq!(txn_ids, &vec![1, 2, 3]);
        }
        _ => panic!("Expected SerializabilityCycle"),
    }

    let lost_bug = SyntheticBug::lost_write(20);
    match &lost_bug.failure_kind {
        FailureKind::LostWrite { key, expected } => {
            assert_eq!(key, b"synthetic_key");
            assert_eq!(expected, b"synthetic_value");
        }
        _ => panic!("Expected LostWrite"),
    }

    let custom_bug = SyntheticBug::custom(30, "custom message");
    match &custom_bug.failure_kind {
        FailureKind::Custom(msg) => {
            assert_eq!(msg, "custom message");
        }
        _ => panic!("Expected Custom"),
    }
}

#[test]
fn run_with_synthetic_bug_passes_below_threshold() {
    let bug = SyntheticBug::serializability_cycle(100);
    let result = run_with_synthetic_bug(42, FaultScenario::NoFaults, 50, &bug);
    assert!(result.is_ok(), "Should pass below threshold");
}

#[test]
fn run_with_synthetic_bug_fails_at_threshold() {
    let bug = SyntheticBug::serializability_cycle(100);
    let result = run_with_synthetic_bug(42, FaultScenario::NoFaults, 100, &bug);
    assert!(result.is_err(), "Should fail at threshold");

    let report = result.unwrap_err();
    assert_eq!(report.workload_len, 100);
    assert!(matches!(report.failure_kind, FailureKind::SerializabilityCycle { .. }));
}

#[test]
fn run_with_synthetic_bug_fails_above_threshold() {
    let bug = SyntheticBug::serializability_cycle(100);
    let result = run_with_synthetic_bug(42, FaultScenario::NoFaults, 500, &bug);
    assert!(result.is_err(), "Should fail above threshold");
}

#[test]
fn verify_shrinker_with_synthetic_bug_success() {
    let bug = SyntheticBug::serializability_cycle(100);
    let result = verify_shrinker_with_synthetic_bug(42, FaultScenario::NoFaults, 500, &bug);

    assert!(result.is_ok(), "Should succeed: {:?}", result.err());

    let shrink_result = result.unwrap();
    assert_eq!(shrink_result.fault_config.workload_len, 100);
    assert_eq!(shrink_result.stats.original_workload_size, 500);
    assert_eq!(shrink_result.stats.final_workload_size, 100);
}

#[test]
fn verify_shrinker_with_synthetic_bug_workload_too_short() {
    let bug = SyntheticBug::serializability_cycle(100);
    let result = verify_shrinker_with_synthetic_bug(42, FaultScenario::NoFaults, 50, &bug);

    assert!(result.is_err(), "Should fail when workload too short");
    let err = result.unwrap_err();
    assert!(err.contains("too short"));
}

#[test]
fn find_failures_empty_range() {
    let scenarios = vec![FaultScenario::NoFaults];
    let result = find_failures(0..0, &scenarios, 50);

    assert_eq!(result.seeds_tried, 0);
    assert_eq!(result.failure_count(), 0);
}

#[test]
fn find_failures_single_seed() {
    let scenarios = vec![FaultScenario::NoFaults];
    let result = find_failures(0..1, &scenarios, 50);

    assert_eq!(result.seeds_tried, 1);
    assert_eq!(result.scenarios_tried, 1);
}

#[test]
fn failure_search_result_summary() {
    let result = FailureSearchResult { seeds_tried: 10, scenarios_tried: 3, failures: vec![] };

    let summary = result.summary();
    assert!(summary.contains("10"));
    assert!(summary.contains('3'));
    assert!(summary.contains("30"));
    assert!(summary.contains("0 failures"));
}

#[test]
fn found_failure_minimal_workload() {
    let report = FailureReport::new(
        42,
        FaultScenario::NoFaults,
        500,
        FailureKind::Custom("test".into()),
    );

    let found = FoundFailure { original: report.clone(), shrunk: None };
    assert_eq!(found.minimal_workload_len(), 500);

    let shrunk_config = ShrunkFaultConfig::from_scenario(FaultScenario::NoFaults, 100);
    let shrunk_report = FailureReport::new(
        42,
        FaultScenario::NoFaults,
        100,
        FailureKind::Custom("test".into()),
    );
    let found_with_shrunk = FoundFailure {
        original: report,
        shrunk: Some(DeltaDebugResult {
            report: shrunk_report,
            fault_config: shrunk_config,
            stats: DeltaDebugStats::default(),
        }),
    };
    assert_eq!(found_with_shrunk.minimal_workload_len(), 100);
}

#[test]
fn acceptance_synthetic_bug_shrink() {
    for fail_at in [10, 50, 100, 200] {
        let bug = SyntheticBug::serializability_cycle(fail_at);
        let initial_workload = fail_at * 5;

        let result = verify_shrinker_with_synthetic_bug(
            0xACCEF7,
            FaultScenario::NoFaults,
            initial_workload,
            &bug,
        );

        assert!(result.is_ok(), "Failed for fail_at={}: {:?}", fail_at, result.err());

        let shrunk = result.unwrap();
        assert_eq!(
            shrunk.fault_config.workload_len, fail_at,
            "Shrinker should find exact failure point"
        );
    }
}

#[test]
fn acceptance_replay_determinism_10_runs() {
    let seed = 0xDE7E714;
    let scenario = FaultScenario::NoFaults;
    let workload_len = 100;

    let first_result = replay(seed, &scenario, workload_len);

    for _ in 0..10 {
        let result = replay(seed, &scenario, workload_len);
        match (&first_result, &result) {
            (Ok(()), Ok(())) => {}
            (Err(r1), Err(r2)) => {
                assert!(
                    r1.failure_kind.matches(&r2.failure_kind),
                    "Replay should be deterministic"
                );
            }
            _ => panic!("Replay should be deterministic: {:?} vs {:?}", first_result, result),
        }
    }
}

#[test]
fn acceptance_find_failures_multiple_scenarios() {
    let scenarios = vec![FaultScenario::NoFaults, FaultScenario::PartialWrites];
    let result = find_failures(0..5, &scenarios, 50);

    assert_eq!(result.seeds_tried, 5);
    assert_eq!(result.scenarios_tried, 2);
}

#[test]
fn acceptance_all_synthetic_bug_kinds() {
    let kinds = [
        SyntheticBug::serializability_cycle(10),
        SyntheticBug::lost_write(10),
        SyntheticBug::custom(10, "test failure"),
    ];

    for bug in &kinds {
        let result = run_with_synthetic_bug(42, FaultScenario::NoFaults, 10, bug);
        assert!(result.is_err(), "Should fail at threshold for {:?}", bug.failure_kind);

        let result = run_with_synthetic_bug(42, FaultScenario::NoFaults, 9, bug);
        assert!(result.is_ok(), "Should pass below threshold for {:?}", bug.failure_kind);
    }
}

#[test]
fn acceptance_shrinker_thorough_10_seeds() {
    for seed in 0..10u64 {
        for fail_at in [25, 50, 100] {
            let bug = SyntheticBug::serializability_cycle(fail_at);
            let initial_workload = fail_at * 10;

            let result = verify_shrinker_with_synthetic_bug(
                seed,
                FaultScenario::NoFaults,
                initial_workload,
                &bug,
            );

            assert!(
                result.is_ok(),
                "Failed for seed={}, fail_at={}: {:?}",
                seed,
                fail_at,
                result.err()
            );
        }
    }
}

#[test]
fn violation_messages_parse_back() {
    for cycle in [vec![1u64], vec![7, 3], vec![0, u64::MAX, 12]] {
        let violation = SerializationViolation { cycle: cycle.clone(), edges: vec![] };
        let kind = parse_failure_kind(&Some(violation.describe()));
        assert_eq!(kind, FailureKind::SerializabilityCycle { txn_ids: cycle });
    }
}

#[test]
fn other_messages_parse_to_their_kinds() {
    assert_eq!(parse_failure_kind(&None), FailureKind::Custom("unknown failure".to_string()));
    assert_eq!(
        parse_failure_kind(&Some("plain".to_string())),
        FailureKind::Custom("plain".to_string())
    );
}

#[test]
fn kinds_describe_themselves() {
    assert!(FailureKind::SerializabilityCycle { txn_ids: vec![4, 9] }
        .describe()
        .contains("T4 -> T9"));
    assert!(FailureKind::Custom("went wrong".into()).describe().contains("went wrong"));
    assert!(FailureKind::Unrecoverable("no disk".into()).describe().contains("no disk"));
    let lost = FailureKind::LostWrite { key: b"k\xff".to_vec(), expected: b"v".to_vec() };
    assert!(lost.describe().contains(&String::from_utf8_lossy(b"k\xff").to_string()));
    let report = FailureReport::lost_write(
        3,
        FaultScenario::DiskFull,
        9,
        b"k".to_vec(),
        b"v".to_vec(),
    );
    assert_eq!(
        report.failure_kind,
        FailureKind::LostWrite { key: b"k".to_vec(), expected: b"v".to_vec() }
    );
    let report = FailureReport::unrecoverable(3, FaultScenario::DiskFull, 9, "gone");
    assert_eq!(report.failure_kind, FailureKind::Unrecoverable("gone".to_string()));
    assert_eq!(report.copy().replay_cmd_hint, report.replay_cmd_hint);
}

#[test]
fn a_failure_that_does_not_show_is_not_shrunk() {
    let report =
        FailureReport::custom(42, FaultScenario::NoFaults, 20, "never happens here");
    assert!(shrink_real_failure(&report).is_none());
    assert!(shrink_real_failure_quick(&report).is_none());
    assert!(replay_with_config(42, ScenarioConfig::quick(FaultScenario::NoFaults)).is_ok());
    let found = find_and_shrink_failures(1..3, &[FaultScenario::NoFaults], 20, true);
    assert_eq!(found.failure_count(), 0);
}

#[test]
fn a_replay_goes_by_the_faults_it_is_given() {
    let config = ScenarioConfig::quick(FaultScenario::DiskFull);
    // The scenario's own disk is large enough.
    assert!(replay_with_config(5, config).is_ok());
    let small = RuntimeFaultConfig { disk_full_threshold: 200, ..RuntimeFaultConfig::default() };
    let report = replay_with_faults(5, config, small).unwrap_err();
    assert_eq!(
        report.failure_kind,
        FailureKind::Custom("Operation failed: io error: no space left on device".to_string())
    );
    assert!(replay_with_faults(5, config, RuntimeFaultConfig::default()).is_ok());
}
