use crackeddb::delta_debug::{
    quick_shrink, shrink_failure, DeltaDebugConfig, DeltaDebugShrinker, DeltaDebugStats, ReplayFn,
    ShrinkStep, ShrunkFaultConfig, TestableShrinker,
};
use crackeddb::failure::{FailureKind, FailureReport, KindView};
use crackeddb::fault::Fault;
use crackeddb::fault_scenarios::FaultScenario;
use crackeddb::shrink::{
    find_minimum_prefix, push_reduction, remove_operations, rounded_quotient, seed_candidates,
    MinimalRepro, ShrinkConfig, ShrinkResult, Shrinker,
};
use crackeddb::workload::Operation;

fn is_key5(op: &Operation) -> bool {
    if let Operation::Put { key, .. } = op {
        key == b"key5"
    } else {
        false
    }
}

#[test]
fn shrink_operations_removes_unnecessary() {
    let mut shrinker = Shrinker::new(ShrinkConfig::default());

    let ops: Vec<Operation> = (0..10)
        .map(|i| Operation::Put {
            key: format!("key{}", i).into_bytes(),
            value: format!("value{}", i).into_bytes(),
        })
        .collect();

    let result = shrinker.shrink_operations(ops, |seq: &[Operation]| {
        if seq.iter().any(is_key5) {
            Some("key5 present".to_string())
        } else {
            None
        }
    });

    match result {
        ShrinkResult::Shrunk(repro) | ShrinkResult::Minimal(repro) => {
            assert!(repro.operations.len() < 10);
            assert!(repro.operations.iter().any(is_key5));
        }
        _ => panic!("Expected shrunk result"),
    }
}

#[test]
fn shrink_faults_removes_unnecessary() {
    let mut shrinker = Shrinker::new(ShrinkConfig::default());

    let faults = vec![(1, Fault::Crash), (5, Fault::Crash), (10, Fault::Crash)];

    let result = shrinker.shrink_faults(faults, |f: &[(u64, Fault)]| {
        if f.iter().any(|(op, _)| *op == 5) {
            Some("fault at 5".to_string())
        } else {
            None
        }
    });

    assert_eq!(result.len(), 1);
    assert_eq!(result[0].0, 5);
}

#[test]
fn seed_candidates_generates_neighborhood() {
    let candidates = seed_candidates(100, 5);
    assert!(candidates.contains(&100));
    assert!(candidates.contains(&99));
    assert!(candidates.contains(&101));
    assert!(candidates.contains(&98));
    assert!(candidates.contains(&102));
}

#[test]
fn find_minimum_prefix_binary_search() {
    let ops: Vec<Operation> =
        (0..100).map(|i| Operation::Get { key: format!("key{}", i).into_bytes() }).collect();

    let min = find_minimum_prefix(&ops, |seq: &[Operation]| seq.len() > 50);
    assert_eq!(min, 51);
}

#[test]
fn minimal_repro_summary() {
    let repro = MinimalRepro::new(0xDEADBEEF, 42, "test failure")
        .with_operations(vec![Operation::Put { key: b"k".to_vec(), value: b"v".to_vec() }])
        .with_faults(vec![(10, Fault::Crash)]);

    let summary = repro.summary();
    assert!(summary.contains("DEADBEEF"));
    assert!(summary.contains("42"));
    assert!(summary.contains("test failure"));
}

#[test]
fn delta_debug_config_defaults() {
    let config = DeltaDebugConfig::default();
    assert!(config.max_iterations_per_axis > 0);
    assert!(config.probability_step > 0);
    assert!(config.min_probability > 0);
    assert!(config.min_workload_size > 0);
}

#[test]
fn delta_debug_config_variants() {
    let quick = DeltaDebugConfig::quick();
    let thorough = DeltaDebugConfig::thorough();

    assert!(thorough.max_iterations_per_axis > quick.max_iterations_per_axis);
    assert!(thorough.probability_step < quick.probability_step);
}

#[test]
fn shrunk_fault_config_from_scenario() {
    let config = ShrunkFaultConfig::from_scenario(FaultScenario::Combined, 500);
    assert_eq!(config.scenario, FaultScenario::Combined);
    assert_eq!(config.workload_len, 500);
    assert!(config.enabled_fault_count() > 0);
}

#[test]
fn shrunk_fault_config_modifications() {
    let config = ShrunkFaultConfig::from_scenario(FaultScenario::Combined, 500);

    let modified = config.with_fault_prob("partial_write", 0);
    assert_eq!(modified.partial_write_prob, 0);
    assert_eq!(modified.workload_len, 500);

    let modified = config.with_workload_len(100);
    assert_eq!(modified.workload_len, 100);

    let modified = config.with_disk_full(1024);
    assert_eq!(modified.disk_full_threshold, 1024);
}

#[test]
fn shrunk_fault_config_to_runtime_config() {
    let config = ShrunkFaultConfig::from_scenario(FaultScenario::Combined, 500);
    let runtime = config.to_runtime_config();

    assert_eq!(runtime.partial_write_prob, config.partial_write_prob);
    assert_eq!(runtime.slow_write_prob, config.slow_write_prob);
}

#[test]
fn delta_debug_stats_summary() {
    let stats = DeltaDebugStats {
        total_replays: 100,
        successful_replays: 80,
        failed_replays: 20,
        original_workload_size: 1000,
        final_workload_size: 100,
        original_fault_types: 5,
        final_fault_types: 2,
        ..Default::default()
    };

    let summary = stats.summary();
    assert!(summary.contains("100"));
    assert!(summary.contains("80"));
    assert!(summary.contains("90"));
}

#[test]
fn delta_debug_shrinker_no_failure() {
    let report = FailureReport::new(
        42,
        FaultScenario::NoFaults,
        10,
        FailureKind::Custom("test".into()),
    );

    let mut shrinker = DeltaDebugShrinker::new(DeltaDebugConfig::quick());
    let result = shrinker.shrink(&report);

    // A seed that passes leaves nothing to shrink.
    assert!(result.is_none());
    assert_eq!(shrinker.stats().total_replays, 1);
    shrinker.reset_stats();
    assert_eq!(shrinker.stats().total_replays, 0);
    assert!(shrink_failure(&report).is_none());
    assert!(quick_shrink(&report).is_none());
}

#[test]
fn failure_kind_matches_same_variant() {
    let kind1 = FailureKind::SerializabilityCycle { txn_ids: vec![1, 2] };
    let kind2 = FailureKind::SerializabilityCycle { txn_ids: vec![3, 4, 5] };
    assert!(kind1.matches(&kind2));
}

#[test]
fn failure_kind_matches_different_variant() {
    let cycle = FailureKind::SerializabilityCycle { txn_ids: vec![1] };
    let lost = FailureKind::LostWrite { key: vec![], expected: vec![] };
    assert!(!cycle.matches(&lost));
}

#[test]
fn shrinker_converges_on_synthetic_workload_bug() {
    let fail_at_op = 15;
    let initial_workload = 50;
    let failure_kind = FailureKind::SerializabilityCycle { txn_ids: vec![1, 2, 3] };

    let report = FailureReport::new(
        0xDEADBEEF,
        FaultScenario::Combined,
        initial_workload,
        failure_kind.clone(),
    );

    let mut shrinker = TestableShrinker::for_workload_bug(
        DeltaDebugConfig::default(),
        fail_at_op,
        failure_kind.clone(),
    );

    let result = shrinker.shrink(&report);
    assert!(result.is_some(), "Shrinker should find a minimal repro");

    let result = result.unwrap();

    assert!(
        result.fault_config.workload_len <= fail_at_op + 5,
        "Workload should be shrunk close to failure point: got {}, expected <= {}",
        result.fault_config.workload_len,
        fail_at_op + 5
    );

    assert_eq!(result.fault_config.partial_write_prob, 0, "partial_write_prob should be 0");
    assert_eq!(result.fault_config.slow_write_prob, 0, "slow_write_prob should be 0");
    assert_eq!(result.fault_config.clock_skew_prob, 0, "clock_skew_prob should be 0");
    assert_eq!(result.fault_config.process_pause_prob, 0, "process_pause_prob should be 0");
    assert_eq!(result.fault_config.disk_full_threshold, 0, "disk_full_threshold should be 0");

    assert!(
        result.stats.total_replays < 100,
        "Should converge in < 100 replays, got {}",
        result.stats.total_replays
    );

    assert!(
        result.report.failure_kind.matches(&failure_kind),
        "Failure kind should be preserved"
    );
}

#[test]
fn shrinker_converges_on_fault_dependent_bug() {
    let min_prob_threshold = 50_000;
    let min_workload = 10;
    let initial_workload = 100;
    let failure_kind = FailureKind::LostWrite {
        key: b"test_key".to_vec(),
        expected: b"test_value".to_vec(),
    };

    let report = FailureReport::new(
        0xCAFEBABE,
        FaultScenario::Combined,
        initial_workload,
        failure_kind.clone(),
    );

    let mut shrinker = TestableShrinker::for_fault_dependent_bug(
        DeltaDebugConfig::default(),
        min_prob_threshold,
        min_workload,
        failure_kind.clone(),
    );

    let result = shrinker.shrink(&report);
    assert!(result.is_some(), "Shrinker should find a minimal repro");

    let result = result.unwrap();

    assert!(
        result.fault_config.partial_write_prob >= min_prob_threshold,
        "partial_write_prob should be >= {}: got {}",
        min_prob_threshold,
        result.fault_config.partial_write_prob
    );
    assert!(
        result.fault_config.partial_write_prob <= 150_000,
        "partial_write_prob should be near minimum: got {}",
        result.fault_config.partial_write_prob
    );

    assert_eq!(result.fault_config.slow_write_prob, 0, "slow_write_prob should be 0");
    assert_eq!(result.fault_config.clock_skew_prob, 0, "clock_skew_prob should be 0");
    assert_eq!(result.fault_config.process_pause_prob, 0, "process_pause_prob should be 0");
    assert_eq!(result.fault_config.disk_full_threshold, 0, "disk_full_threshold should be 0");

    assert!(
        result.stats.total_replays < 200,
        "Should converge in < 200 replays, got {}",
        result.stats.total_replays
    );
}

#[test]
fn shrinker_is_deterministic() {
    let fail_at_op = 25;
    let initial_workload = 100;
    let failure_kind = FailureKind::SerializabilityCycle { txn_ids: vec![1, 2] };

    let report = FailureReport::new(
        0xDEADBEEF,
        FaultScenario::Combined,
        initial_workload,
        failure_kind.clone(),
    );

    let mut shrinker1 = TestableShrinker::for_workload_bug(
        DeltaDebugConfig::default(),
        fail_at_op,
        failure_kind.clone(),
    );
    let result1 = shrinker1.shrink(&report).expect("Should shrink");

    let mut shrinker2 = TestableShrinker::for_workload_bug(
        DeltaDebugConfig::default(),
        fail_at_op,
        failure_kind.clone(),
    );
    let result2 = shrinker2.shrink(&report).expect("Should shrink");

    assert_eq!(result1.fault_config, result2.fault_config, "Configurations should match");
    assert_eq!(
        result1.stats.total_replays, result2.stats.total_replays,
        "Replay counts should match"
    );
    assert_eq!(
        result1.stats.trace.len(),
        result2.stats.trace.len(),
        "Trace lengths should match"
    );

    for (s1, s2) in result1.stats.trace.iter().zip(result2.stats.trace.iter()) {
        assert_eq!(s1, s2, "Trace steps should match");
    }
}

struct TwoKinds {
    above: FailureKind,
    below: FailureKind,
}

impl ReplayFn for TwoKinds {
    fn may_give(&self, _: u64, _: ShrunkFaultConfig, _: Option<KindView>) -> bool {
        true
    }

    fn replay(&self, _seed: u64, cfg: &ShrunkFaultConfig) -> Result<(), FailureKind> {
        if cfg.workload_len >= 20 {
            if cfg.partial_write_prob >= 100_000 {
                Err(self.above.clone())
            } else {
                Err(self.below.clone())
            }
        } else {
            Ok(())
        }
    }
}

#[test]
fn shrinker_preserves_failure_kind() {
    let original_kind = FailureKind::SerializabilityCycle { txn_ids: vec![1, 2, 3] };
    let alternate_kind = FailureKind::LostWrite {
        key: b"lost".to_vec(),
        expected: b"value".to_vec(),
    };

    let replay_fn = TwoKinds { above: original_kind.clone(), below: alternate_kind };

    let report =
        FailureReport::new(0x12345678, FaultScenario::Combined, 100, original_kind.clone());

    let mut shrinker = TestableShrinker::new(DeltaDebugConfig::default(), replay_fn);
    let result = shrinker.shrink(&report);

    assert!(result.is_some(), "Should find a minimal repro");
    let result = result.unwrap();

    assert!(
        result.fault_config.partial_write_prob >= 100_000,
        "partial_write_prob should stay >= 0.1 to preserve failure kind: got {}",
        result.fault_config.partial_write_prob
    );

    assert!(
        result.report.failure_kind.matches(&original_kind),
        "Failure kind should be preserved as SerializabilityCycle"
    );

    assert!(
        result.fault_config.workload_len <= 30,
        "Workload should be shrunk: got {}",
        result.fault_config.workload_len
    );
}

#[test]
fn seeds_near_a_failing_one_are_tried() {
    let mut shrinker = Shrinker::new(ShrinkConfig {
        max_seed_neighborhood: 4,
        ..ShrinkConfig::default()
    });
    let result = shrinker.shrink_seed(100, |seed: u64| {
        if seed == 98 {
            Some(MinimalRepro::new(seed, 1, "near"))
        } else if seed == 100 {
            Some(MinimalRepro::new(seed, 50, "there"))
        } else {
            None
        }
    });
    assert!(result.repro().is_some());
    assert!(shrinker.stats().seeds_tried > 0);
    assert!(!shrinker.stats().summary().is_empty());

    let none = shrinker.shrink_seed(100, |_: u64| None);
    assert!(none.repro().is_none());
    assert!(!none.is_shrunk());
    shrinker.reset_stats();
    assert_eq!(shrinker.stats().seeds_tried, 0);
}

#[test]
fn operations_are_removed_by_their_places() {
    let ops: Vec<Operation> =
        (0..5).map(|i| Operation::Get { key: vec![i as u8] }).collect();
    let left = remove_operations(&ops, &[0, 3, 9]);
    let keys: Vec<u8> = left.iter().map(|o| o.key().unwrap()[0]).collect();
    assert_eq!(keys, vec![1, 2, 4]);
}

#[test]
fn steps_display_what_they_did() {
    let yes = ShrinkStep::accepted("workload", "100", "50");
    assert!(yes.accepted);
    assert!(yes.display().contains("workload"));
    let no = ShrinkStep::rejected("partial_write", "0.5", "0", "no failure");
    assert!(!no.accepted);
    assert!(no.display().contains("no failure"));
    assert_eq!(no.copy(), no);
}

#[test]
fn fault_probabilities_go_by_name() {
    let c = ShrunkFaultConfig::from_scenario(FaultScenario::Chaos, 10);
    let probs = c.fault_probs();
    for (name, p) in &probs {
        assert!(*p <= 1_000_000);
        let off = c.with_fault_prob(name, 0);
        assert!(off.fault_probs().iter().any(|(n, q)| n == name && *q == 0));
    }
    assert_eq!(c.with_fault_prob("unheard_of", 5), c);
}

#[test]
fn reductions_round_a_half_to_the_even_digit() {
    let mut s = String::new();
    push_reduction(&mut s, 16, 15);
    assert_eq!(s, "6.2");
    let mut s = String::new();
    push_reduction(&mut s, 16, 13);
    assert_eq!(s, "18.8");
    let mut s = String::new();
    push_reduction(&mut s, 3, 1);
    assert_eq!(s, "66.7");
    assert_eq!(rounded_quotient(5, 2), 2);
    assert_eq!(rounded_quotient(7, 2), 4);
}
