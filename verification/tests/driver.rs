use crackeddb::driver::{
    replay_seed, run_in, run_stress_test, run_stress_tests, seed_range, StressConfig, StressDriver,
};
use crackeddb::fault::FaultConfig;
use crackeddb::sim_env::{RuntimeFaultConfig, SimEnv};
use crackeddb::workload::WorkloadConfig;

#[test]
fn basic_stress_test() {
    let config = StressConfig {
        max_operations: 100,
        max_crashes: 2,
        faults: FaultConfig::none(),
        ..Default::default()
    };

    let result = run_stress_test(42, config);
    assert!(result.passed, "Basic stress test should pass: {}", result.summary());
}

#[test]
fn txn_stress_with_crashes() {
    let config = StressConfig {
        max_operations: 200,
        max_crashes: 5,
        faults: FaultConfig {
            crash_probability: 100_000,
            min_ops_between_crashes: 10,
            ..Default::default()
        },
        ..Default::default()
    };

    let result = run_stress_test(12345, config);
    assert!(result.passed, "Stress test with crashes should pass: {}", result.summary());
    assert!(result.crashes > 0, "Should have had some crashes");
}

#[test]
fn stress_test_deterministic() {
    let config = StressConfig {
        max_operations: 50,
        max_crashes: 2,
        faults: FaultConfig {
            crash_probability: 200_000,
            min_ops_between_crashes: 5,
            ..Default::default()
        },
        ..Default::default()
    };

    let result1 = run_stress_test(999, config.clone());
    let result2 = run_stress_test(999, config);

    assert_eq!(result1.operations, result2.operations);
    assert_eq!(result1.crashes, result2.crashes);
    assert_eq!(result1.passed, result2.passed);
}

#[test]
fn stress_test_write_heavy() {
    let config = StressConfig {
        workload: WorkloadConfig::write_heavy(),
        max_operations: 200,
        max_crashes: 3,
        faults: FaultConfig {
            crash_probability: 50_000,
            min_ops_between_crashes: 20,
            ..Default::default()
        },
        ..Default::default()
    };

    let result = run_stress_test(0xBEEF, config);
    assert!(result.passed, "Write-heavy test should pass: {}", result.summary());
}

#[test]
fn multiple_seeds() {
    let config = StressConfig::quick();
    let results: Vec<_> = seed_range(100, 10)
        .into_iter()
        .map(|seed| run_stress_test(seed, config.clone()))
        .collect();

    for result in &results {
        assert!(result.passed, "Seed {} failed: {}", result.seed, result.summary());
    }
}

#[test]
fn stress_result_to_repro() {
    let config = StressConfig::quick();
    let result = run_stress_test(0xDEAD, config);

    let repro = result.to_repro();
    assert_eq!(repro.seed, result.seed);
}

#[test]
fn runs_count_their_operations() {
    let config = StressConfig {
        max_operations: 120,
        max_crashes: 0,
        faults: FaultConfig::none(),
        ..Default::default()
    };
    let mut driver = StressDriver::new(SimEnv::new(7), config);
    assert_eq!(driver.seed(), 7);
    let result = driver.run();
    assert!(result.passed);
    assert_eq!(result.seed, 7);
    assert_eq!(result.crashes, 0);
    assert!(result.failure.is_none());
    assert!(result.fault_history.is_empty());
    assert!(driver.fault_events().is_empty());
    assert!(result.operations <= 120);
    assert!(result.summary().starts_with("PASS"));
}

#[test]
fn many_seeds_are_run_in_turn() {
    let seeds = seed_range(5, 3);
    assert_eq!(seeds, vec![5, 6, 7]);
    let results = run_stress_tests(&seeds, StressConfig::quick());
    assert_eq!(results.iter().map(|r| r.seed).collect::<Vec<_>>(), seeds);
    for r in &results {
        let again = replay_seed(r.seed, StressConfig::quick());
        assert_eq!(again.operations, r.operations);
        assert_eq!(again.crashes, r.crashes);
        assert_eq!(again.passed, r.passed);
    }
}

#[test]
fn crash_heavy_runs_crash_and_pass() {
    let mut config = StressConfig::crash_heavy();
    config.max_operations = 300;
    let result = run_stress_test(77, config);
    assert!(result.passed, "{}", result.summary());
    assert!(result.crashes > 0);
    assert_eq!(result.fault_history.len() as u64, result.crashes);
}

#[test]
fn a_finished_run_leaves_its_database() {
    let config = StressConfig {
        max_operations: 80,
        max_crashes: 3,
        faults: FaultConfig::none(),
        ..Default::default()
    };
    let mut driver = StressDriver::new(SimEnv::new(21), config);
    let first = driver.run();
    assert!(first.passed, "{}", first.summary());
    assert_eq!(first.operations, 80);
    let second = driver.run();
    assert!(second.passed, "{}", second.summary());
    assert_eq!(second.operations, 80);
    assert_eq!(second.crashes, 0);
    assert_eq!(second.seed, 21);
    assert_eq!(second.invariant_report.total_checks, first.invariant_report.total_checks);
}

#[test]
fn a_run_goes_by_the_numbers_handed_in() {
    let config = || StressConfig {
        max_operations: 40,
        max_crashes: 3,
        faults: FaultConfig::none(),
        ..Default::default()
    };
    let world = |numbers: Vec<u64>| {
        SimEnv::drawing(3, numbers, RuntimeFaultConfig::default(), vec![])
    };
    let numbers: Vec<u64> = (0..97).map(|i| i * i * 31 + 7).collect();
    let mut driver = StressDriver::new(world(numbers.clone()), config());
    let first = driver.run();
    assert!(first.passed, "{}", first.summary());
    assert_eq!(first.operations, 40);
    let again = run_in(world(numbers), config());
    assert_eq!(again.seed, 3);
    assert_eq!(again.operations, first.operations);
    assert_eq!(again.passed, first.passed);
    // Zeros draw puts of the first key alone.
    let zeros = run_in(world(vec![0]), config());
    assert!(zeros.passed, "{}", zeros.summary());
    assert_eq!(zeros.operations, 40);
}
