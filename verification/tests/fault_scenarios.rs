use crackeddb::fault_scenarios::{
    create_env_for_scenario, create_stress_config, run_all_scenarios, run_quick_validation,
    run_scenario, run_scenario_with_config, run_scenario_with_draws, run_thorough_validation,
    FaultScenario, FaultStats, ScenarioConfig, ScenarioReport,
};
use crackeddb::sim_env::{FaultEvent, Machine, MachineDraw, RuntimeFaultConfig, SimEnv};

#[test]
fn scenario_names_are_unique() {
    let scenarios = FaultScenario::all();
    let names: std::collections::HashSet<_> = scenarios.iter().map(|s| s.name()).collect();
    assert_eq!(names.len(), scenarios.len(), "All scenario names must be unique");
}

#[test]
fn none_scenario_has_no_faults() {
    let runtime = FaultScenario::NoFaults.runtime_config();
    let driver = FaultScenario::NoFaults.driver_config();

    assert!(runtime.all_disabled(), "None scenario should have no runtime faults");
    assert_eq!(driver.crash_probability, 0, "None scenario should have no crashes");
    assert_eq!(FaultScenario::NoFaults.name(), "none");
}

#[test]
fn partial_writes_scenario_enables_partial_writes() {
    let config = FaultScenario::PartialWrites.runtime_config();
    assert!(config.partial_write_prob > 0, "PartialWrites should enable partial writes");
}

#[test]
fn disk_full_scenario_enables_disk_full() {
    let config = FaultScenario::DiskFull.runtime_config();
    assert!(config.disk_full_threshold > 0, "DiskFull should enable disk full");
}

#[test]
fn slow_disk_scenario_enables_slow_writes() {
    let config = FaultScenario::SlowDisk.runtime_config();
    assert!(config.slow_write_prob > 0, "SlowDisk should enable slow writes");
}

#[test]
fn clock_skew_scenario_enables_clock_skew() {
    let config = FaultScenario::ClockSkew.runtime_config();
    assert!(config.clock_skew_prob > 0, "ClockSkew should enable clock skew");
}

#[test]
fn process_pause_scenario_enables_process_pause() {
    let config = FaultScenario::ProcessPause.runtime_config();
    assert!(config.process_pause_prob > 0, "ProcessPause should enable process pause");
}

#[test]
fn crash_heavy_scenario_enables_crashes() {
    let config = FaultScenario::CrashHeavy.driver_config();
    assert!(config.crash_probability > 0, "CrashHeavy should enable crashes");
}

#[test]
fn combined_scenario_enables_multiple_faults() {
    let runtime = FaultScenario::Combined.runtime_config();
    let driver = FaultScenario::Combined.driver_config();

    assert!(!runtime.all_disabled(), "Combined should have runtime faults");
    assert!(driver.crash_probability > 0, "Combined should have crashes");
}

#[test]
fn chaos_scenario_most_aggressive() {
    let chaos = FaultScenario::Chaos.runtime_config();
    let combined = FaultScenario::Combined.runtime_config();

    assert!(
        chaos.partial_write_prob >= combined.partial_write_prob,
        "Chaos should be at least as aggressive as Combined"
    );
}

#[test]
fn create_env_for_scenario_uses_faults() {
    let env = create_env_for_scenario(42, FaultScenario::PartialWrites);
    let config = env.fault_config();
    assert!(config.partial_write_prob > 0);
}

#[test]
fn create_env_for_none_has_no_faults() {
    let env = create_env_for_scenario(42, FaultScenario::NoFaults);
    let config = env.fault_config();
    assert!(config.all_disabled());
}

#[test]
fn run_quick_scenario() {
    let result = run_scenario_with_config(42, ScenarioConfig::quick(FaultScenario::NoFaults));
    assert!(result.passed(), "Quick None scenario should pass");
}

#[test]
fn scenario_result_summary() {
    let result = run_scenario_with_config(42, ScenarioConfig::quick(FaultScenario::NoFaults));
    let summary = result.summary();
    assert!(summary.contains("none"), "Summary should contain scenario name");
}

#[test]
fn fault_stats_counts_correctly() {
    let stats = FaultStats {
        partial_writes: 5,
        slow_writes: 3,
        driver_crashes: 2,
        ..Default::default()
    };

    assert_eq!(stats.total_runtime_faults(), 8);
    assert_eq!(stats.total_faults(), 10);
}

#[test]
fn quick_scenarios_subset() {
    let quick = FaultScenario::quick_scenarios();
    let all = FaultScenario::all();

    for scenario in &quick {
        assert!(all.contains(scenario), "Quick scenarios should be subset of all");
    }
}

#[test]
fn thorough_scenarios_subset() {
    let thorough = FaultScenario::thorough_scenarios();
    let all = FaultScenario::all();

    for scenario in &thorough {
        assert!(all.contains(scenario), "Thorough scenarios should be subset of all");
    }
}

#[test]
fn acceptance_quick_validation() {
    let results = run_quick_validation(0xACCEF7);
    for result in &results {
        assert!(
            result.passed(),
            "Quick validation failed for {}: {}",
            result.scenario.name(),
            result.result.failure.as_deref().unwrap_or("unknown")
        );
    }
}

fn check_seeds(scenario: FaultScenario, seeds: std::ops::Range<u64>) {
    for seed in seeds {
        let result = run_scenario_with_config(seed, ScenarioConfig::quick(scenario));
        assert!(
            result.passed(),
            "{} scenario failed for seed {}: {}",
            scenario.name(),
            seed,
            result.result.failure.as_deref().unwrap_or("unknown")
        );
    }
}

#[test]
fn acceptance_none_10_seeds() {
    check_seeds(FaultScenario::NoFaults, 0..10);
}

#[test]
fn acceptance_partial_writes_5_seeds() {
    check_seeds(FaultScenario::PartialWrites, 100..105);
    for seed in 100..105 {
        let config = ScenarioConfig::quick(FaultScenario::PartialWrites);
        let stats = run_scenario_with_config(seed, config).fault_stats();
        assert!(stats.partial_writes > 0, "a write should be cut for seed {}", seed);
    }
}

#[test]
fn acceptance_crash_heavy_5_seeds() {
    check_seeds(FaultScenario::CrashHeavy, 200..205);
}

#[test]
fn acceptance_combined_3_seeds() {
    check_seeds(FaultScenario::Combined, 300..303);
}

#[test]
fn acceptance_fault_determinism() {
    let seed = 0xDE7E5714;
    let scenario = FaultScenario::Combined;

    let result1 = run_scenario_with_config(seed, ScenarioConfig::quick(scenario));
    let result2 = run_scenario_with_config(seed, ScenarioConfig::quick(scenario));

    assert_eq!(
        result1.result.operations, result2.result.operations,
        "Operations should be identical"
    );
    assert_eq!(result1.result.crashes, result2.result.crashes, "Crashes should be identical");
    assert!(!result1.runtime_fault_events.is_empty(), "Faults should strike");
    assert_eq!(
        result1.runtime_fault_events.len(),
        result2.runtime_fault_events.len(),
        "Fault event count should be identical"
    );

    for (i, (e1, e2)) in result1
        .runtime_fault_events
        .iter()
        .zip(result2.runtime_fault_events.iter())
        .enumerate()
    {
        assert_eq!(e1, e2, "Fault event {} differs: {:?} vs {:?}", i, e1, e2);
    }
}

#[test]
fn a_report_counts_its_results() {
    let results = run_quick_validation(3);
    let n = results.len();
    let report = ScenarioReport::new(3, results);
    assert!(report.all_passed());
    assert_eq!(report.passed_count(), n);
    assert_eq!(report.failed_count(), 0);
    assert!(report.failures().is_empty());
    assert!(report.summary().contains("none"));
}

#[test]
fn one_thorough_sweep_passes() {
    let report = ScenarioReport::new(1, run_thorough_validation(1));
    assert!(report.all_passed(), "{}", report.summary());
    assert_eq!(report.results.len(), FaultScenario::thorough_scenarios().len());
}

#[test]
fn one_full_sweep_passes() {
    let report = ScenarioReport::new(2, run_all_scenarios(2));
    assert!(report.all_passed(), "{}", report.summary());
    assert_eq!(report.results.len(), FaultScenario::all().len());
}

#[test]
fn scenarios_set_up_their_runs() {
    let quick = ScenarioConfig::quick(FaultScenario::CrashHeavy);
    let config = create_stress_config(&quick);
    assert_eq!(config.max_operations, quick.max_operations);
    assert_eq!(config.max_crashes, quick.max_crashes);
    assert_eq!(config.faults, FaultScenario::CrashHeavy.driver_config());
    let thorough = ScenarioConfig::thorough(FaultScenario::CrashHeavy);
    let stress = ScenarioConfig::stress(FaultScenario::CrashHeavy);
    assert!(quick.max_operations < thorough.max_operations);
    assert!(thorough.max_operations < stress.max_operations);
    let result = run_scenario(12, FaultScenario::CrashHeavy);
    assert!(result.passed());
    assert_eq!(result.fault_stats().driver_crashes, result.result.crashes);
    assert!(!FaultScenario::CrashHeavy.description().is_empty());
}

fn calm() -> MachineDraw {
    MachineDraw { partial: 999_999, slow: 999_999, skew: 999_999, pause: 999_999, amount: 250_000 }
}

#[test]
fn a_machine_is_struck_where_a_number_is_below_a_probability() {
    let faults = RuntimeFaultConfig {
        partial_write_prob: 300_000,
        slow_write_prob: 200_000,
        slow_write_duration: 100,
        clock_skew_prob: 500_000,
        clock_skew_max: 2_000,
        process_pause_prob: 100_000,
        process_pause_duration: 500,
        disk_full_threshold: 250,
    };
    let draws = vec![
        calm(),
        MachineDraw { partial: 299_999, ..calm() },
        MachineDraw { partial: 300_000, slow: 0, skew: 499_999, pause: 99_999, ..calm() },
    ];
    let mut machine = Machine::new(faults, draws);
    assert!(machine.write(100));
    assert!(machine.events.is_empty());
    assert!(machine.write(100));
    assert_eq!(machine.events, vec![FaultEvent::PartialWrite { wanted: 100, done: 25 }]);
    assert!(machine.write(10));
    assert_eq!(
        machine.events[1..],
        [
            FaultEvent::SlowWrite { duration: 100 },
            FaultEvent::ClockSkew { by: 500 },
            FaultEvent::ProcessPause { duration: 500 },
        ]
    );
    assert_eq!(machine.clock, 1_100);
    // The draws start again, and there is no room for the write.
    assert!(!machine.write(41));
    assert_eq!(machine.events.last(), Some(&FaultEvent::DiskFull { wanted: 41 }));
    assert_eq!(machine.written, 210);
    // There is room for a smaller one.
    assert!(machine.write(40));
    assert_eq!(machine.events.last(), Some(&FaultEvent::PartialWrite { wanted: 40, done: 10 }));
}

#[test]
fn a_machine_without_faults_is_never_struck() {
    let zero = MachineDraw { partial: 0, slow: 0, skew: 0, pause: 0, amount: 0 };
    let mut machine = Machine::new(RuntimeFaultConfig::default(), vec![zero]);
    for n in 0..100 {
        assert!(machine.write(n * 1_000_000));
    }
    assert!(machine.events.is_empty());
    let config = ScenarioConfig::quick(FaultScenario::NoFaults);
    assert!(run_scenario_with_draws(3, config, vec![zero]).runtime_fault_events.is_empty());
}

#[test]
fn every_scenario_with_machine_faults_is_struck() {
    for scenario in FaultScenario::all() {
        let r = run_scenario(9, scenario);
        assert!(r.passed(), "{}", r.summary());
        let stats = r.fault_stats();
        assert_eq!(stats.total_runtime_faults() as usize, r.runtime_fault_events.len());
        let config = scenario.runtime_config();
        assert_eq!(stats.partial_writes > 0, config.partial_write_prob > 0, "{}", scenario.name());
        assert_eq!(stats.slow_writes > 0, config.slow_write_prob > 0, "{}", scenario.name());
        assert_eq!(stats.clock_skews > 0, config.clock_skew_prob > 0, "{}", scenario.name());
        assert_eq!(stats.process_pauses > 0, config.process_pause_prob > 0, "{}", scenario.name());
    }
}

#[test]
fn the_numbers_drawn_decide_which_writes_are_struck() {
    let config = ScenarioConfig::quick(FaultScenario::SlowDisk);
    let none = run_scenario_with_draws(4, config, vec![calm()]);
    assert!(none.passed());
    assert!(none.runtime_fault_events.is_empty());
    let all = run_scenario_with_draws(4, config, vec![MachineDraw { slow: 0, ..calm() }]);
    assert!(all.passed());
    assert!(!all.runtime_fault_events.is_empty());
    let half =
        run_scenario_with_draws(4, config, vec![calm(), MachineDraw { slow: 0, ..calm() }]);
    assert_eq!(half.runtime_fault_events.len(), all.runtime_fault_events.len() / 2);
    assert!(all.runtime_fault_events.iter().all(|e| *e == FaultEvent::SlowWrite { duration: 100 }));
}

#[test]
fn worlds_from_one_seed_draw_the_same() {
    let faults = FaultScenario::Chaos.runtime_config();
    let a = SimEnv::new_with_faults(0, faults);
    let b = SimEnv::new_with_faults(0, faults);
    assert_eq!(a.machine.draws, b.machine.draws);
    assert_eq!(a.machine.draws.len(), 256);
    assert_ne!(a.machine.draws[0], a.machine.draws[1]);
    let (mut x, mut y) = (a.rng, b.rng);
    assert_eq!(x.next(), y.next());
    assert_ne!(x.next(), 0);
}
