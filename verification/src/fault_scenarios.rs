//! Predefined fault scenarios: which faults strike the driver and the machine, and how often.

use crate::driver::{
    run_in, seed_gives, stress_text, usual_stress, StressConfig, StressResult, StressView,
};
use crate::fault::{no_faults, FaultConfig};
use crate::model::{
    lemma_filter_empty, lemma_filter_has, lemma_filter_push, lemma_filter_step,
};
use crate::sim_env::{
    copy_events, draws_from_seed, fresh_machine, no_runtime_faults, seeded_machine, FaultEvent,
    MachineDraw, MachineView, RuntimeFaultConfig, SimEnv,
};
use crate::text::{decimal, hex, push_count, push_decimal, push_hex16, text_of};
use crate::workload::usual_workload;
use vstd::prelude::*;

verus! {

/// A predefined fault injection scenario.
#[derive(Clone, Copy, Debug, PartialEq, Eq, Structural)]
pub enum FaultScenario {
    /// No faults: baseline testing.
    NoFaults,
    /// Partial write faults only.
    PartialWrites,
    /// Disk full faults only.
    DiskFull,
    /// Slow write faults only.
    SlowDisk,
    /// Clock skew faults only.
    ClockSkew,
    /// Process pause faults only.
    ProcessPause,
    /// Crash faults only.
    CrashHeavy,
    /// Combined partial writes and crashes.
    PartialWritesWithCrashes,
    /// Combined disk faults: slow and full.
    DiskStress,
    /// Combined timing faults: clock skew and process pause.
    TimingChaos,
    /// All faults at moderate rates.
    Combined,
    /// Aggressive faults for maximum stress.
    Chaos,
}

/// The name of a scenario.
pub open spec fn scenario_name(s: FaultScenario) -> Seq<char> {
    match s {
        FaultScenario::NoFaults => "none"@,
        FaultScenario::PartialWrites => "partial_writes"@,
        FaultScenario::DiskFull => "disk_full"@,
        FaultScenario::SlowDisk => "slow_disk"@,
        FaultScenario::ClockSkew => "clock_skew"@,
        FaultScenario::ProcessPause => "process_pause"@,
        FaultScenario::CrashHeavy => "crash_heavy"@,
        FaultScenario::PartialWritesWithCrashes => "partial_writes_with_crashes"@,
        FaultScenario::DiskStress => "disk_stress"@,
        FaultScenario::TimingChaos => "timing_chaos"@,
        FaultScenario::Combined => "combined"@,
        FaultScenario::Chaos => "chaos"@,
    }
}

/// The description of a scenario.
pub open spec fn scenario_description(s: FaultScenario) -> Seq<char> {
    match s {
        FaultScenario::NoFaults => "Baseline testing with no faults"@,
        FaultScenario::PartialWrites => "Tests torn write recovery"@,
        FaultScenario::DiskFull => "Tests ENOSPC handling and recovery"@,
        FaultScenario::SlowDisk => "Tests behavior under slow disk IO"@,
        FaultScenario::ClockSkew => "Tests clock drift handling"@,
        FaultScenario::ProcessPause => "Tests GC pause-like scenarios"@,
        FaultScenario::CrashHeavy => "Aggressive crash testing"@,
        FaultScenario::PartialWritesWithCrashes => "Torn writes combined with crashes"@,
        FaultScenario::DiskStress => "Slow disk + disk full scenarios"@,
        FaultScenario::TimingChaos => "Clock skew + process pause chaos"@,
        FaultScenario::Combined => "All faults at moderate rates"@,
        FaultScenario::Chaos => "Maximum stress with all faults aggressive"@,
    }
}

/// The machine faults of a scenario.
pub open spec fn machine_faults(s: FaultScenario) -> RuntimeFaultConfig {
    match s {
        FaultScenario::NoFaults => no_runtime_faults(),
        FaultScenario::PartialWrites => RuntimeFaultConfig {
            partial_write_prob: 300_000,
            ..no_runtime_faults()
        },
        FaultScenario::DiskFull => RuntimeFaultConfig {
            disk_full_threshold: 1_048_576,
            ..no_runtime_faults()
        },
        FaultScenario::SlowDisk => RuntimeFaultConfig {
            slow_write_prob: 200_000,
            slow_write_duration: 100,
            ..no_runtime_faults()
        },
        FaultScenario::ClockSkew => RuntimeFaultConfig {
            clock_skew_prob: 300_000,
            clock_skew_max: 1_000,
            ..no_runtime_faults()
        },
        FaultScenario::ProcessPause => RuntimeFaultConfig {
            process_pause_prob: 100_000,
            process_pause_duration: 500,
            ..no_runtime_faults()
        },
        FaultScenario::CrashHeavy => no_runtime_faults(),
        FaultScenario::PartialWritesWithCrashes => RuntimeFaultConfig {
            partial_write_prob: 200_000,
            ..no_runtime_faults()
        },
        FaultScenario::DiskStress => RuntimeFaultConfig {
            disk_full_threshold: 2_097_152,
            slow_write_prob: 300_000,
            slow_write_duration: 50,
            ..no_runtime_faults()
        },
        FaultScenario::TimingChaos => RuntimeFaultConfig {
            clock_skew_prob: 500_000,
            clock_skew_max: 2_000,
            process_pause_prob: 300_000,
            process_pause_duration: 200,
            ..no_runtime_faults()
        },
        FaultScenario::Combined => RuntimeFaultConfig {
            partial_write_prob: 100_000,
            slow_write_prob: 100_000,
            slow_write_duration: 50,
            clock_skew_prob: 200_000,
            clock_skew_max: 500,
            process_pause_prob: 100_000,
            process_pause_duration: 100,
            ..no_runtime_faults()
        },
        FaultScenario::Chaos => RuntimeFaultConfig {
            partial_write_prob: 300_000,
            disk_full_threshold: 5_242_880,
            slow_write_prob: 200_000,
            slow_write_duration: 100,
            clock_skew_prob: 400_000,
            clock_skew_max: 1_000,
            process_pause_prob: 200_000,
            process_pause_duration: 300,
            ..no_runtime_faults()
        },
    }
}

/// The driver faults of a scenario.
pub open spec fn driver_faults(s: FaultScenario) -> FaultConfig {
    match s {
        FaultScenario::NoFaults => no_faults(),
        FaultScenario::PartialWrites => no_faults(),
        FaultScenario::DiskFull => no_faults(),
        FaultScenario::SlowDisk => no_faults(),
        FaultScenario::ClockSkew => no_faults(),
        FaultScenario::ProcessPause => no_faults(),
        FaultScenario::CrashHeavy => FaultConfig {
            crash_probability: 150_000,
            partial_write_probability: 20_000,
            min_ops_between_crashes: 3,
            max_crash_depth: 5,
            ..no_faults()
        },
        FaultScenario::PartialWritesWithCrashes => FaultConfig {
            crash_probability: 100_000,
            min_ops_between_crashes: 10,
            ..no_faults()
        },
        FaultScenario::DiskStress => no_faults(),
        FaultScenario::TimingChaos => no_faults(),
        FaultScenario::Combined => FaultConfig {
            crash_probability: 50_000,
            min_ops_between_crashes: 15,
            ..no_faults()
        },
        FaultScenario::Chaos => FaultConfig {
            crash_probability: 100_000,
            partial_write_probability: 50_000,
            min_ops_between_crashes: 5,
            max_crash_depth: 3,
            ..no_faults()
        },
    }
}

/// All scenarios.
pub open spec fn all_scenarios() -> Seq<FaultScenario> {
    seq![
        FaultScenario::NoFaults,
        FaultScenario::PartialWrites,
        FaultScenario::DiskFull,
        FaultScenario::SlowDisk,
        FaultScenario::ClockSkew,
        FaultScenario::ProcessPause,
        FaultScenario::CrashHeavy,
        FaultScenario::PartialWritesWithCrashes,
        FaultScenario::DiskStress,
        FaultScenario::TimingChaos,
        FaultScenario::Combined,
        FaultScenario::Chaos,
    ]
}

/// The scenarios for quick testing.
pub open spec fn quick_list() -> Seq<FaultScenario> {
    seq![
        FaultScenario::NoFaults,
        FaultScenario::PartialWrites,
        FaultScenario::CrashHeavy,
    ]
}

/// The scenarios for thorough testing.
pub open spec fn thorough_list() -> Seq<FaultScenario> {
    seq![
        FaultScenario::NoFaults,
        FaultScenario::PartialWrites,
        FaultScenario::DiskFull,
        FaultScenario::SlowDisk,
        FaultScenario::CrashHeavy,
        FaultScenario::PartialWritesWithCrashes,
        FaultScenario::Combined,
    ]
}

impl FaultScenario {
    /// Returns a human-readable name for the scenario.
    pub fn name(&self) -> (r: &'static str)
        ensures
            r@ == scenario_name(*self),
    {
        match self {
            FaultScenario::NoFaults => "none",
            FaultScenario::PartialWrites => "partial_writes",
            FaultScenario::DiskFull => "disk_full",
            FaultScenario::SlowDisk => "slow_disk",
            FaultScenario::ClockSkew => "clock_skew",
            FaultScenario::ProcessPause => "process_pause",
            FaultScenario::CrashHeavy => "crash_heavy",
            FaultScenario::PartialWritesWithCrashes => "partial_writes_with_crashes",
            FaultScenario::DiskStress => "disk_stress",
            FaultScenario::TimingChaos => "timing_chaos",
            FaultScenario::Combined => "combined",
            FaultScenario::Chaos => "chaos",
        }
    }

    /// Returns a description of the scenario.
    pub fn description(&self) -> (r: &'static str)
        ensures
            r@ == scenario_description(*self),
    {
        match self {
            FaultScenario::NoFaults => "Baseline testing with no faults",
            FaultScenario::PartialWrites => "Tests torn write recovery",
            FaultScenario::DiskFull => "Tests ENOSPC handling and recovery",
            FaultScenario::SlowDisk => "Tests behavior under slow disk IO",
            FaultScenario::ClockSkew => "Tests clock drift handling",
            FaultScenario::ProcessPause => "Tests GC pause-like scenarios",
            FaultScenario::CrashHeavy => "Aggressive crash testing",
            FaultScenario::PartialWritesWithCrashes => "Torn writes combined with crashes",
            FaultScenario::DiskStress => "Slow disk + disk full scenarios",
            FaultScenario::TimingChaos => "Clock skew + process pause chaos",
            FaultScenario::Combined => "All faults at moderate rates",
            FaultScenario::Chaos => "Maximum stress with all faults aggressive",
        }
    }

    /// Returns the machine fault configuration for this scenario.
    pub fn runtime_config(&self) -> (r: RuntimeFaultConfig)
        ensures
            r == machine_faults(*self),
    {
        match self {
            FaultScenario::NoFaults => RuntimeFaultConfig::default(),
            FaultScenario::PartialWrites => RuntimeFaultConfig {
                partial_write_prob: 300_000,
                ..RuntimeFaultConfig::default()
            },
            FaultScenario::DiskFull => RuntimeFaultConfig {
                disk_full_threshold: 1_048_576,
                ..RuntimeFaultConfig::default()
            },
            FaultScenario::SlowDisk => RuntimeFaultConfig {
                slow_write_prob: 200_000,
                slow_write_duration: 100,
                ..RuntimeFaultConfig::default()
            },
            FaultScenario::ClockSkew => RuntimeFaultConfig {
                clock_skew_prob: 300_000,
                clock_skew_max: 1_000,
                ..RuntimeFaultConfig::default()
            },
            FaultScenario::ProcessPause => RuntimeFaultConfig {
                process_pause_prob: 100_000,
                process_pause_duration: 500,
                ..RuntimeFaultConfig::default()
            },
            FaultScenario::CrashHeavy => RuntimeFaultConfig::default(),
            FaultScenario::PartialWritesWithCrashes => RuntimeFaultConfig {
                partial_write_prob: 200_000,
                ..RuntimeFaultConfig::default()
            },
            FaultScenario::DiskStress => RuntimeFaultConfig {
                disk_full_threshold: 2_097_152,
                slow_write_prob: 300_000,
                slow_write_duration: 50,
                ..RuntimeFaultConfig::default()
            },
            FaultScenario::TimingChaos => RuntimeFaultConfig {
                clock_skew_prob: 500_000,
                clock_skew_max: 2_000,
                process_pause_prob: 300_000,
                process_pause_duration: 200,
                ..RuntimeFaultConfig::default()
            },
            FaultScenario::Combined => RuntimeFaultConfig {
                partial_write_prob: 100_000,
                slow_write_prob: 100_000,
                slow_write_duration: 50,
                clock_skew_prob: 200_000,
                clock_skew_max: 500,
                process_pause_prob: 100_000,
                process_pause_duration: 100,
                ..RuntimeFaultConfig::default()
            },
            FaultScenario::Chaos => RuntimeFaultConfig {
                partial_write_prob: 300_000,
                disk_full_threshold: 5_242_880,
                slow_write_prob: 200_000,
                slow_write_duration: 100,
                clock_skew_prob: 400_000,
                clock_skew_max: 1_000,
                process_pause_prob: 200_000,
                process_pause_duration: 300,
                ..RuntimeFaultConfig::default()
            },
        }
    }

    /// Returns the driver fault configuration for this scenario.
    pub fn driver_config(&self) -> (r: FaultConfig)
        ensures
            r == driver_faults(*self),
    {
        match self {
            FaultScenario::NoFaults => FaultConfig::none(),
            FaultScenario::PartialWrites => FaultConfig::none(),
            FaultScenario::DiskFull => FaultConfig::none(),
            FaultScenario::SlowDisk => FaultConfig::none(),
            FaultScenario::ClockSkew => FaultConfig::none(),
            FaultScenario::ProcessPause => FaultConfig::none(),
            FaultScenario::CrashHeavy => FaultConfig::crash_heavy(),
            FaultScenario::PartialWritesWithCrashes => FaultConfig {
                crash_probability: 100_000,
                min_ops_between_crashes: 10,
                ..FaultConfig::default()
            },
            FaultScenario::DiskStress => FaultConfig::none(),
            FaultScenario::TimingChaos => FaultConfig::none(),
            FaultScenario::Combined => FaultConfig {
                crash_probability: 50_000,
                min_ops_between_crashes: 15,
                ..FaultConfig::default()
            },
            FaultScenario::Chaos => FaultConfig {
                crash_probability: 100_000,
                partial_write_probability: 50_000,
                min_ops_between_crashes: 5,
                max_crash_depth: 3,
                ..FaultConfig::default()
            },
        }
    }

    /// Returns all available scenarios.
    pub fn all() -> (r: Vec<FaultScenario>)
        ensures
            r@ == all_scenarios(),
    {
        let r = vec![
            FaultScenario::NoFaults,
            FaultScenario::PartialWrites,
            FaultScenario::DiskFull,
            FaultScenario::SlowDisk,
            FaultScenario::ClockSkew,
            FaultScenario::ProcessPause,
            FaultScenario::CrashHeavy,
            FaultScenario::PartialWritesWithCrashes,
            FaultScenario::DiskStress,
            FaultScenario::TimingChaos,
            FaultScenario::Combined,
            FaultScenario::Chaos,
        ];
        assert(r@ =~= all_scenarios());
        r
    }

    /// Returns scenarios suitable for quick testing.
    pub fn quick_scenarios() -> (r: Vec<FaultScenario>)
        ensures
            r@ == quick_list(),
    {
        let r = vec![
            FaultScenario::NoFaults,
            FaultScenario::PartialWrites,
            FaultScenario::CrashHeavy,
        ];
        assert(r@ =~= quick_list());
        r
    }

    /// Returns scenarios suitable for thorough testing.
    pub fn thorough_scenarios() -> (r: Vec<FaultScenario>)
        ensures
            r@ == thorough_list(),
    {
        let r = vec![
            FaultScenario::NoFaults,
            FaultScenario::PartialWrites,
            FaultScenario::DiskFull,
            FaultScenario::SlowDisk,
            FaultScenario::CrashHeavy,
            FaultScenario::PartialWritesWithCrashes,
            FaultScenario::Combined,
        ];
        assert(r@ =~= thorough_list());
        r
    }
}

/// Every scenario is listed.
pub proof fn law_scenarios_listed(s: FaultScenario)
    ensures
        all_scenarios().contains(s),
{
    let l = all_scenarios();
    match s {
        FaultScenario::NoFaults => assert(l[0] == s),
        FaultScenario::PartialWrites => assert(l[1] == s),
        FaultScenario::DiskFull => assert(l[2] == s),
        FaultScenario::SlowDisk => assert(l[3] == s),
        FaultScenario::ClockSkew => assert(l[4] == s),
        FaultScenario::ProcessPause => assert(l[5] == s),
        FaultScenario::CrashHeavy => assert(l[6] == s),
        FaultScenario::PartialWritesWithCrashes => assert(l[7] == s),
        FaultScenario::DiskStress => assert(l[8] == s),
        FaultScenario::TimingChaos => assert(l[9] == s),
        FaultScenario::Combined => assert(l[10] == s),
        FaultScenario::Chaos => assert(l[11] == s),
    }
}

/// Configuration for running a fault scenario.
#[derive(Clone, Copy, Debug)]
pub struct ScenarioConfig {
    /// The fault scenario to run.
    pub scenario: FaultScenario,
    /// Maximum number of operations.
    pub max_operations: usize,
    /// Maximum number of crashes.
    pub max_crashes: usize,
    /// Whether to stop on first violation.
    pub stop_on_violation: bool,
}

impl Default for ScenarioConfig {
    fn default() -> (r: Self)
        ensures
            r == (ScenarioConfig {
                scenario: FaultScenario::NoFaults,
                max_operations: 500,
                max_crashes: 10,
                stop_on_violation: true,
            }),
    {
        ScenarioConfig {
            scenario: FaultScenario::NoFaults,
            max_operations: 500,
            max_crashes: 10,
            stop_on_violation: true,
        }
    }
}

impl ScenarioConfig {
    /// Creates a quick scenario configuration.
    pub fn quick(scenario: FaultScenario) -> (r: Self)
        ensures
            r == (ScenarioConfig {
                scenario,
                max_operations: 100,
                max_crashes: 3,
                stop_on_violation: true,
            }),
    {
        ScenarioConfig { scenario, max_operations: 100, max_crashes: 3, stop_on_violation: true }
    }

    /// Creates a thorough scenario configuration.
    pub fn thorough(scenario: FaultScenario) -> (r: Self)
        ensures
            r == (ScenarioConfig {
                scenario,
                max_operations: 1000,
                max_crashes: 20,
                stop_on_violation: true,
            }),
    {
        ScenarioConfig { scenario, max_operations: 1000, max_crashes: 20, stop_on_violation: true }
    }

    /// Creates a stress scenario configuration, which runs to completion for statistics.
    pub fn stress(scenario: FaultScenario) -> (r: Self)
        ensures
            r == (ScenarioConfig {
                scenario,
                max_operations: 5000,
                max_crashes: 50,
                stop_on_violation: false,
            }),
    {
        ScenarioConfig { scenario, max_operations: 5000, max_crashes: 50, stop_on_violation: false }
    }
}

/// Statistics about faults that occurred during a scenario run.
#[derive(Clone, Copy, Debug, PartialEq, Eq, Structural)]
pub struct FaultStats {
    /// Number of partial writes.
    pub partial_writes: u64,
    /// Number of disk full errors.
    pub disk_full: u64,
    /// Number of slow writes.
    pub slow_writes: u64,
    /// Number of clock skews.
    pub clock_skews: u64,
    /// Number of process pauses.
    pub process_pauses: u64,
    /// Number of driver-level crashes.
    pub driver_crashes: u64,
}

impl Default for FaultStats {
    fn default() -> (r: Self)
        ensures
            r == (FaultStats {
                partial_writes: 0,
                disk_full: 0,
                slow_writes: 0,
                clock_skews: 0,
                process_pauses: 0,
                driver_crashes: 0,
            }),
    {
        FaultStats {
            partial_writes: 0,
            disk_full: 0,
            slow_writes: 0,
            clock_skews: 0,
            process_pauses: 0,
            driver_crashes: 0,
        }
    }
}

/// The sum of the machine faults.
pub open spec fn runtime_total(s: FaultStats) -> int {
    s.partial_writes + s.disk_full + s.slow_writes + s.clock_skews + s.process_pauses
}

impl FaultStats {
    /// Returns the total number of machine faults.
    pub fn total_runtime_faults(&self) -> (r: u64)
        requires
            runtime_total(*self) <= u64::MAX,
        ensures
            r == runtime_total(*self),
    {
        self.partial_writes + self.disk_full + self.slow_writes + self.clock_skews
            + self.process_pauses
    }

    /// Returns the total number of all faults.
    pub fn total_faults(&self) -> (r: u64)
        requires
            runtime_total(*self) + self.driver_crashes <= u64::MAX,
        ensures
            r == runtime_total(*self) + self.driver_crashes,
    {
        self.total_runtime_faults() + self.driver_crashes
    }
}

/// Tells which events are cut writes.
pub open spec fn partial_writes() -> spec_fn(FaultEvent) -> bool {
    |x: FaultEvent| x is PartialWrite
}

/// Tells which events are refused writes.
pub open spec fn full_disks() -> spec_fn(FaultEvent) -> bool {
    |x: FaultEvent| x is DiskFull
}

/// Tells which events are slow writes.
pub open spec fn slow_writes() -> spec_fn(FaultEvent) -> bool {
    |x: FaultEvent| x is SlowWrite
}

/// Tells which events are jumps of the clock.
pub open spec fn clock_skews() -> spec_fn(FaultEvent) -> bool {
    |x: FaultEvent| x is ClockSkew
}

/// Tells which events are pauses.
pub open spec fn process_pauses() -> spec_fn(FaultEvent) -> bool {
    |x: FaultEvent| x is ProcessPause
}

/// The number of events of one sort.
pub open spec fn count_events(s: Seq<FaultEvent>, sort: spec_fn(FaultEvent) -> bool) -> nat {
    s.filter(sort).len()
}

/// Result of a scenario run.
#[derive(Debug)]
pub struct ScenarioResult {
    /// The scenario that was run.
    pub scenario: FaultScenario,
    /// The underlying stress result.
    pub result: StressResult,
    /// Machine faults that happened.
    pub runtime_fault_events: Vec<FaultEvent>,
}

/// The text of a scenario's result.
pub open spec fn scenario_text(r: ScenarioResult) -> Seq<char> {
    "["@ + scenario_name(r.scenario) + "] "@ + stress_text(r.result@) + "\n  Runtime faults: "@
        + decimal(r.runtime_fault_events@.len())
}

/// The statistics of events and crashes.
pub open spec fn stats_of(s: Seq<FaultEvent>, crashes: u64, r: FaultStats) -> bool {
    &&& r.partial_writes == count_events(s, partial_writes())
    &&& r.disk_full == count_events(s, full_disks())
    &&& r.slow_writes == count_events(s, slow_writes())
    &&& r.clock_skews == count_events(s, clock_skews())
    &&& r.process_pauses == count_events(s, process_pauses())
    &&& r.driver_crashes == crashes
}

proof fn lemma_count_step(s: Seq<FaultEvent>, i: int, sort: spec_fn(FaultEvent) -> bool)
    requires
        0 <= i < s.len(),
    ensures
        count_events(s.take(i + 1), sort) == count_events(s.take(i), sort) + if sort(s[i]) {
            1nat
        } else {
            0nat
        },
{
    lemma_filter_step(s, i, sort);
}

impl ScenarioResult {
    /// Returns whether the scenario passed.
    pub fn passed(&self) -> (r: bool)
        ensures
            r == self.result.passed,
    {
        self.result.passed
    }

    /// Returns a summary of the scenario result.
    pub fn summary(&self) -> (r: String)
        ensures
            r@ == scenario_text(*self),
    {
        let mut r = text_of("[");
        r.push_str(self.scenario.name());
        r.push_str("] ");
        let text = self.result.summary();
        r.push_str(text.as_str());
        r.push_str("\n  Runtime faults: ");
        push_count(&mut r, self.runtime_fault_events.len());
        r
    }

    /// Returns fault statistics.
    pub fn fault_stats(&self) -> (r: FaultStats)
        ensures
            stats_of(self.runtime_fault_events@, self.result.crashes, r),
            runtime_total(r) == self.runtime_fault_events@.len(),
            runtime_total(r) <= u64::MAX,
    {
        let ghost s = self.runtime_fault_events@;
        let mut stats = FaultStats::default();
        let mut i: usize = 0;
        proof {
            reveal(Seq::filter);
        }
        while i < self.runtime_fault_events.len()
            invariant
                i <= self.runtime_fault_events.len(),
                s == self.runtime_fault_events@,
                stats_of(s.take(i as int), 0, stats),
                runtime_total(stats) == i,
            decreases self.runtime_fault_events.len() - i,
        {
            proof {
                lemma_count_step(s, i as int, partial_writes());
                lemma_count_step(s, i as int, full_disks());
                lemma_count_step(s, i as int, slow_writes());
                lemma_count_step(s, i as int, clock_skews());
                lemma_count_step(s, i as int, process_pauses());
            }
            match self.runtime_fault_events[i] {
                FaultEvent::PartialWrite { .. } => {
                    stats.partial_writes += 1;
                },
                FaultEvent::DiskFull { .. } => {
                    stats.disk_full += 1;
                },
                FaultEvent::SlowWrite { .. } => {
                    stats.slow_writes += 1;
                },
                FaultEvent::ClockSkew { .. } => {
                    stats.clock_skews += 1;
                },
                FaultEvent::ProcessPause { .. } => {
                    stats.process_pauses += 1;
                },
            }
            i += 1;
        }
        assert(s.take(i as int) =~= s);
        stats.driver_crashes = self.result.crashes;
        stats
    }
}

/// Creates a world configured for the given scenario.
pub fn create_env_for_scenario(seed: u64, scenario: FaultScenario) -> (r: SimEnv)
    ensures
        r.fresh(seed, seeded_machine(seed, machine_faults(scenario))),
{
    SimEnv::new_with_faults(seed, scenario.runtime_config())
}

/// Tells whether a stress configuration is the one of a scenario.
pub open spec fn scenario_stress(v: StressView, c: ScenarioConfig) -> bool {
    &&& usual_stress(
        StressView { stop_on_violation: true, ..v },
        usual_workload(40, 40, 10, 10),
        driver_faults(c.scenario),
        c.max_operations,
        c.max_crashes,
    )
    &&& v.stop_on_violation == c.stop_on_violation
}

/// Creates a stress configuration for the given scenario.
pub fn create_stress_config(scenario_config: &ScenarioConfig) -> (r: StressConfig)
    ensures
        scenario_stress(r@, *scenario_config),
{
    StressConfig {
        faults: scenario_config.scenario.driver_config(),
        max_operations: scenario_config.max_operations,
        max_crashes: scenario_config.max_crashes,
        stop_on_violation: scenario_config.stop_on_violation,
        ..StressConfig::default()
    }
}

/// Tells what running a scenario on a machine gives. The faults of the machine are those of the
/// run.
pub open spec fn scenario_gives_on(
    seed: u64,
    c: ScenarioConfig,
    machine: MachineView,
    r: ScenarioResult,
) -> bool {
    &&& r.scenario == c.scenario
    &&& r.runtime_fault_events@ == r.result@.machine_events
    &&& exists|v: StressView| #[trigger]
        scenario_stress(v, c) && seed_gives(seed, v, machine, r.result@)
}

/// Tells what running a scenario gives, where the machine draws from the seed.
pub open spec fn scenario_gives(seed: u64, c: ScenarioConfig, r: ScenarioResult) -> bool {
    scenario_gives_on(seed, c, seeded_machine(seed, machine_faults(c.scenario)), r)
}

/// Runs a fault scenario with the given seed.
pub fn run_scenario(seed: u64, scenario: FaultScenario) -> (r: ScenarioResult)
    ensures
        scenario_gives(
            seed,
            (ScenarioConfig {
                scenario,
                max_operations: 500,
                max_crashes: 10,
                stop_on_violation: true,
            }),
            r,
        ),
{
    run_scenario_with_config(seed, ScenarioConfig { scenario, ..ScenarioConfig::default() })
}

/// Runs a fault scenario with full configuration.
pub fn run_scenario_with_config(seed: u64, config: ScenarioConfig) -> (r: ScenarioResult)
    ensures
        scenario_gives(seed, config, r),
{
    run_scenario_with_draws(seed, config, draws_from_seed(seed))
}

/// Runs a fault scenario with full configuration on a machine that draws given numbers.
pub fn run_scenario_with_draws(seed: u64, config: ScenarioConfig, draws: Vec<MachineDraw>) -> (r:
    ScenarioResult)
    ensures
        scenario_gives_on(
            seed,
            config,
            fresh_machine(machine_faults(config.scenario), draws@),
            r,
        ),
{
    let ghost machine = fresh_machine(machine_faults(config.scenario), draws@);
    let stress_config = create_stress_config(&config);
    let ghost v = stress_config@;
    let env = SimEnv::with_draws(seed, config.scenario.runtime_config(), draws);
    assert(env.fresh(seed, machine));
    let result = run_in(env, stress_config);
    assert(scenario_stress(v, config) && seed_gives(seed, v, machine, result@));
    let runtime_fault_events = copy_events(&result.machine_events);
    ScenarioResult { scenario: config.scenario, result, runtime_fault_events }
}

/// Runs every scenario with the same seed.
pub fn run_all_scenarios(seed: u64) -> (r: Vec<ScenarioResult>)
    ensures
        r.len() == all_scenarios().len(),
        forall|i: int|
            0 <= i < r.len() ==> scenario_gives(
                seed,
                (ScenarioConfig {
                    scenario: all_scenarios()[i],
                    max_operations: 500,
                    max_crashes: 10,
                    stop_on_violation: true,
                }),
                #[trigger] r@[i],
            ),
{
    let scenarios = FaultScenario::all();
    let mut r: Vec<ScenarioResult> = Vec::new();
    let mut i: usize = 0;
    while i < scenarios.len()
        invariant
            i <= scenarios.len(),
            r.len() == i,
            scenarios@ == all_scenarios(),
            forall|k: int|
                0 <= k < i ==> scenario_gives(
                    seed,
                    (ScenarioConfig {
                        scenario: all_scenarios()[k],
                        max_operations: 500,
                        max_crashes: 10,
                        stop_on_violation: true,
                    }),
                    #[trigger] r@[k],
                ),
        decreases scenarios.len() - i,
    {
        r.push(run_scenario(seed, scenarios[i]));
        i += 1;
    }
    r
}

/// Runs quick scenarios for fast validation.
pub fn run_quick_validation(seed: u64) -> (r: Vec<ScenarioResult>)
    ensures
        r.len() == quick_list().len(),
        forall|i: int|
            0 <= i < r.len() ==> scenario_gives(
                seed,
                (ScenarioConfig {
                    scenario: quick_list()[i],
                    max_operations: 100,
                    max_crashes: 3,
                    stop_on_violation: true,
                }),
                #[trigger] r@[i],
            ),
{
    let scenarios = FaultScenario::quick_scenarios();
    let mut r: Vec<ScenarioResult> = Vec::new();
    let mut i: usize = 0;
    while i < scenarios.len()
        invariant
            i <= scenarios.len(),
            r.len() == i,
            scenarios@ == quick_list(),
            forall|k: int|
                0 <= k < i ==> scenario_gives(
                    seed,
                    (ScenarioConfig {
                        scenario: quick_list()[k],
                        max_operations: 100,
                        max_crashes: 3,
                        stop_on_violation: true,
                    }),
                    #[trigger] r@[k],
                ),
        decreases scenarios.len() - i,
    {
        r.push(run_scenario_with_config(seed, ScenarioConfig::quick(scenarios[i])));
        i += 1;
    }
    r
}

/// Runs thorough scenarios for comprehensive testing.
pub fn run_thorough_validation(seed: u64) -> (r: Vec<ScenarioResult>)
    ensures
        r.len() == thorough_list().len(),
        forall|i: int|
            0 <= i < r.len() ==> scenario_gives(
                seed,
                (ScenarioConfig {
                    scenario: thorough_list()[i],
                    max_operations: 1000,
                    max_crashes: 20,
                    stop_on_violation: true,
                }),
                #[trigger] r@[i],
            ),
{
    let scenarios = FaultScenario::thorough_scenarios();
    let mut r: Vec<ScenarioResult> = Vec::new();
    let mut i: usize = 0;
    while i < scenarios.len()
        invariant
            i <= scenarios.len(),
            r.len() == i,
            scenarios@ == thorough_list(),
            forall|k: int|
                0 <= k < i ==> scenario_gives(
                    seed,
                    (ScenarioConfig {
                        scenario: thorough_list()[k],
                        max_operations: 1000,
                        max_crashes: 20,
                        stop_on_violation: true,
                    }),
                    #[trigger] r@[k],
                ),
        decreases scenarios.len() - i,
    {
        r.push(run_scenario_with_config(seed, ScenarioConfig::thorough(scenarios[i])));
        i += 1;
    }
    r
}

/// Report summarizing multiple scenario runs.
#[derive(Debug)]
pub struct ScenarioReport {
    /// Seed used for all runs.
    pub seed: u64,
    /// Results for each scenario.
    pub results: Vec<ScenarioResult>,
}

/// The number of results that passed.
pub open spec fn passed_of(s: Seq<ScenarioResult>) -> nat {
    s.filter(|r: ScenarioResult| r.result.passed).len()
}

/// The results that failed.
pub open spec fn failed_of(s: Seq<ScenarioResult>) -> Seq<ScenarioResult> {
    s.filter(|r: ScenarioResult| !r.result.passed)
}

/// The line of a result in a report.
pub open spec fn report_line(r: ScenarioResult) -> Seq<char> {
    "  ["@ + (if r.result.passed {
        "PASS"@
    } else {
        "FAIL"@
    }) + "] "@ + scenario_name(r.scenario) + ": ops="@ + decimal(r.result.operations as nat)
        + ", crashes="@ + decimal(r.result.crashes as nat) + ", runtime_faults="@ + decimal(
        r.runtime_fault_events@.len(),
    ) + "\n"@
}

/// The lines of results in a report.
pub open spec fn report_lines(s: Seq<ScenarioResult>) -> Seq<char>
    decreases s.len(),
{
    if s.len() == 0 {
        Seq::empty()
    } else {
        report_lines(s.drop_last()) + report_line(s.last())
    }
}

/// The text of a report.
pub open spec fn scenario_report_text(seed: u64, s: Seq<ScenarioResult>) -> Seq<char> {
    "Scenario Report (seed=0x"@ + hex(seed as nat, 16) + ")\n  Total: "@ + decimal(s.len())
        + ", Passed: "@ + decimal(passed_of(s)) + ", Failed: "@ + decimal(failed_of(s).len())
        + "\n"@ + report_lines(s)
}

impl ScenarioReport {
    /// Creates a new report from scenario results.
    pub fn new(seed: u64, results: Vec<ScenarioResult>) -> (r: Self)
        ensures
            r.seed == seed,
            r.results == results,
    {
        ScenarioReport { seed, results }
    }

    /// Returns whether all scenarios passed.
    pub fn all_passed(&self) -> (r: bool)
        ensures
            r == forall|i: int|
                0 <= i < self.results.len() ==> (#[trigger] self.results@[i]).result.passed,
    {
        let mut i: usize = 0;
        while i < self.results.len()
            invariant
                i <= self.results.len(),
                forall|k: int| 0 <= k < i ==> (#[trigger] self.results@[k]).result.passed,
            decreases self.results.len() - i,
        {
            if !self.results[i].passed() {
                return false;
            }
            i += 1;
        }
        true
    }

    /// Returns the number of passing scenarios.
    pub fn passed_count(&self) -> (r: usize)
        ensures
            r == passed_of(self.results@),
    {
        let ghost s = self.results@;
        let ghost p = |r: ScenarioResult| r.result.passed;
        let mut n: usize = 0;
        let mut i: usize = 0;
        proof {
            reveal(Seq::filter);
        }
        while i < self.results.len()
            invariant
                n <= i <= self.results.len(),
                s == self.results@,
                p == |r: ScenarioResult| r.result.passed,
                n == s.take(i as int).filter(p).len(),
            decreases self.results.len() - i,
        {
            proof {
                lemma_filter_step(s, i as int, p);
            }
            if self.results[i].passed() {
                n += 1;
            }
            i += 1;
        }
        assert(s.take(i as int) =~= s);
        n
    }

    /// Returns the number of failing scenarios.
    pub fn failed_count(&self) -> (r: usize)
        ensures
            r == failed_of(self.results@).len(),
    {
        self.failures().len()
    }

    /// Returns failing scenarios.
    pub fn failures(&self) -> (r: Vec<&ScenarioResult>)
        ensures
            r@.map_values(|x: &ScenarioResult| *x) == failed_of(self.results@),
    {
        let ghost s = self.results@;
        let ghost p = |r: ScenarioResult| !r.result.passed;
        let mut r: Vec<&ScenarioResult> = Vec::new();
        let mut i: usize = 0;
        proof {
            reveal(Seq::filter);
            assert(r@.map_values(|x: &ScenarioResult| *x) =~= s.take(0).filter(p));
        }
        while i < self.results.len()
            invariant
                i <= self.results.len(),
                s == self.results@,
                p == |r: ScenarioResult| !r.result.passed,
                r@.map_values(|x: &ScenarioResult| *x) == s.take(i as int).filter(p),
            decreases self.results.len() - i,
        {
            proof {
                lemma_filter_step(s, i as int, p);
            }
            let ghost before = r@;
            if !self.results[i].passed() {
                r.push(&self.results[i]);
                assert(r@.map_values(|x: &ScenarioResult| *x) =~= before.map_values(
                    |x: &ScenarioResult| *x,
                ).push(s[i as int]));
            }
            i += 1;
        }
        assert(s.take(i as int) =~= s);
        r
    }

    /// Returns a summary of the report.
    #[verifier::rlimit(40)]
    pub fn summary(&self) -> (r: String)
        ensures
            r@ == scenario_report_text(self.seed, self.results@),
    {
        let passed = self.passed_count();
        let failed = self.failed_count();
        let mut r = text_of("Scenario Report (seed=0x");
        push_hex16(&mut r, self.seed);
        r.push_str(")\n  Total: ");
        push_count(&mut r, self.results.len());
        r.push_str(", Passed: ");
        push_count(&mut r, passed);
        r.push_str(", Failed: ");
        push_count(&mut r, failed);
        r.push_str("\n");
        let ghost head = r@;
        let ghost s = self.results@;
        let mut i: usize = 0;
        assert(s.take(0) =~= Seq::<ScenarioResult>::empty());
        assert(r@ =~= head + report_lines(s.take(0)));
        while i < self.results.len()
            invariant
                i <= self.results.len(),
                s == self.results@,
                r@ == head + report_lines(s.take(i as int)),
            decreases self.results.len() - i,
        {
            let ghost here = r@;
            let result = &self.results[i];
            r.push_str("  [");
            if result.passed() {
                r.push_str("PASS");
            } else {
                r.push_str("FAIL");
            }
            r.push_str("] ");
            r.push_str(result.scenario.name());
            r.push_str(": ops=");
            push_decimal(&mut r, result.result.operations);
            r.push_str(", crashes=");
            push_decimal(&mut r, result.result.crashes);
            r.push_str(", runtime_faults=");
            let stats = result.fault_stats();
            push_decimal(&mut r, stats.total_runtime_faults());
            r.push_str("\n");
            assert(r@ =~= here + report_line(s[i as int]));
            assert(s.take(i + 1).drop_last() =~= s.take(i as int));
            assert(s.take(i + 1).last() == s[i as int]);
            i += 1;
            assert(r@ =~= head + report_lines(s.take(i as int)));
        }
        assert(s.take(i as int) =~= s);
        r
    }
}

/// Which faults a scenario has: those that its name says, all of them in a chaos, and all but a
/// full disk in a combination.
pub proof fn law_scenario_kinds(s: FaultScenario)
    ensures
        ({
            let m = machine_faults(s);
            let d = driver_faults(s);
            &&& m.partial_write_prob > 0 <==> s is PartialWrites || s is PartialWritesWithCrashes || s
                is Combined || s is Chaos
            &&& m.disk_full_threshold > 0 <==> s is DiskFull || s is DiskStress || s is Chaos
            &&& m.slow_write_prob > 0 <==> s is SlowDisk || s is DiskStress || s is Combined || s
                is Chaos
            &&& m.clock_skew_prob > 0 <==> s is ClockSkew || s is TimingChaos || s is Combined || s
                is Chaos
            &&& m.process_pause_prob > 0 <==> s is ProcessPause || s is TimingChaos || s is Combined
                || s is Chaos
            &&& d.crash_probability > 0 <==> s is CrashHeavy || s is PartialWritesWithCrashes || s
                is Combined || s is Chaos
            &&& d.bit_flip_probability == 0 && d.disk_full_after_bytes is None
            &&& m.slow_write_prob > 0 <==> m.slow_write_duration > 0
            &&& m.clock_skew_prob > 0 <==> m.clock_skew_max > 0
            &&& m.process_pause_prob > 0 <==> m.process_pause_duration > 0
        }),
{
}

/// A scenario is told by its name.
pub proof fn law_names_differ(a: FaultScenario, b: FaultScenario)
    ensures
        scenario_name(a) == scenario_name(b) <==> a == b,
{
    reveal_strlit("none");
    reveal_strlit("partial_writes");
    reveal_strlit("disk_full");
    reveal_strlit("slow_disk");
    reveal_strlit("clock_skew");
    reveal_strlit("process_pause");
    reveal_strlit("crash_heavy");
    reveal_strlit("partial_writes_with_crashes");
    reveal_strlit("disk_stress");
    reveal_strlit("timing_chaos");
    reveal_strlit("combined");
    reveal_strlit("chaos");
    assert("none"@.len() == 4 && "partial_writes"@.len() == 14 && "disk_full"@.len() == 9);
    assert("slow_disk"@.len() == 9 && "clock_skew"@.len() == 10 && "process_pause"@.len() == 13);
    assert("crash_heavy"@.len() == 11 && "partial_writes_with_crashes"@.len() == 27);
    assert("disk_stress"@.len() == 11 && "timing_chaos"@.len() == 12 && "combined"@.len() == 8);
    assert("chaos"@.len() == 5);
    assert("disk_full"@[0] == 'd' && "slow_disk"@[0] == 's');
    assert("crash_heavy"@[0] == 'c' && "disk_stress"@[0] == 'd');
}

/// No scenario is listed twice, and the shorter lists are parts of the longer ones.
pub proof fn law_lists_nested(s: FaultScenario)
    ensures
        all_scenarios().no_duplicates(),
        quick_list().contains(s) ==> thorough_list().contains(s),
        quick_list().no_duplicates(),
        thorough_list().no_duplicates(),
        quick_list().contains(FaultScenario::NoFaults),
{
    let t = thorough_list();
    assert(t[0] is NoFaults && t[1] is PartialWrites && t[4] is CrashHeavy);
    assert(quick_list()[0] is NoFaults);
    if quick_list().contains(s) {
        let i = choose|i: int| 0 <= i < quick_list().len() && quick_list()[i] == s;
        assert(s == t[0] || s == t[1] || s == t[4]);
    }
}

/// A report tells each result as passed or as failed; what it lists as failed are exactly the
/// results that did not pass, in order.
pub proof fn law_report_splits(s: Seq<ScenarioResult>, r: ScenarioResult)
    ensures
        passed_of(s) + failed_of(s).len() == s.len(),
        failed_of(s).contains(r) <==> s.contains(r) && !r.result.passed,
        passed_of(s) == s.len() <==> forall|i: int|
            0 <= i < s.len() ==> (#[trigger] s[i]).result.passed,
        failed_of(s.push(r)) == if r.result.passed {
            failed_of(s)
        } else {
            failed_of(s).push(r)
        },
{
    let p = |x: ScenarioResult| !x.result.passed;
    lemma_filter_has(s, p, r);
    lemma_filter_push(s, r, p);
    lemma_filter_empty(s, p);
    lemma_split_counts(s);
    if failed_of(s).len() == 0 {
        assert forall|i: int| 0 <= i < s.len() implies (#[trigger] s[i]).result.passed by {
            assert(!p(s[i]));
        }
    }
    if forall|i: int| 0 <= i < s.len() ==> (#[trigger] s[i]).result.passed {
        assert forall|i: int| 0 <= i < s.len() implies !p(#[trigger] s[i]) by {
            assert(s[i].result.passed);
        }
    }
}

proof fn lemma_split_counts(s: Seq<ScenarioResult>)
    ensures
        passed_of(s) + failed_of(s).len() == s.len(),
    decreases s.len(),
{
    reveal(Seq::filter);
    if s.len() > 0 {
        lemma_split_counts(s.drop_last());
    }
}

/// The counts of a result tell its faults: none is zero where there is one of its sort.
pub proof fn law_stats_tell_faults(s: Seq<FaultEvent>, crashes: u64, r: FaultStats)
    requires
        stats_of(s, crashes, r),
    ensures
        r.partial_writes == 0 <==> forall|i: int|
            0 <= i < s.len() ==> !((#[trigger] s[i]) is PartialWrite),
        r.disk_full == 0 <==> forall|i: int| 0 <= i < s.len() ==> !((#[trigger] s[i]) is DiskFull),
        r.slow_writes == 0 <==> forall|i: int| 0 <= i < s.len() ==> !((#[trigger] s[i]) is SlowWrite),
        r.clock_skews == 0 <==> forall|i: int| 0 <= i < s.len() ==> !((#[trigger] s[i]) is ClockSkew),
        r.process_pauses == 0 <==> forall|i: int|
            0 <= i < s.len() ==> !((#[trigger] s[i]) is ProcessPause),
        r.driver_crashes == crashes,
{
    lemma_counts_none(s, partial_writes());
    lemma_counts_none(s, full_disks());
    lemma_counts_none(s, slow_writes());
    lemma_counts_none(s, clock_skews());
    lemma_counts_none(s, process_pauses());
}

proof fn lemma_counts_none(s: Seq<FaultEvent>, sort: spec_fn(FaultEvent) -> bool)
    ensures
        count_events(s, sort) == 0 <==> forall|i: int| 0 <= i < s.len() ==> !sort(#[trigger] s[i]),
{
    lemma_filter_empty(s, sort);
}

} // verus!
