//! Delta debugging: lowering fault probabilities, removing faults and shortening the workload
//! of a failing run, as long as it fails in the same way.

use crate::failure::{
    failure_of, kind_name, law_kinds_match_by_name, replay_config, replay_gives,
    replay_with_faults, report_of, same_kind, FailureKind, FailureReport, FailureView, KindView,
};
use crate::fault_scenarios::{machine_faults, FaultScenario, ScenarioConfig};
use crate::shrink::{bump, nearest, one_up, push_reduction, reduction_text, rounded_quotient, ups};
use crate::sim_env::RuntimeFaultConfig;
use crate::text::{decimal, push_count, push_decimal, text_of};
use vstd::prelude::*;

verus! {

/// Configuration for the delta-debugging shrinker. Fractions are parts per million.
#[derive(Clone, Copy, Debug)]
pub struct DeltaDebugConfig {
    /// Maximum number of shrink iterations per axis.
    pub max_iterations_per_axis: usize,
    /// Step for fault reduction.
    pub probability_step: u32,
    /// Minimum probability to try; below it the fault is disabled.
    pub min_probability: u32,
    /// Fraction of the workload to remove at a time.
    pub workload_truncation_step: u32,
    /// Minimum workload size to try.
    pub min_workload_size: usize,
    /// Whether to try removing fault types entirely.
    pub try_fault_type_removal: bool,
    /// Whether to log shrinking attempts.
    pub verbose: bool,
}

/// The usual configuration.
pub open spec fn usual_delta() -> DeltaDebugConfig {
    DeltaDebugConfig {
        max_iterations_per_axis: 100,
        probability_step: 100_000,
        min_probability: 50_000,
        workload_truncation_step: 500_000,
        min_workload_size: 10,
        try_fault_type_removal: true,
        verbose: false,
    }
}

/// Tells whether a configuration can be worked with: probabilities are narrowed down to
/// something above nothing, and the rounds can be counted.
pub open spec fn workable(c: DeltaDebugConfig) -> bool {
    c.min_probability > 0 && c.max_iterations_per_axis * 3 <= usize::MAX
}

impl Default for DeltaDebugConfig {
    fn default() -> (r: Self)
        ensures
            r == usual_delta(),
    {
        DeltaDebugConfig {
            max_iterations_per_axis: 100,
            probability_step: 100_000,
            min_probability: 50_000,
            workload_truncation_step: 500_000,
            min_workload_size: 10,
            try_fault_type_removal: true,
            verbose: false,
        }
    }
}

impl DeltaDebugConfig {
    /// Configuration for quick shrinking.
    pub fn quick() -> (r: Self)
        ensures
            r == (DeltaDebugConfig {
                max_iterations_per_axis: 20,
                probability_step: 200_000,
                workload_truncation_step: 500_000,
                min_workload_size: 5,
                ..usual_delta()
            }),
    {
        DeltaDebugConfig {
            max_iterations_per_axis: 20,
            probability_step: 200_000,
            workload_truncation_step: 500_000,
            min_workload_size: 5,
            ..DeltaDebugConfig::default()
        }
    }

    /// Configuration for thorough shrinking.
    pub fn thorough() -> (r: Self)
        ensures
            r == (DeltaDebugConfig {
                max_iterations_per_axis: 200,
                probability_step: 50_000,
                workload_truncation_step: 250_000,
                min_workload_size: 1,
                ..usual_delta()
            }),
    {
        DeltaDebugConfig {
            max_iterations_per_axis: 200,
            probability_step: 50_000,
            workload_truncation_step: 250_000,
            min_workload_size: 1,
            ..DeltaDebugConfig::default()
        }
    }
}

/// A single step in the shrinking process.
#[derive(Clone, Debug, PartialEq)]
pub struct ShrinkStep {
    /// The axis being shrunk.
    pub axis: String,
    /// The value before shrinking.
    pub before: String,
    /// The value after shrinking.
    pub after: String,
    /// Whether this shrink was accepted.
    pub accepted: bool,
    /// If rejected, the reason.
    pub rejection_reason: Option<String>,
}

/// A step as a mathematical value.
pub struct StepView {
    pub axis: Seq<char>,
    pub before: Seq<char>,
    pub after: Seq<char>,
    pub accepted: bool,
    pub rejection_reason: Option<Seq<char>>,
}

impl View for ShrinkStep {
    type V = StepView;

    open spec fn view(&self) -> StepView {
        StepView {
            axis: self.axis@,
            before: self.before@,
            after: self.after@,
            accepted: self.accepted,
            rejection_reason: crate::driver::opt_text(self.rejection_reason),
        }
    }
}

/// A step that was accepted.
pub open spec fn accepted_step(axis: Seq<char>, before: Seq<char>, after: Seq<char>) -> StepView {
    StepView { axis, before, after, accepted: true, rejection_reason: None }
}

/// The text of a step.
pub open spec fn step_text(s: StepView) -> Seq<char> {
    let head = "axis="@ + s.axis + " before="@ + s.before + " after="@ + s.after;
    if s.accepted {
        head + " (accepted)"@
    } else {
        head + " (rejected: "@ + crate::driver::text_or(s.rejection_reason, "unknown"@) + ")"@
    }
}

impl ShrinkStep {
    /// Creates an accepted shrink step.
    pub fn accepted(axis: &str, before: &str, after: &str) -> (r: Self)
        ensures
            r@ == accepted_step(axis@, before@, after@),
    {
        ShrinkStep {
            axis: text_of(axis),
            before: text_of(before),
            after: text_of(after),
            accepted: true,
            rejection_reason: None,
        }
    }

    /// Creates a rejected shrink step.
    pub fn rejected(axis: &str, before: &str, after: &str, reason: &str) -> (r: Self)
        ensures
            r@ == (StepView {
                axis: axis@,
                before: before@,
                after: after@,
                accepted: false,
                rejection_reason: Some(reason@),
            }),
    {
        ShrinkStep {
            axis: text_of(axis),
            before: text_of(before),
            after: text_of(after),
            accepted: false,
            rejection_reason: Some(text_of(reason)),
        }
    }

    /// Formats this step for display.
    pub fn display(&self) -> (r: String)
        ensures
            r@ == step_text(self@),
    {
        let mut r = text_of("axis=");
        r.push_str(self.axis.as_str());
        r.push_str(" before=");
        r.push_str(self.before.as_str());
        r.push_str(" after=");
        r.push_str(self.after.as_str());
        if self.accepted {
            r.push_str(" (accepted)");
        } else {
            r.push_str(" (rejected: ");
            match &self.rejection_reason {
                Some(reason) => r.push_str(reason.as_str()),
                None => r.push_str("unknown"),
            }
            r.push_str(")");
        }
        r
    }

    /// Copies the step.
    pub fn copy(&self) -> (r: Self)
        ensures
            r@ == self@,
    {
        ShrinkStep {
            axis: text_of(self.axis.as_str()),
            before: text_of(self.before.as_str()),
            after: text_of(self.after.as_str()),
            accepted: self.accepted,
            rejection_reason: match &self.rejection_reason {
                Some(reason) => Some(text_of(reason.as_str())),
                None => None,
            },
        }
    }
}

/// Steps as mathematical values.
pub open spec fn steps_view(s: Seq<ShrinkStep>) -> Seq<StepView> {
    s.map_values(|x: ShrinkStep| x@)
}

/// Statistics about delta-debugging shrinking.
#[derive(Clone, Debug, PartialEq)]
pub struct DeltaDebugStats {
    /// Total replay attempts.
    pub total_replays: u64,
    /// Replays that reproduced the failure.
    pub successful_replays: u64,
    /// Replays that did not reproduce it.
    pub failed_replays: u64,
    /// Probability reduction attempts.
    pub probability_reductions: u64,
    /// Fault type removal attempts.
    pub fault_type_removals: u64,
    /// Workload truncation attempts.
    pub workload_truncations: u64,
    /// Original workload size.
    pub original_workload_size: usize,
    /// Final workload size.
    pub final_workload_size: usize,
    /// Original number of enabled fault types.
    pub original_fault_types: usize,
    /// Final number of enabled fault types.
    pub final_fault_types: usize,
    /// Trace of the shrink steps.
    pub trace: Vec<ShrinkStep>,
}

/// Statistics as a mathematical value.
pub struct DeltaStatsView {
    pub total_replays: u64,
    pub successful_replays: u64,
    pub failed_replays: u64,
    pub probability_reductions: u64,
    pub fault_type_removals: u64,
    pub workload_truncations: u64,
    pub original_workload_size: usize,
    pub final_workload_size: usize,
    pub original_fault_types: usize,
    pub final_fault_types: usize,
    pub trace: Seq<StepView>,
}

impl View for DeltaDebugStats {
    type V = DeltaStatsView;

    open spec fn view(&self) -> DeltaStatsView {
        DeltaStatsView {
            total_replays: self.total_replays,
            successful_replays: self.successful_replays,
            failed_replays: self.failed_replays,
            probability_reductions: self.probability_reductions,
            fault_type_removals: self.fault_type_removals,
            workload_truncations: self.workload_truncations,
            original_workload_size: self.original_workload_size,
            final_workload_size: self.final_workload_size,
            original_fault_types: self.original_fault_types,
            final_fault_types: self.final_fault_types,
            trace: steps_view(self.trace@),
        }
    }
}

/// The statistics before anything was tried.
pub open spec fn no_replays() -> DeltaStatsView {
    DeltaStatsView {
        total_replays: 0,
        successful_replays: 0,
        failed_replays: 0,
        probability_reductions: 0,
        fault_type_removals: 0,
        workload_truncations: 0,
        original_workload_size: 0,
        final_workload_size: 0,
        original_fault_types: 0,
        final_fault_types: 0,
        trace: Seq::empty(),
    }
}

impl Default for DeltaDebugStats {
    fn default() -> (r: Self)
        ensures
            r@ == no_replays(),
    {
        let r = DeltaDebugStats {
            total_replays: 0,
            successful_replays: 0,
            failed_replays: 0,
            probability_reductions: 0,
            fault_type_removals: 0,
            workload_truncations: 0,
            original_workload_size: 0,
            final_workload_size: 0,
            original_fault_types: 0,
            final_fault_types: 0,
            trace: Vec::new(),
        };
        assert(r@.trace =~= Seq::<StepView>::empty());
        r
    }
}

/// The text of statistics.
pub open spec fn delta_text(v: DeltaStatsView) -> Seq<char> {
    "Replays: "@ + decimal(v.total_replays as nat) + " ("@ + decimal(v.successful_replays as nat)
        + " success, "@ + decimal(v.failed_replays as nat) + " fail)\nWorkload: "@ + decimal(
        v.original_workload_size as nat,
    ) + " -> "@ + decimal(v.final_workload_size as nat) + " ops ("@ + reduction_text(
        v.original_workload_size as nat,
        v.final_workload_size as nat,
    ) + "% reduction)\nFault types: "@ + decimal(v.original_fault_types as nat) + " -> "@ + decimal(
        v.final_fault_types as nat,
    )
}

impl DeltaDebugStats {
    /// Returns a summary string.
    pub fn summary(&self) -> (r: String)
        ensures
            r@ == delta_text(self@),
    {
        let mut r = text_of("Replays: ");
        push_decimal(&mut r, self.total_replays);
        r.push_str(" (");
        push_decimal(&mut r, self.successful_replays);
        r.push_str(" success, ");
        push_decimal(&mut r, self.failed_replays);
        r.push_str(" fail)\nWorkload: ");
        push_count(&mut r, self.original_workload_size);
        r.push_str(" -> ");
        push_count(&mut r, self.final_workload_size);
        r.push_str(" ops (");
        push_reduction(&mut r, self.original_workload_size, self.final_workload_size);
        r.push_str("% reduction)\nFault types: ");
        push_count(&mut r, self.original_fault_types);
        r.push_str(" -> ");
        push_count(&mut r, self.final_fault_types);
        r
    }

    /// Copies the statistics.
    pub fn copy(&self) -> (r: Self)
        ensures
            r@ == self@,
    {
        let mut trace: Vec<ShrinkStep> = Vec::new();
        let mut i: usize = 0;
        let ghost s = steps_view(self.trace@);
        while i < self.trace.len()
            invariant
                i <= self.trace.len(),
                s == steps_view(self.trace@),
                steps_view(trace@) == s.take(i as int),
            decreases self.trace.len() - i,
        {
            let ghost before = trace@;
            trace.push(self.trace[i].copy());
            assert(steps_view(trace@) =~= steps_view(before).push(s[i as int]));
            assert(s.take(i + 1) =~= s.take(i as int).push(s[i as int]));
            i += 1;
        }
        assert(s.take(i as int) =~= s);
        DeltaDebugStats {
            total_replays: self.total_replays,
            successful_replays: self.successful_replays,
            failed_replays: self.failed_replays,
            probability_reductions: self.probability_reductions,
            fault_type_removals: self.fault_type_removals,
            workload_truncations: self.workload_truncations,
            original_workload_size: self.original_workload_size,
            final_workload_size: self.final_workload_size,
            original_fault_types: self.original_fault_types,
            final_fault_types: self.final_fault_types,
            trace,
        }
    }
}

/// A fault configuration on the way to a minimal one. Probabilities are parts per million, and
/// zero disables a fault.
#[derive(Clone, Copy, Debug, PartialEq, Eq, Structural)]
pub struct ShrunkFaultConfig {
    /// The scenario that was shrunk.
    pub scenario: FaultScenario,
    /// Partial write probability.
    pub partial_write_prob: u32,
    /// Disk full threshold.
    pub disk_full_threshold: u64,
    /// Slow write probability.
    pub slow_write_prob: u32,
    /// Clock skew probability.
    pub clock_skew_prob: u32,
    /// Process pause probability.
    pub process_pause_prob: u32,
    /// Workload length.
    pub workload_len: usize,
}

/// The configuration of a scenario.
pub open spec fn of_scenario(scenario: FaultScenario, workload_len: usize) -> ShrunkFaultConfig {
    let c = machine_faults(scenario);
    ShrunkFaultConfig {
        scenario,
        partial_write_prob: c.partial_write_prob,
        disk_full_threshold: c.disk_full_threshold,
        slow_write_prob: c.slow_write_prob,
        clock_skew_prob: c.clock_skew_prob,
        process_pause_prob: c.process_pause_prob,
        workload_len,
    }
}

/// The names of the faults with a probability, in the order in which they are tried.
pub open spec fn axis_name(i: int) -> Seq<char> {
    if i == 0 {
        "partial_write"@
    } else if i == 1 {
        "slow_write"@
    } else if i == 2 {
        "clock_skew"@
    } else {
        "process_pause"@
    }
}

/// The probability of a fault by its place.
pub open spec fn prob_at(c: ShrunkFaultConfig, i: int) -> u32 {
    if i == 0 {
        c.partial_write_prob
    } else if i == 1 {
        c.slow_write_prob
    } else if i == 2 {
        c.clock_skew_prob
    } else {
        c.process_pause_prob
    }
}

/// The configuration with another probability of a fault.
pub open spec fn with_prob(c: ShrunkFaultConfig, i: int, p: u32) -> ShrunkFaultConfig {
    if i == 0 {
        ShrunkFaultConfig { partial_write_prob: p, ..c }
    } else if i == 1 {
        ShrunkFaultConfig { slow_write_prob: p, ..c }
    } else if i == 2 {
        ShrunkFaultConfig { clock_skew_prob: p, ..c }
    } else {
        ShrunkFaultConfig { process_pause_prob: p, ..c }
    }
}

/// The configuration with another threshold.
pub open spec fn with_threshold(c: ShrunkFaultConfig, t: u64) -> ShrunkFaultConfig {
    ShrunkFaultConfig { disk_full_threshold: t, ..c }
}

/// The configuration with another workload length.
pub open spec fn with_len(c: ShrunkFaultConfig, n: usize) -> ShrunkFaultConfig {
    ShrunkFaultConfig { workload_len: n, ..c }
}

/// One where a condition holds, else nothing.
pub open spec fn one_if(b: bool) -> nat {
    if b {
        1
    } else {
        0
    }
}

/// The number of enabled faults.
pub open spec fn enabled_count(c: ShrunkFaultConfig) -> nat {
    one_if(c.partial_write_prob > 0) + one_if(c.disk_full_threshold > 0) + one_if(
        c.slow_write_prob > 0,
    ) + one_if(c.clock_skew_prob > 0) + one_if(c.process_pause_prob > 0)
}

/// The configuration with another probability of the fault of a name; a name that is not known
/// changes nothing.
pub open spec fn with_named(c: ShrunkFaultConfig, name: Seq<char>, p: u32) -> ShrunkFaultConfig {
    if name == axis_name(0) {
        with_prob(c, 0, p)
    } else if name == axis_name(1) {
        with_prob(c, 1, p)
    } else if name == axis_name(2) {
        with_prob(c, 2, p)
    } else if name == axis_name(3) {
        with_prob(c, 3, p)
    } else {
        c
    }
}

/// Tells whether two texts are the same.
fn same_text(a: &str, b: &str) -> (r: bool)
    ensures
        r == (a@ == b@),
{
    let n = a.unicode_len();
    if n != b.unicode_len() {
        return false;
    }
    let mut i: usize = 0;
    while i < n
        invariant
            i <= n,
            n == a@.len(),
            n == b@.len(),
            forall|k: int| 0 <= k < i ==> a@[k] == b@[k],
        decreases n - i,
    {
        if a.get_char(i) != b.get_char(i) {
            return false;
        }
        i += 1;
    }
    assert(a@ =~= b@);
    true
}

/// The machine faults of a configuration; the durations are those of the scenario.
pub open spec fn faults_of(c: ShrunkFaultConfig) -> RuntimeFaultConfig {
    RuntimeFaultConfig {
        partial_write_prob: c.partial_write_prob,
        disk_full_threshold: c.disk_full_threshold,
        slow_write_prob: c.slow_write_prob,
        clock_skew_prob: c.clock_skew_prob,
        process_pause_prob: c.process_pause_prob,
        ..machine_faults(c.scenario)
    }
}

impl ShrunkFaultConfig {
    /// Creates from the machine faults of a scenario.
    pub fn from_scenario(scenario: FaultScenario, workload_len: usize) -> (r: Self)
        ensures
            r == of_scenario(scenario, workload_len),
    {
        let cfg = scenario.runtime_config();
        ShrunkFaultConfig {
            scenario,
            partial_write_prob: cfg.partial_write_prob,
            disk_full_threshold: cfg.disk_full_threshold,
            slow_write_prob: cfg.slow_write_prob,
            clock_skew_prob: cfg.clock_skew_prob,
            process_pause_prob: cfg.process_pause_prob,
            workload_len,
        }
    }

    /// Converts to machine faults; the durations are those of the scenario.
    pub fn to_runtime_config(&self) -> (r: RuntimeFaultConfig)
        ensures
            r == faults_of(*self),
    {
        let base = self.scenario.runtime_config();
        RuntimeFaultConfig {
            partial_write_prob: self.partial_write_prob,
            disk_full_threshold: self.disk_full_threshold,
            slow_write_prob: self.slow_write_prob,
            slow_write_duration: base.slow_write_duration,
            clock_skew_prob: self.clock_skew_prob,
            clock_skew_max: base.clock_skew_max,
            process_pause_prob: self.process_pause_prob,
            process_pause_duration: base.process_pause_duration,
        }
    }

    /// Counts the number of enabled fault types.
    #[verifier::rlimit(40)]
    pub fn enabled_fault_count(&self) -> (r: usize)
        ensures
            r == enabled_count(*self),
            r <= 5,
    {
        let mut count: usize = 0;
        if self.partial_write_prob > 0 {
            count += 1;
        }
        if self.disk_full_threshold > 0 {
            count += 1;
        }
        if self.slow_write_prob > 0 {
            count += 1;
        }
        if self.clock_skew_prob > 0 {
            count += 1;
        }
        if self.process_pause_prob > 0 {
            count += 1;
        }
        count
    }

    /// Returns the fault probabilities with their names, in the order in which they are tried.
    pub fn fault_probs(&self) -> (r: Vec<(&'static str, u32)>)
        ensures
            r.len() == 4,
            forall|i: int|
                0 <= i < 4 ==> (#[trigger] r@[i]).0@ == axis_name(i) && r@[i].1 == prob_at(*self, i),
    {
        let mut r: Vec<(&'static str, u32)> = Vec::new();
        r.push(("partial_write", self.partial_write_prob));
        r.push(("slow_write", self.slow_write_prob));
        r.push(("clock_skew", self.clock_skew_prob));
        r.push(("process_pause", self.process_pause_prob));
        r
    }

    /// Creates a modified copy with a specific fault probability changed.
    pub fn with_fault_prob(&self, name: &str, prob: u32) -> (r: Self)
        ensures
            r == with_named(*self, name@, prob),
    {
        if same_text(name, "partial_write") {
            ShrunkFaultConfig { partial_write_prob: prob, ..*self }
        } else if same_text(name, "slow_write") {
            ShrunkFaultConfig { slow_write_prob: prob, ..*self }
        } else if same_text(name, "clock_skew") {
            ShrunkFaultConfig { clock_skew_prob: prob, ..*self }
        } else if same_text(name, "process_pause") {
            ShrunkFaultConfig { process_pause_prob: prob, ..*self }
        } else {
            *self
        }
    }

    /// Creates a modified copy with the disk full threshold changed.
    pub fn with_disk_full(&self, threshold: u64) -> (r: Self)
        ensures
            r == with_threshold(*self, threshold),
    {
        ShrunkFaultConfig { disk_full_threshold: threshold, ..*self }
    }

    /// Creates a modified copy with a different workload length.
    pub fn with_workload_len(&self, len: usize) -> (r: Self)
        ensures
            r == with_len(*self, len),
    {
        ShrunkFaultConfig { workload_len: len, ..*self }
    }
}

/// Result of delta-debugging shrinking.
#[derive(Clone, Debug)]
pub struct DeltaDebugResult {
    /// The minimal failure report.
    pub report: FailureReport,
    /// The shrunk fault configuration.
    pub fault_config: ShrunkFaultConfig,
    /// Statistics about the shrinking process.
    pub stats: DeltaDebugStats,
}

/// The steps that were accepted.
pub open spec fn accepted_steps(s: Seq<StepView>) -> Seq<StepView> {
    s.filter(|x: StepView| x.accepted)
}

/// The lines of steps.
pub open spec fn step_lines(s: Seq<StepView>) -> Seq<char>
    decreases s.len(),
{
    if s.len() == 0 {
        Seq::empty()
    } else if s.len() == 1 {
        step_text(s[0])
    } else {
        step_lines(s.drop_last()) + "\n"@ + step_text(s.last())
    }
}

/// Borrowed steps as mathematical values.
pub open spec fn step_refs_view(s: Seq<&ShrinkStep>) -> Seq<StepView> {
    s.map_values(|x: &ShrinkStep| x@)
}

impl DeltaDebugResult {
    /// Returns the accepted shrink trace.
    pub fn accepted_trace(&self) -> (r: Vec<&ShrinkStep>)
        ensures
            step_refs_view(r@) == accepted_steps(self.stats@.trace),
    {
        let ghost s = self.stats@.trace;
        let ghost p = |x: StepView| x.accepted;
        let mut r: Vec<&ShrinkStep> = Vec::new();
        let mut i: usize = 0;
        proof {
            reveal(Seq::filter);
            assert(step_refs_view(r@) =~= s.take(0).filter(p));
        }
        while i < self.stats.trace.len()
            invariant
                i <= self.stats.trace.len(),
                s == steps_view(self.stats.trace@),
                p == |x: StepView| x.accepted,
                step_refs_view(r@) == s.take(i as int).filter(p),
            decreases self.stats.trace.len() - i,
        {
            proof {
                crate::model::lemma_filter_step(s, i as int, p);
            }
            let ghost before = r@;
            if self.stats.trace[i].accepted {
                r.push(&self.stats.trace[i]);
                assert(step_refs_view(r@) =~= step_refs_view(before).push(s[i as int]));
            }
            i += 1;
        }
        assert(s.take(i as int) =~= s);
        r
    }

    /// Returns the accepted trace as text, a line for each step.
    pub fn trace_string(&self) -> (r: String)
        ensures
            r@ == step_lines(accepted_steps(self.stats@.trace)),
    {
        let steps = self.accepted_trace();
        let ghost v = step_refs_view(steps@);
        let mut r = String::new();
        let mut i: usize = 0;
        assert(v.take(0) =~= Seq::<StepView>::empty());
        assert(r@ =~= step_lines(v.take(0)));
        while i < steps.len()
            invariant
                i <= steps.len(),
                v == step_refs_view(steps@),
                r@ == step_lines(v.take(i as int)),
            decreases steps.len() - i,
        {
            if i > 0 {
                r.push_str("\n");
            }
            let line = steps[i].display();
            r.push_str(line.as_str());
            assert(v.take(i + 1).drop_last() =~= v.take(i as int));
            assert(v.take(i + 1).last() == steps@[i as int]@);
            i += 1;
            assert(r@ =~= step_lines(v.take(i as int)));
        }
        assert(v.take(i as int) =~= v);
        r
    }
}

/// The kind of failure of a replay.
pub open spec fn kind_of_result(r: Result<(), FailureKind>) -> Option<KindView> {
    match r {
        Ok(_) => None,
        Err(k) => Some(k@),
    }
}

/// Something that can be replayed under a fault configuration.
pub trait ReplayFn {
    /// Tells what a replay may give: the kind of its failure, or nothing where it passes.
    spec fn may_give(&self, seed: u64, config: ShrunkFaultConfig, kind: Option<KindView>) -> bool;

    /// Replays.
    fn replay(&self, seed: u64, config: &ShrunkFaultConfig) -> (r: Result<(), FailureKind>)
        ensures
            self.may_give(seed, *config, kind_of_result(r)),
    ;
}

/// A bug that shows itself under known conditions.
#[derive(Clone, Debug)]
pub enum SyntheticReplay {
    /// The bug shows from a workload length on.
    Workload { fail_at_op: usize, kind: FailureKind },
    /// The bug shows from a probability of partial writes and a workload length on.
    PartialWrites { min_prob: u32, min_workload: usize, kind: FailureKind },
}

/// Tells whether a bug shows itself.
pub open spec fn shows(bug: SyntheticReplay, c: ShrunkFaultConfig) -> bool {
    match bug {
        SyntheticReplay::Workload { fail_at_op, .. } => c.workload_len >= fail_at_op,
        SyntheticReplay::PartialWrites { min_prob, min_workload, .. } => c.partial_write_prob
            >= min_prob && c.workload_len >= min_workload,
    }
}

/// The kind of failure of a bug.
pub open spec fn bug_kind(bug: SyntheticReplay) -> KindView {
    match bug {
        SyntheticReplay::Workload { kind, .. } => kind@,
        SyntheticReplay::PartialWrites { kind, .. } => kind@,
    }
}

impl ReplayFn for SyntheticReplay {
    open spec fn may_give(
        &self,
        seed: u64,
        config: ShrunkFaultConfig,
        kind: Option<KindView>,
    ) -> bool {
        kind == if shows(*self, config) {
            Some(bug_kind(*self))
        } else {
            None
        }
    }

    fn replay(&self, seed: u64, config: &ShrunkFaultConfig) -> (r: Result<(), FailureKind>) {
        match self {
            SyntheticReplay::Workload { fail_at_op, kind } => {
                if config.workload_len >= *fail_at_op {
                    Err(kind.copy())
                } else {
                    Ok(())
                }
            },
            SyntheticReplay::PartialWrites { min_prob, min_workload, kind } => {
                if config.partial_write_prob >= *min_prob && config.workload_len >= *min_workload {
                    Err(kind.copy())
                } else {
                    Ok(())
                }
            },
        }
    }
}

/// The simulation itself.
pub struct ScenarioReplay;

/// The kind of a failure, if there is one.
pub open spec fn kind_in(f: Option<FailureView>) -> Option<KindView> {
    match f {
        Some(v) => Some(v.failure_kind),
        None => None,
    }
}

/// Tells what replaying the simulation gives, under the faults of the configuration.
pub open spec fn simulation_gives(
    seed: u64,
    c: ShrunkFaultConfig,
    f: Option<FailureView>,
) -> bool {
    replay_gives(seed, replay_config(c.scenario, c.workload_len), faults_of(c), f)
}

fn replay_simulation(seed: u64, config: &ShrunkFaultConfig) -> (r: Result<(), FailureReport>)
    ensures
        simulation_gives(seed, *config, failure_of(r)),
{
    replay_with_faults(
        seed,
        ScenarioConfig {
            scenario: config.scenario,
            max_operations: config.workload_len,
            max_crashes: config.workload_len / 10,
            stop_on_violation: true,
        },
        config.to_runtime_config(),
    )
}

/// A configuration as a scenario gives it replays as the scenario does.
pub proof fn law_scenario_faults(scenario: FaultScenario, workload_len: usize)
    ensures
        faults_of(of_scenario(scenario, workload_len)) == machine_faults(scenario),
{
}

impl ReplayFn for ScenarioReplay {
    open spec fn may_give(
        &self,
        seed: u64,
        config: ShrunkFaultConfig,
        kind: Option<KindView>,
    ) -> bool {
        exists|f: Option<FailureView>| #[trigger]
            simulation_gives(seed, config, f) && kind == kind_in(f)
    }

    fn replay(&self, seed: u64, config: &ShrunkFaultConfig) -> (r: Result<(), FailureKind>) {
        let done = replay_simulation(seed, config);
        assert(simulation_gives(seed, *config, failure_of(done)));
        match done {
            Ok(_) => Ok(()),
            Err(report) => Err(report.failure_kind),
        }
    }
}

/// A search for a smaller configuration that fails in the same way.
pub struct Reducer<'a, R: ReplayFn> {
    /// What is replayed.
    pub replay: &'a R,
    /// The seed of the replays.
    pub seed: u64,
    /// The failure to keep.
    pub target: &'a FailureKind,
    /// The configuration of the search.
    pub config: DeltaDebugConfig,
    /// Whether accepted steps are traced.
    pub traced: bool,
}

/// Statistics with one replay more.
pub open spec fn replay_counted(v: DeltaStatsView, hit: bool) -> DeltaStatsView {
    DeltaStatsView {
        total_replays: one_up(v.total_replays),
        successful_replays: if hit {
            one_up(v.successful_replays)
        } else {
            v.successful_replays
        },
        failed_replays: if hit {
            v.failed_replays
        } else {
            one_up(v.failed_replays)
        },
        ..v
    }
}

/// Tells whether two statistics differ in their counters of replays alone.
pub open spec fn only_replays(a: DeltaStatsView, b: DeltaStatsView) -> bool {
    b == DeltaStatsView {
        total_replays: b.total_replays,
        successful_replays: b.successful_replays,
        failed_replays: b.failed_replays,
        ..a
    }
}

/// Tells whether two statistics differ in their counters and their trace alone.
pub open spec fn only_counters(a: DeltaStatsView, b: DeltaStatsView) -> bool {
    b == DeltaStatsView {
        original_workload_size: a.original_workload_size,
        final_workload_size: a.final_workload_size,
        original_fault_types: a.original_fault_types,
        final_fault_types: a.final_fault_types,
        ..b
    }
}

/// What a search has done: the replays that kept the failure and those that did not, what was tried,
/// and the steps that were accepted.
pub struct Effort {
    pub hits: nat,
    pub misses: nat,
    pub lowerings: nat,
    pub removals: nat,
    pub truncations: nat,
    pub steps: Seq<StepView>,
}

/// Nothing done.
pub open spec fn no_effort() -> Effort {
    Effort { hits: 0, misses: 0, lowerings: 0, removals: 0, truncations: 0, steps: Seq::empty() }
}

/// One replay.
pub open spec fn one_replay(hit: bool) -> Effort {
    Effort { hits: one_if(hit), misses: one_if(!hit), ..no_effort() }
}

/// One thing done after another.
pub open spec fn both(a: Effort, b: Effort) -> Effort {
    Effort {
        hits: a.hits + b.hits,
        misses: a.misses + b.misses,
        lowerings: a.lowerings + b.lowerings,
        removals: a.removals + b.removals,
        truncations: a.truncations + b.truncations,
        steps: a.steps + b.steps,
    }
}

/// Statistics with the counts of what was done.
pub open spec fn counted(v: DeltaStatsView, e: Effort) -> DeltaStatsView {
    DeltaStatsView {
        total_replays: ups(v.total_replays, e.hits + e.misses),
        successful_replays: ups(v.successful_replays, e.hits),
        failed_replays: ups(v.failed_replays, e.misses),
        probability_reductions: ups(v.probability_reductions, e.lowerings),
        fault_type_removals: ups(v.fault_type_removals, e.removals),
        workload_truncations: ups(v.workload_truncations, e.truncations),
        ..v
    }
}

/// Statistics with the counts of what was done, and its steps where steps are traced.
pub open spec fn spent(v: DeltaStatsView, e: Effort, traced: bool) -> DeltaStatsView {
    DeltaStatsView { trace: traced_steps(v.trace, traced, e.steps), ..counted(v, e) }
}

/// Tells whether statistics are others with the counts of what was done, but for their traces.
spec fn counts(a: DeltaStatsView, e: Effort, b: DeltaStatsView) -> bool {
    b == (DeltaStatsView { trace: b.trace, ..counted(a, e) })
}

proof fn lemma_both(a: Effort, b: Effort, c: Effort)
    ensures
        both(both(a, b), c) == both(a, both(b, c)),
        both(no_effort(), a) == a,
        both(a, no_effort()) == a,
{
    assert(both(both(a, b), c).steps =~= both(a, both(b, c)).steps);
    assert(both(no_effort(), a).steps =~= a.steps);
    assert(both(a, no_effort()).steps =~= a.steps);
}

proof fn lemma_counts(a: DeltaStatsView, e: Effort, b: DeltaStatsView, hit: bool)
    requires
        counts(a, e, b),
    ensures
        counts(a, both(e, one_replay(hit)), replay_counted(b, hit)),
{
}

proof fn lemma_counts_both(
    a: DeltaStatsView,
    e: Effort,
    b: DeltaStatsView,
    f: Effort,
    c: DeltaStatsView,
)
    requires
        counts(a, e, b),
        counts(b, f, c),
    ensures
        counts(a, both(e, f), c),
{
}

proof fn lemma_spent_both(v: DeltaStatsView, a: Effort, b: Effort, traced: bool)
    ensures
        spent(spent(v, a, traced), b, traced) == spent(v, both(a, b), traced),
        spent(v, no_effort(), traced) == v,
{
    assert(spent(spent(v, a, traced), b, traced).trace =~= spent(v, both(a, b), traced).trace);
    assert(spent(v, no_effort(), traced).trace =~= v.trace);
}

/// A configuration where it differs from another.
pub open spec fn changed(a: ShrunkFaultConfig, b: ShrunkFaultConfig) -> Option<ShrunkFaultConfig> {
    if b == a {
        None
    } else {
        Some(b)
    }
}

/// Tells whether a configuration asks for no more than another.
pub open spec fn no_more(a: ShrunkFaultConfig, b: ShrunkFaultConfig) -> bool {
    &&& a.scenario == b.scenario
    &&& a.partial_write_prob <= b.partial_write_prob
    &&& a.disk_full_threshold <= b.disk_full_threshold
    &&& a.slow_write_prob <= b.slow_write_prob
    &&& a.clock_skew_prob <= b.clock_skew_prob
    &&& a.process_pause_prob <= b.process_pause_prob
    &&& a.workload_len <= b.workload_len
}

/// A probability as text with two decimals, rounded to the nearest, a half to the even one.
pub open spec fn prob_text(p: u32) -> Seq<char> {
    let n = nearest(p as nat, 10000);
    decimal(n / 100) + "."@ + decimal((n / 10) % 10) + decimal(n % 10)
}

fn prob_string(p: u32) -> (r: String)
    ensures
        r@ == prob_text(p),
{
    let n = rounded_quotient(p as u128, 10000) as u64;
    let mut r = String::new();
    push_decimal(&mut r, n / 100);
    r.push_str(".");
    push_decimal(&mut r, (n / 10) % 10);
    push_decimal(&mut r, n % 10);
    assert(r@ =~= prob_text(p));
    r
}

/// The step of a probability that was lowered, if it was.
pub open spec fn prob_steps(a: ShrunkFaultConfig, b: ShrunkFaultConfig, i: int) -> Seq<StepView> {
    if prob_at(b, i) < prob_at(a, i) {
        seq![
            accepted_step(
                axis_name(i) + "_prob"@,
                prob_text(prob_at(a, i)),
                prob_text(prob_at(b, i)),
            ),
        ]
    } else {
        Seq::empty()
    }
}

/// The step of a threshold that was lowered, if it was.
pub open spec fn threshold_steps(a: ShrunkFaultConfig, b: ShrunkFaultConfig) -> Seq<StepView> {
    if b.disk_full_threshold < a.disk_full_threshold {
        seq![
            accepted_step(
                "disk_full_threshold"@,
                decimal(a.disk_full_threshold as nat),
                decimal(b.disk_full_threshold as nat),
            ),
        ]
    } else {
        Seq::empty()
    }
}

/// The steps of the first `n` probabilities that were lowered.
pub open spec fn prob_steps_upto(a: ShrunkFaultConfig, b: ShrunkFaultConfig, n: nat) -> Seq<StepView>
    decreases n,
{
    if n == 0 {
        Seq::empty()
    } else {
        prob_steps_upto(a, b, (n - 1) as nat) + prob_steps(a, b, n - 1)
    }
}

/// The steps of probabilities and threshold that were lowered.
pub open spec fn lowering_steps(a: ShrunkFaultConfig, b: ShrunkFaultConfig) -> Seq<StepView> {
    prob_steps_upto(a, b, 4) + threshold_steps(a, b)
}

/// The step of a fault that was removed, if it was.
pub open spec fn removal_steps(a: ShrunkFaultConfig, b: ShrunkFaultConfig, i: int) -> Seq<StepView> {
    if prob_at(b, i) < prob_at(a, i) {
        seq![accepted_step(axis_name(i) + "_removal"@, "enabled"@, "disabled"@)]
    } else {
        Seq::empty()
    }
}

/// The steps of the first `n` faults that were removed.
pub open spec fn removal_steps_upto(a: ShrunkFaultConfig, b: ShrunkFaultConfig, n: nat) -> Seq<
    StepView,
>
    decreases n,
{
    if n == 0 {
        Seq::empty()
    } else {
        removal_steps_upto(a, b, (n - 1) as nat) + removal_steps(a, b, n - 1)
    }
}

/// The steps of faults that were removed.
pub open spec fn removing_steps(a: ShrunkFaultConfig, b: ShrunkFaultConfig) -> Seq<StepView> {
    removal_steps_upto(a, b, 4) + if b.disk_full_threshold < a.disk_full_threshold {
        seq![accepted_step("disk_full_removal"@, "enabled"@, "disabled"@)]
    } else {
        Seq::empty()
    }
}

/// The step of a workload that was shortened, if it was.
pub open spec fn workload_steps(a: ShrunkFaultConfig, b: ShrunkFaultConfig) -> Seq<StepView> {
    if b.workload_len < a.workload_len {
        seq![
            accepted_step(
                "workload_len"@,
                decimal(a.workload_len as nat),
                decimal(b.workload_len as nat),
            ),
        ]
    } else {
        Seq::empty()
    }
}

/// A trace with steps behind it where steps are traced.
pub open spec fn traced_steps(trace: Seq<StepView>, traced: bool, steps: Seq<StepView>) -> Seq<
    StepView,
> {
    if traced {
        trace + steps
    } else {
        trace
    }
}

fn axis_text(i: usize) -> (r: &'static str)
    requires
        i < 4,
    ensures
        r@ == axis_name(i as int),
{
    match i {
        0 => "partial_write",
        1 => "slow_write",
        2 => "clock_skew",
        _ => "process_pause",
    }
}

fn get_prob(c: &ShrunkFaultConfig, i: usize) -> (r: u32)
    requires
        i < 4,
    ensures
        r == prob_at(*c, i as int),
{
    match i {
        0 => c.partial_write_prob,
        1 => c.slow_write_prob,
        2 => c.clock_skew_prob,
        _ => c.process_pause_prob,
    }
}

fn set_prob(c: &ShrunkFaultConfig, i: usize, p: u32) -> (r: ShrunkFaultConfig)
    requires
        i < 4,
    ensures
        r == with_prob(*c, i as int, p),
{
    match i {
        0 => ShrunkFaultConfig { partial_write_prob: p, ..*c },
        1 => ShrunkFaultConfig { slow_write_prob: p, ..*c },
        2 => ShrunkFaultConfig { clock_skew_prob: p, ..*c },
        _ => ShrunkFaultConfig { process_pause_prob: p, ..*c },
    }
}

impl<'a, R: ReplayFn> Reducer<'a, R> {
    /// Tells whether a replay may fail in the way that is kept.
    pub open spec fn yes(&self, c: ShrunkFaultConfig) -> bool {
        exists|k: KindView|
            #[trigger] self.replay.may_give(self.seed, c, Some(k)) && same_kind(k, self.target@)
    }

    /// Tells whether a replay may pass or fail in another way.
    pub open spec fn no(&self, c: ShrunkFaultConfig) -> bool {
        exists|o: Option<KindView>|
            #[trigger] self.replay.may_give(self.seed, c, o) && !(o is Some && same_kind(
                o->0,
                self.target@,
            ))
    }

    /// Tells whether a configuration keeps the failure in every replay or in none.
    pub open spec fn decided(&self) -> bool {
        forall|c: ShrunkFaultConfig| !(#[trigger] self.yes(c) && self.no(c))
    }

    /// What halving between a probability that is too low and one that keeps the failure comes to.
    pub open spec fn prob_search(&self, best: ShrunkFaultConfig, axis: int, lo: u32, hi: u32) -> (
        u32,
        Effort,
    )
        decreases hi - lo,
    {
        if hi - lo <= self.config.min_probability || hi - lo <= 1 {
            (hi, no_effort())
        } else {
            let mid = (lo + (hi - lo) / 2) as u32;
            let hit = self.yes(with_prob(best, axis, mid));
            let (p, e) = if hit {
                self.prob_search(best, axis, lo, mid)
            } else {
                self.prob_search(best, axis, mid, hi)
            };
            (p, both(one_replay(hit), e))
        }
    }

    /// How low a probability is made: zero is tried last, where the minimum is reached.
    pub open spec fn lowest_prob(&self, best: ShrunkFaultConfig, axis: int) -> (u32, Effort) {
        let (p, e) = self.prob_search(best, axis, 0, prob_at(best, axis));
        if p <= self.config.min_probability {
            let hit = self.yes(with_prob(best, axis, 0));
            (
                if hit {
                    0
                } else {
                    p
                },
                both(e, one_replay(hit)),
            )
        } else {
            (p, e)
        }
    }

    /// What halving between a threshold that is too low and one that keeps the failure comes to.
    pub open spec fn threshold_search(&self, best: ShrunkFaultConfig, lo: u64, hi: u64) -> (
        u64,
        Effort,
    )
        decreases hi - lo,
    {
        if hi - lo <= 1024 {
            (hi, no_effort())
        } else {
            let mid = (lo + (hi - lo) / 2) as u64;
            let hit = self.yes(with_threshold(best, mid));
            let (t, e) = if hit {
                self.threshold_search(best, lo, mid)
            } else {
                self.threshold_search(best, mid, hi)
            };
            (t, both(one_replay(hit), e))
        }
    }

    /// How low the threshold is made: zero is tried last.
    pub open spec fn lowest_threshold(&self, best: ShrunkFaultConfig) -> (u64, Effort) {
        let (t, e) = self.threshold_search(best, 0, best.disk_full_threshold);
        let hit = self.yes(with_threshold(best, 0));
        (
            if hit {
                0
            } else {
                t
            },
            both(e, one_replay(hit)),
        )
    }

    /// A configuration with its first `n` probabilities lowered, one after the other.
    pub open spec fn lowered_upto(&self, c: ShrunkFaultConfig, n: nat) -> (ShrunkFaultConfig, Effort)
        decreases n,
    {
        if n == 0 {
            (c, no_effort())
        } else {
            let (b, e) = self.lowered_upto(c, (n - 1) as nat);
            if prob_at(c, n - 1) > 0 {
                let (p, f) = self.lowest_prob(b, n - 1);
                (
                    with_prob(b, n - 1, p),
                    both(both(e, Effort { lowerings: 1, ..no_effort() }), f),
                )
            } else {
                (b, e)
            }
        }
    }

    /// A configuration with its probabilities and then its threshold lowered.
    pub open spec fn lowered(&self, c: ShrunkFaultConfig) -> (ShrunkFaultConfig, Effort) {
        let (a, e) = self.lowered_upto(c, 4);
        let (b, f) = if c.disk_full_threshold > 0 {
            let (t, g) = self.lowest_threshold(a);
            (with_threshold(a, t), both(e, g))
        } else {
            (a, e)
        };
        (b, Effort { steps: lowering_steps(c, b), ..f })
    }

    /// A configuration with those of its first `n` faults removed that are not needed.
    pub open spec fn removed_upto(&self, c: ShrunkFaultConfig, n: nat) -> (ShrunkFaultConfig, Effort)
        decreases n,
    {
        if n == 0 {
            (c, no_effort())
        } else {
            let (b, e) = self.removed_upto(c, (n - 1) as nat);
            if prob_at(c, n - 1) > 0 {
                let hit = self.yes(with_prob(b, n - 1, 0));
                (
                    if hit {
                        with_prob(b, n - 1, 0)
                    } else {
                        b
                    },
                    both(both(e, Effort { removals: 1, ..no_effort() }), one_replay(hit)),
                )
            } else {
                (b, e)
            }
        }
    }

    /// A configuration with those of its faults removed that are not needed, one after the other.
    pub open spec fn removed(&self, c: ShrunkFaultConfig) -> (ShrunkFaultConfig, Effort) {
        let (a, e) = self.removed_upto(c, 4);
        let (b, f) = if c.disk_full_threshold > 0 {
            let hit = self.yes(with_threshold(a, 0));
            (
                if hit {
                    with_threshold(a, 0)
                } else {
                    a
                },
                both(both(e, Effort { removals: 1, ..no_effort() }), one_replay(hit)),
            )
        } else {
            (a, e)
        };
        (b, Effort { steps: removing_steps(c, b), ..f })
    }

    /// What halving between the shortest workload that may keep the failure and one that keeps it
    /// comes to.
    pub open spec fn len_search(&self, c: ShrunkFaultConfig, lo: usize, hi: usize) -> (usize, Effort)
        decreases hi - lo,
    {
        if hi <= lo {
            (hi, no_effort())
        } else {
            let mid = (lo + (hi - lo) / 2) as usize;
            let hit = self.yes(with_len(c, mid));
            let (n, e) = if hit {
                self.len_search(c, lo, mid)
            } else {
                self.len_search(c, (mid + 1) as usize, hi)
            };
            (n, both(one_replay(hit), e))
        }
    }

    /// A configuration with its workload shortened.
    pub open spec fn shortened(&self, c: ShrunkFaultConfig) -> (ShrunkFaultConfig, Effort) {
        if c.workload_len <= self.config.min_workload_size {
            (c, no_effort())
        } else {
            let (n, e) = self.len_search(c, self.config.min_workload_size, c.workload_len);
            let b = with_len(c, n);
            (
                b,
                Effort {
                    steps: workload_steps(c, b),
                    ..both(Effort { truncations: 1, ..no_effort() }, e)
                },
            )
        }
    }

    /// A configuration after one round of the search.
    pub open spec fn after_round(&self, c: ShrunkFaultConfig) -> (ShrunkFaultConfig, Effort) {
        let (a, e) = self.lowered(c);
        let (b, f) = if self.config.try_fault_type_removal {
            self.removed(a)
        } else {
            (a, no_effort())
        };
        let (d, g) = self.shortened(b);
        (d, both(both(e, f), g))
    }

    /// A configuration after up to `n` rounds of the search, and whether the last one changed
    /// nothing.
    pub open spec fn after_rounds(&self, c: ShrunkFaultConfig, n: nat) -> (
        ShrunkFaultConfig,
        bool,
        Effort,
    )
        decreases n,
    {
        if n == 0 {
            (c, false, no_effort())
        } else {
            let (b, e) = self.after_round(c);
            if b == c {
                (c, true, e)
            } else {
                let (d, settled, f) = self.after_rounds(b, (n - 1) as nat);
                (d, settled, both(e, f))
            }
        }
    }

    /// What a search from a configuration comes to, if to anything: the configuration is replayed
    /// first, and what the rounds made of it last.
    pub open spec fn shrunk(&self, start: ShrunkFaultConfig) -> (Option<ShrunkFaultConfig>, Effort) {
        if !self.yes(start) {
            (None, one_replay(false))
        } else {
            let (c, _, e) = self.after_rounds(
                start,
                (self.config.max_iterations_per_axis * 3) as nat,
            );
            let hit = self.yes(c);
            (
                if hit {
                    Some(c)
                } else {
                    None
                },
                both(both(one_replay(true), e), one_replay(hit)),
            )
        }
    }

    /// Tells whether a probability is as low as the search makes it: no lower one within reach
    /// keeps the failure.
    pub open spec fn prob_is_low(&self, c: ShrunkFaultConfig, i: int) -> bool {
        let p = prob_at(c, i);
        p == 0 || {
            &&& exists|lo: u32| #[trigger] self.narrows(c, i, lo)
            &&& p > self.config.min_probability || self.no(with_prob(c, i, 0))
        }
    }

    /// Tells whether a probability that does not keep the failure, or zero, is within the
    /// minimum below the one of a configuration.
    pub open spec fn narrows(&self, c: ShrunkFaultConfig, i: int, lo: u32) -> bool {
        &&& lo < prob_at(c, i) <= lo + self.config.min_probability
        &&& lo == 0 || self.no(with_prob(c, i, lo))
    }

    /// Tells whether the threshold is as low as the search makes it.
    pub open spec fn threshold_is_low(&self, c: ShrunkFaultConfig) -> bool {
        c.disk_full_threshold == 0 || {
            &&& self.no(with_threshold(c, 0))
            &&& exists|lo: u64| #[trigger] self.narrows_threshold(c, lo)
        }
    }

    /// Tells whether a threshold that does not keep the failure, or zero, is within a kilobyte
    /// below the one of a configuration.
    pub open spec fn narrows_threshold(&self, c: ShrunkFaultConfig, lo: u64) -> bool {
        &&& lo < c.disk_full_threshold <= lo + 1024
        &&& lo == 0 || self.no(with_threshold(c, lo))
    }

    /// Tells whether removing any enabled fault loses the failure.
    pub open spec fn faults_needed(&self, c: ShrunkFaultConfig) -> bool {
        &&& forall|i: int|
            0 <= i < 4 && #[trigger] prob_at(c, i) > 0 ==> self.no(with_prob(c, i, 0))
        &&& c.disk_full_threshold > 0 ==> self.no(with_threshold(c, 0))
    }

    /// Tells whether one operation less loses the failure, or no fewer are to be tried.
    pub open spec fn workload_needed(&self, c: ShrunkFaultConfig) -> bool {
        c.workload_len <= self.config.min_workload_size || self.no(
            with_len(c, (c.workload_len - 1) as usize),
        )
    }

    /// Tells whether nothing makes a configuration smaller.
    pub open spec fn settled(&self, c: ShrunkFaultConfig) -> bool {
        &&& forall|i: int| 0 <= i < 4 ==> #[trigger] self.prob_is_low(c, i)
        &&& self.threshold_is_low(c)
        &&& self.config.try_fault_type_removal ==> self.faults_needed(c)
        &&& self.workload_needed(c)
    }

    /// Replays and tells whether the failure is kept.
    pub fn reproduces_failure(&self, stats: &mut DeltaDebugStats, config: &ShrunkFaultConfig) -> (r:
        bool)
        ensures
            r ==> self.yes(*config),
            !r ==> self.no(*config),
            self.decided() ==> r == self.yes(*config),
            final(stats)@ == replay_counted(old(stats)@, r),
    {
        stats.total_replays = bump(stats.total_replays);
        let outcome = self.replay.replay(self.seed, config);
        let ghost o = kind_of_result(outcome);
        assert(self.replay.may_give(self.seed, *config, o));
        match outcome {
            Ok(_) => {
                stats.failed_replays = bump(stats.failed_replays);
                false
            },
            Err(kind) => {
                if kind.matches(self.target) {
                    stats.successful_replays = bump(stats.successful_replays);
                    true
                } else {
                    stats.failed_replays = bump(stats.failed_replays);
                    false
                }
            },
        }
    }

    /// Finds by halving how low a probability can be.
    #[verifier::rlimit(40)]
    fn lower_probability(
        &self,
        stats: &mut DeltaDebugStats,
        best: &ShrunkFaultConfig,
        axis: usize,
    ) -> (r: u32)
        requires
            axis < 4,
            prob_at(*best, axis as int) > 0,
            self.config.min_probability > 0,
            self.yes(*best),
        ensures
            r <= prob_at(*best, axis as int),
            self.yes(with_prob(*best, axis as int, r)),
            self.prob_is_low(with_prob(*best, axis as int, r), axis as int),
            only_replays(old(stats)@, final(stats)@),
            self.decided() ==> r == self.lowest_prob(*best, axis as int).0 && counts(
                old(stats)@,
                self.lowest_prob(*best, axis as int).1,
                final(stats)@,
            ),
    {
        let ghost a = axis as int;
        let prob = get_prob(best, axis);
        let mut lo: u32 = 0;
        let mut hi: u32 = prob;
        let ghost mut done = no_effort();
        proof {
            lemma_both(self.prob_search(*best, a, 0, prob).1, done, done);
        }
        assert(with_prob(*best, a, hi) == *best);
        while hi - lo > self.config.min_probability
            invariant
                axis < 4,
                a == axis as int,
                0 <= lo < hi <= prob,
                prob == prob_at(*best, a),
                self.config.min_probability > 0,
                self.yes(with_prob(*best, a, hi)),
                lo == 0 || self.no(with_prob(*best, a, lo)),
                only_replays(old(stats)@, stats@),
                self.decided() ==> counts(old(stats)@, done, stats@) && self.prob_search(
                    *best,
                    a,
                    0,
                    prob,
                ) == (
                    self.prob_search(*best, a, lo, hi).0,
                    both(done, self.prob_search(*best, a, lo, hi).1),
                ),
            decreases hi - lo,
        {
            let mid: u32 = lo + (hi - lo) / 2;
            let candidate = set_prob(best, axis, mid);
            let ghost before = stats@;
            let ghost next = self.prob_search(*best, a, lo, hi).1;
            let hit = self.reproduces_failure(stats, &candidate);
            proof {
                let rest = if hit {
                    self.prob_search(*best, a, lo, mid).1
                } else {
                    self.prob_search(*best, a, mid, hi).1
                };
                if self.decided() {
                    lemma_counts(old(stats)@, done, before, hit);
                    assert(next == both(one_replay(hit), rest));
                    lemma_both(done, one_replay(hit), rest);
                }
                done = both(done, one_replay(hit));
            }
            if hit {
                hi = mid;
            } else {
                lo = mid;
            }
        }
        proof {
            lemma_both(done, no_effort(), no_effort());
        }
        let ghost found = with_prob(*best, a, hi);
        assert forall|p: u32| with_prob(found, a, p) == #[trigger] with_prob(*best, a, p) by {}
        assert(with_prob(found, a, lo) == with_prob(*best, a, lo));
        assert(self.narrows(found, a, lo));
        if hi <= self.config.min_probability {
            let candidate = set_prob(best, axis, 0);
            let ghost before = stats@;
            let hit = self.reproduces_failure(stats, &candidate);
            proof {
                if self.decided() {
                    lemma_counts(old(stats)@, done, before, hit);
                }
            }
            if hit {
                return 0;
            }
            assert(with_prob(found, a, 0) == with_prob(*best, a, 0));
        }
        hi
    }

    /// Finds by halving how low the threshold can be.
    fn lower_threshold(&self, stats: &mut DeltaDebugStats, best: &ShrunkFaultConfig) -> (r: u64)
        requires
            best.disk_full_threshold > 0,
            self.yes(*best),
        ensures
            r <= best.disk_full_threshold,
            self.yes(with_threshold(*best, r)),
            self.threshold_is_low(with_threshold(*best, r)),
            only_replays(old(stats)@, final(stats)@),
            self.decided() ==> r == self.lowest_threshold(*best).0 && counts(
                old(stats)@,
                self.lowest_threshold(*best).1,
                final(stats)@,
            ),
    {
        let first = best.disk_full_threshold;
        let mut lo: u64 = 0;
        let mut hi: u64 = first;
        let ghost mut done = no_effort();
        proof {
            lemma_both(self.threshold_search(*best, 0, first).1, done, done);
        }
        assert(with_threshold(*best, hi) == *best);
        while hi - lo > 1024
            invariant
                0 <= lo < hi <= first,
                first == best.disk_full_threshold,
                self.yes(with_threshold(*best, hi)),
                lo == 0 || self.no(with_threshold(*best, lo)),
                only_replays(old(stats)@, stats@),
                self.decided() ==> counts(old(stats)@, done, stats@) && self.threshold_search(
                    *best,
                    0,
                    first,
                ) == (
                    self.threshold_search(*best, lo, hi).0,
                    both(done, self.threshold_search(*best, lo, hi).1),
                ),
            decreases hi - lo,
        {
            let mid: u64 = lo + (hi - lo) / 2;
            let candidate = best.with_disk_full(mid);
            let ghost before = stats@;
            let ghost next = self.threshold_search(*best, lo, hi).1;
            let hit = self.reproduces_failure(stats, &candidate);
            proof {
                let rest = if hit {
                    self.threshold_search(*best, lo, mid).1
                } else {
                    self.threshold_search(*best, mid, hi).1
                };
                if self.decided() {
                    lemma_counts(old(stats)@, done, before, hit);
                    assert(next == both(one_replay(hit), rest));
                    lemma_both(done, one_replay(hit), rest);
                }
                done = both(done, one_replay(hit));
            }
            if hit {
                hi = mid;
            } else {
                lo = mid;
            }
        }
        proof {
            lemma_both(done, no_effort(), no_effort());
        }
        let ghost found = with_threshold(*best, hi);
        assert(with_threshold(found, lo) == with_threshold(*best, lo));
        assert(with_threshold(found, 0) == with_threshold(*best, 0));
        assert(self.narrows_threshold(found, lo));
        let candidate = best.with_disk_full(0);
        let ghost before = stats@;
        let hit = self.reproduces_failure(stats, &candidate);
        proof {
            if self.decided() {
                lemma_counts(old(stats)@, done, before, hit);
            }
        }
        if hit {
            return 0;
        }
        hi
    }

    fn note(&self, stats: &mut DeltaDebugStats, axis: &str, before: &str, after: &str)
        ensures
            final(stats)@ == (DeltaStatsView {
                trace: traced_steps(
                    old(stats)@.trace,
                    self.traced,
                    seq![accepted_step(axis@, before@, after@)],
                ),
                ..old(stats)@
            }),
    {
        if self.traced {
            let ghost t = stats.trace@;
            let step = ShrinkStep::accepted(axis, before, after);
            stats.trace.push(step);
            assert(steps_view(stats.trace@) =~= steps_view(t) + seq![step@]);
        }
    }
}

proof fn lemma_steps_same(
    a: ShrunkFaultConfig,
    b: ShrunkFaultConfig,
    c: ShrunkFaultConfig,
    n: nat,
)
    requires
        n <= 4,
        forall|i: int| 0 <= i < n ==> #[trigger] prob_at(b, i) == prob_at(c, i),
    ensures
        prob_steps_upto(a, b, n) == prob_steps_upto(a, c, n),
        removal_steps_upto(a, b, n) == removal_steps_upto(a, c, n),
    decreases n,
{
    if n > 0 {
        lemma_steps_same(a, b, c, (n - 1) as nat);
        assert(prob_at(b, n - 1) == prob_at(c, n - 1));
    }
}

proof fn lemma_with_prob(c: ShrunkFaultConfig, i: int, p: u32)
    requires
        0 <= i < 4,
    ensures
        prob_at(with_prob(c, i, p), i) == p,
        forall|j: int|
            0 <= j < 4 && j != i ==> #[trigger] prob_at(with_prob(c, i, p), j) == prob_at(c, j),
        with_prob(c, i, prob_at(c, i)) == c,
        p != prob_at(c, i) ==> with_prob(c, i, p) != c,
{
}

/// Tells whether two configurations differ in their probabilities before a place alone, and
/// those are no higher.
spec fn lowered_before(a: ShrunkFaultConfig, b: ShrunkFaultConfig, n: int) -> bool {
    &&& no_more(b, a)
    &&& b.disk_full_threshold == a.disk_full_threshold
    &&& b.workload_len == a.workload_len
    &&& forall|j: int| n <= j < 4 ==> #[trigger] prob_at(b, j) == prob_at(a, j)
}

proof fn lemma_lowered_step(
    a: ShrunkFaultConfig,
    b: ShrunkFaultConfig,
    n: int,
    p: u32,
)
    requires
        0 <= n < 4,
        lowered_before(a, b, n),
        p <= prob_at(a, n),
    ensures
        lowered_before(a, with_prob(b, n, p), n + 1),
        b != a || p < prob_at(a, n) ==> with_prob(b, n, p) != a,
        prob_steps_upto(a, with_prob(b, n, p), (n + 1) as nat) == prob_steps_upto(a, b, n as nat)
            + prob_steps(a, with_prob(b, n, p), n),
        removal_steps_upto(a, with_prob(b, n, p), (n + 1) as nat) == removal_steps_upto(
            a,
            b,
            n as nat,
        ) + removal_steps(a, with_prob(b, n, p), n),
{
    let c = with_prob(b, n, p);
    lemma_with_prob(b, n, p);
    assert forall|i: int| 0 <= i < n implies #[trigger] prob_at(c, i) == prob_at(b, i) by {}
    lemma_steps_same(a, c, b, n as nat);
    if b != a && c == a {
        assert(prob_at(b, n) == prob_at(a, n));
        assert(with_prob(b, n, prob_at(b, n)) == b);
        assert(p == prob_at(a, n));
        assert(c == b);
    }
}

impl<'a, R: ReplayFn> Reducer<'a, R> {
    /// Lowers fault probabilities and the threshold; `None` where nothing can be lowered.
    #[verifier::rlimit(40)]
    pub fn shrink_probabilities(
        &self,
        stats: &mut DeltaDebugStats,
        current: &ShrunkFaultConfig,
    ) -> (r: Option<ShrunkFaultConfig>)
        requires
            self.config.min_probability > 0,
            self.yes(*current),
        ensures
            only_counters(old(stats)@, final(stats)@),
            match r {
                Some(b) => {
                    &&& self.yes(b)
                    &&& no_more(b, *current)
                    &&& b != *current
                    &&& b.workload_len == current.workload_len
                    &&& final(stats)@.trace == traced_steps(
                        old(stats)@.trace,
                        self.traced,
                        lowering_steps(*current, b),
                    )
                },
                None => {
                    &&& forall|i: int| 0 <= i < 4 ==> #[trigger] self.prob_is_low(*current, i)
                    &&& self.threshold_is_low(*current)
                    &&& final(stats)@.trace == old(stats)@.trace
                },
            },
            self.decided() ==> r == changed(*current, self.lowered(*current).0) && final(stats)@
                == spent(old(stats)@, self.lowered(*current).1, self.traced),
    {
        let ghost cur = *current;
        let ghost first = stats@;
        let mut best = *current;
        let mut made_progress = false;
        let mut axis: usize = 0;
        let ghost mut done = no_effort();
        proof {
            assert(traced_steps(first.trace, self.traced, prob_steps_upto(cur, best, 0))
                =~= first.trace);
        }
        while axis < 4
            invariant
                axis <= 4,
                cur == *current,
                self.config.min_probability > 0,
                self.yes(best),
                lowered_before(cur, best, axis as int),
                made_progress == (best != cur),
                !made_progress ==> forall|i: int|
                    0 <= i < axis ==> #[trigger] self.prob_is_low(cur, i),
                only_counters(first, stats@),
                self.decided() ==> (best, done) == self.lowered_upto(cur, axis as nat) && counts(
                    first,
                    done,
                    stats@,
                ),
                stats@.trace == traced_steps(
                    first.trace,
                    self.traced,
                    prob_steps_upto(cur, best, axis as nat),
                ),
            decreases 4 - axis,
        {
            let prob = get_prob(current, axis);
            let ghost b0 = best;
            assert(prob_at(b0, axis as int) == prob_at(cur, axis as int));
            if prob > 0 {
                let ghost one = Effort { lowerings: 1, ..no_effort() };
                let ghost s0 = stats@;
                stats.probability_reductions = bump(stats.probability_reductions);
                let ghost s1 = stats@;
                let p = self.lower_probability(stats, &best, axis);
                proof {
                    let f = self.lowest_prob(b0, axis as int).1;
                    if self.decided() {
                        assert(counts(s0, one, s1));
                        lemma_counts_both(first, done, s0, one, s1);
                        lemma_counts_both(first, both(done, one), s1, f, stats@);
                    }
                    done = both(both(done, one), f);
                    lemma_with_prob(b0, axis as int, p);
                    lemma_lowered_step(cur, b0, axis as int, p);
                }
                if p < prob {
                    let mut name = text_of(axis_text(axis));
                    name.push_str("_prob");
                    let before = prob_string(prob);
                    let after = prob_string(p);
                    self.note(stats, name.as_str(), before.as_str(), after.as_str());
                    best = set_prob(&best, axis, p);
                    made_progress = true;
                    assert(traced_steps(
                        first.trace,
                        self.traced,
                        prob_steps_upto(cur, best, (axis + 1) as nat),
                    ) =~= stats@.trace);
                } else {
                    assert(with_prob(b0, axis as int, p) == b0);
                    assert(prob_steps_upto(cur, best, (axis + 1) as nat) =~= prob_steps_upto(
                        cur,
                        best,
                        axis as nat,
                    ));
                }
            } else {
                proof {
                    lemma_lowered_step(cur, b0, axis as int, 0);
                    lemma_with_prob(b0, axis as int, 0);
                    assert(prob_steps_upto(cur, best, (axis + 1) as nat) =~= prob_steps_upto(
                        cur,
                        best,
                        axis as nat,
                    ));
                }
            }
            axis += 1;
        }
        let ghost b1 = best;
        let ghost s1 = stats@;
        if current.disk_full_threshold > 0 {
            let t = self.lower_threshold(stats, &best);
            proof {
                let f = self.lowest_threshold(b1).1;
                if self.decided() {
                    lemma_counts_both(first, done, s1, f, stats@);
                }
                done = both(done, f);
            }
            if t < current.disk_full_threshold {
                let mut before = String::new();
                push_decimal(&mut before, current.disk_full_threshold);
                let mut after = String::new();
                push_decimal(&mut after, t);
                assert(before@ =~= decimal(current.disk_full_threshold as nat));
                assert(after@ =~= decimal(t as nat));
                self.note(stats, "disk_full_threshold", before.as_str(), after.as_str());
                best = best.with_disk_full(t);
                made_progress = true;
            } else {
                assert(with_threshold(b1, t) == b1);
            }
        }
        proof {
            lemma_steps_same(cur, best, b1, 4);
            assert(traced_steps(first.trace, self.traced, lowering_steps(cur, best))
                =~= stats@.trace);
        }
        if made_progress {
            Some(best)
        } else {
            proof {
                assert(best == cur);
                reveal_with_fuel(prob_steps_upto, 5);
                assert(lowering_steps(cur, best) =~= Seq::<StepView>::empty());
                assert(traced_steps(first.trace, self.traced, lowering_steps(cur, best))
                    =~= first.trace);
            }
            None
        }
    }

    /// Removes faults entirely; `None` where each is needed.
    #[verifier::rlimit(40)]
    pub fn remove_fault_types(
        &self,
        stats: &mut DeltaDebugStats,
        current: &ShrunkFaultConfig,
    ) -> (r: Option<ShrunkFaultConfig>)
        requires
            self.yes(*current),
        ensures
            only_counters(old(stats)@, final(stats)@),
            match r {
                Some(b) => {
                    &&& self.yes(b)
                    &&& no_more(b, *current)
                    &&& b != *current
                    &&& b.workload_len == current.workload_len
                    &&& final(stats)@.trace == traced_steps(
                        old(stats)@.trace,
                        self.traced,
                        removing_steps(*current, b),
                    )
                },
                None => {
                    &&& self.faults_needed(*current)
                    &&& final(stats)@.trace == old(stats)@.trace
                },
            },
            self.decided() ==> r == changed(*current, self.removed(*current).0) && final(stats)@
                == spent(old(stats)@, self.removed(*current).1, self.traced),
    {
        let ghost cur = *current;
        let ghost first = stats@;
        let mut best = *current;
        let mut made_progress = false;
        let mut axis: usize = 0;
        let ghost mut done = no_effort();
        let ghost one = Effort { removals: 1, ..no_effort() };
        proof {
            assert(traced_steps(first.trace, self.traced, removal_steps_upto(cur, best, 0))
                =~= first.trace);
        }
        while axis < 4
            invariant
                axis <= 4,
                cur == *current,
                self.yes(best),
                lowered_before(cur, best, axis as int),
                made_progress == (best != cur),
                !made_progress ==> forall|i: int|
                    0 <= i < axis && #[trigger] prob_at(cur, i) > 0 ==> self.no(
                        with_prob(cur, i, 0),
                    ),
                only_counters(first, stats@),
                one == (Effort { removals: 1, ..no_effort() }),
                self.decided() ==> (best, done) == self.removed_upto(cur, axis as nat) && counts(
                    first,
                    done,
                    stats@,
                ),
                stats@.trace == traced_steps(
                    first.trace,
                    self.traced,
                    removal_steps_upto(cur, best, axis as nat),
                ),
            decreases 4 - axis,
        {
            let ghost b0 = best;
            assert(prob_at(b0, axis as int) == prob_at(cur, axis as int));
            let prob = get_prob(current, axis);
            proof {
                lemma_with_prob(b0, axis as int, 0);
                lemma_lowered_step(cur, b0, axis as int, 0);
                lemma_lowered_step(cur, b0, axis as int, prob);
            }
            if prob > 0 {
                let ghost s0 = stats@;
                stats.fault_type_removals = bump(stats.fault_type_removals);
                let ghost s1 = stats@;
                let candidate = set_prob(&best, axis, 0);
                let hit = self.reproduces_failure(stats, &candidate);
                proof {
                    if self.decided() {
                        assert(counts(s0, one, s1));
                        lemma_counts_both(first, done, s0, one, s1);
                        lemma_counts(first, both(done, one), s1, hit);
                    }
                    done = both(both(done, one), one_replay(hit));
                }
                if hit {
                    let mut name = text_of(axis_text(axis));
                    name.push_str("_removal");
                    self.note(stats, name.as_str(), "enabled", "disabled");
                    best = candidate;
                    made_progress = true;
                    assert(traced_steps(
                        first.trace,
                        self.traced,
                        removal_steps_upto(cur, best, (axis + 1) as nat),
                    ) =~= stats@.trace);
                } else {
                    assert(removal_steps_upto(cur, best, (axis + 1) as nat)
                        =~= removal_steps_upto(cur, best, axis as nat));
                }
            } else {
                assert(removal_steps_upto(cur, best, (axis + 1) as nat) =~= removal_steps_upto(
                    cur,
                    best,
                    axis as nat,
                ));
            }
            axis += 1;
        }
        let ghost b1 = best;
        if current.disk_full_threshold > 0 {
            let ghost s0 = stats@;
            stats.fault_type_removals = bump(stats.fault_type_removals);
            let ghost s1 = stats@;
            let candidate = best.with_disk_full(0);
            let hit = self.reproduces_failure(stats, &candidate);
            proof {
                if self.decided() {
                    assert(counts(s0, one, s1));
                    lemma_counts_both(first, done, s0, one, s1);
                    lemma_counts(first, both(done, one), s1, hit);
                }
                done = both(both(done, one), one_replay(hit));
            }
            if hit {
                self.note(stats, "disk_full_removal", "enabled", "disabled");
                best = candidate;
                made_progress = true;
            }
        }
        proof {
            lemma_steps_same(cur, best, b1, 4);
            assert(traced_steps(first.trace, self.traced, removing_steps(cur, best))
                =~= stats@.trace);
        }
        if made_progress {
            Some(best)
        } else {
            proof {
                assert(best == cur);
                reveal_with_fuel(removal_steps_upto, 5);
                assert(removing_steps(cur, best) =~= Seq::<StepView>::empty());
                assert(traced_steps(first.trace, self.traced, removing_steps(cur, best))
                    =~= first.trace);
            }
            None
        }
    }

    /// Shortens the workload by halving; `None` where it is needed.
    #[verifier::rlimit(40)]
    pub fn shrink_workload(&self, stats: &mut DeltaDebugStats, current: &ShrunkFaultConfig) -> (r:
        Option<ShrunkFaultConfig>)
        requires
            self.yes(*current),
        ensures
            only_counters(old(stats)@, final(stats)@),
            match r {
                Some(b) => {
                    &&& self.yes(b)
                    &&& b == with_len(*current, b.workload_len)
                    &&& self.config.min_workload_size <= b.workload_len < current.workload_len
                    &&& self.workload_needed(b)
                    &&& final(stats)@.trace == traced_steps(
                        old(stats)@.trace,
                        self.traced,
                        workload_steps(*current, b),
                    )
                },
                None => {
                    &&& self.workload_needed(*current)
                    &&& final(stats)@.trace == old(stats)@.trace
                },
            },
            self.decided() ==> r == changed(*current, self.shortened(*current).0) && final(stats)@
                == spent(old(stats)@, self.shortened(*current).1, self.traced),
    {
        if current.workload_len <= self.config.min_workload_size {
            assert(traced_steps(stats@.trace, self.traced, Seq::empty()) =~= stats@.trace);
            return None;
        }
        let ghost cur = *current;
        let ghost first = stats@;
        let ghost one = Effort { truncations: 1, ..no_effort() };
        let ghost mut done = one;
        stats.workload_truncations = bump(stats.workload_truncations);
        assert(counts(first, one, stats@));
        let orig_len = current.workload_len;
        let mut lo: usize = self.config.min_workload_size;
        let mut hi: usize = orig_len;
        assert(with_len(cur, hi) == cur);
        while hi > lo
            invariant
                cur == *current,
                orig_len == cur.workload_len,
                self.config.min_workload_size <= lo <= hi <= orig_len,
                self.yes(with_len(cur, hi)),
                lo == self.config.min_workload_size || self.no(
                    with_len(cur, (lo - 1) as usize),
                ),
                only_counters(first, stats@),
                stats@.trace == first.trace,
                one == (Effort { truncations: 1, ..no_effort() }),
                self.decided() ==> {
                    let all = self.len_search(cur, self.config.min_workload_size, orig_len);
                    let next = self.len_search(cur, lo, hi);
                    &&& counts(first, done, stats@)
                    &&& all.0 == next.0
                    &&& both(one, all.1) == both(done, next.1)
                },
            decreases hi - lo,
        {
            let mid: usize = lo + (hi - lo) / 2;
            let candidate = current.with_workload_len(mid);
            let ghost before = stats@;
            let ghost next = self.len_search(cur, lo, hi).1;
            let hit = self.reproduces_failure(stats, &candidate);
            proof {
                let rest = if hit {
                    self.len_search(cur, lo, mid).1
                } else {
                    self.len_search(cur, (mid + 1) as usize, hi).1
                };
                if self.decided() {
                    lemma_counts(first, done, before, hit);
                    assert(next == both(one_replay(hit), rest));
                    lemma_both(done, one_replay(hit), rest);
                }
                done = both(done, one_replay(hit));
            }
            if hit {
                hi = mid;
            } else {
                lo = mid + 1;
            }
        }
        assert(with_len(with_len(cur, hi), (hi - 1) as usize) == with_len(
            cur,
            (hi - 1) as usize,
        ));
        proof {
            lemma_both(done, no_effort(), no_effort());
        }
        if hi < orig_len {
            let mut before = String::new();
            push_count(&mut before, orig_len);
            let mut after = String::new();
            push_count(&mut after, hi);
            assert(before@ =~= decimal(orig_len as nat));
            assert(after@ =~= decimal(hi as nat));
            self.note(stats, "workload_len", before.as_str(), after.as_str());
            Some(current.with_workload_len(hi))
        } else {
            assert(with_len(cur, hi) == cur);
            assert(traced_steps(stats@.trace, self.traced, Seq::empty()) =~= stats@.trace);
            None
        }
    }

    /// Shrinks on all axes, round by round, until a round makes no progress or the rounds are
    /// used up; the second part of the result tells whether it was the former.
    #[verifier::rlimit(40)]
    pub fn reduce(&self, stats: &mut DeltaDebugStats, start: &ShrunkFaultConfig) -> (r: (
        ShrunkFaultConfig,
        bool,
    ))
        requires
            workable(self.config),
            self.yes(*start),
        ensures
            only_counters(old(stats)@, final(stats)@),
            self.yes(r.0),
            no_more(r.0, *start),
            r.1 ==> self.settled(r.0),
            self.config.max_iterations_per_axis > 0 ==> self.workload_needed(r.0),
            r.0.workload_len >= self.config.min_workload_size || r.0.workload_len
                == start.workload_len,
            self.decided() ==> {
                let all = self.after_rounds(
                    *start,
                    (self.config.max_iterations_per_axis * 3) as nat,
                );
                &&& r == (all.0, all.1)
                &&& final(stats)@ == spent(old(stats)@, all.2, self.traced)
            },
    {
        let ghost first = stats@;
        let mut current = *start;
        let mut made_progress = true;
        let mut iterations: usize = 0;
        let max_total_iterations = self.config.max_iterations_per_axis * 3;
        let ghost mut done = no_effort();
        proof {
            lemma_both(self.after_rounds(*start, max_total_iterations as nat).2, done, done);
            lemma_spent_both(first, done, done, self.traced);
        }
        while made_progress && iterations < max_total_iterations
            invariant
                workable(self.config),
                max_total_iterations == self.config.max_iterations_per_axis * 3,
                iterations <= max_total_iterations,
                self.yes(current),
                no_more(current, *start),
                only_counters(first, stats@),
                !made_progress ==> self.settled(current),
                iterations > 0 ==> self.workload_needed(current),
                iterations == 0 ==> made_progress,
                current.workload_len >= self.config.min_workload_size || current.workload_len
                    == start.workload_len,
                self.decided() ==> {
                    let all = self.after_rounds(*start, max_total_iterations as nat);
                    let next = self.after_rounds(
                        current,
                        (max_total_iterations - iterations) as nat,
                    );
                    &&& stats@ == spent(first, done, self.traced)
                    &&& made_progress ==> all == (next.0, next.1, both(done, next.2))
                    &&& !made_progress ==> all == (current, true, done)
                },
            decreases max_total_iterations - iterations,
        {
            let ghost before = current;
            let ghost left = (max_total_iterations - iterations) as nat;
            let ghost next = self.after_rounds(current, left);
            let ghost effort = self.after_round(current).1;
            made_progress = false;
            iterations += 1;
            let ghost s0 = stats@;
            if let Some(shrunk) = self.shrink_probabilities(stats, &current) {
                current = shrunk;
                made_progress = true;
            }
            let ghost a = current;
            let ghost s1 = stats@;
            assert(self.decided() ==> a == self.lowered(before).0);
            if self.config.try_fault_type_removal {
                if let Some(shrunk) = self.remove_fault_types(stats, &current) {
                    current = shrunk;
                    made_progress = true;
                }
            }
            let ghost b = current;
            let ghost s2 = stats@;
            assert(self.decided() && self.config.try_fault_type_removal ==> b == self.removed(
                a,
            ).0);
            if let Some(shrunk) = self.shrink_workload(stats, &current) {
                current = shrunk;
                made_progress = true;
            }
            assert(made_progress == (current != before));
            proof {
                let e = self.lowered(before).1;
                let f = if self.config.try_fault_type_removal {
                    self.removed(a).1
                } else {
                    no_effort()
                };
                let g = self.shortened(b).1;
                if self.decided() {
                    assert((current, effort) == self.after_round(before));
                    assert(effort == both(both(e, f), g));
                    lemma_spent_both(s0, e, f, self.traced);
                    lemma_spent_both(s1, f, f, self.traced);
                    lemma_spent_both(s0, both(e, f), g, self.traced);
                    lemma_spent_both(first, done, effort, self.traced);
                    let rest = self.after_rounds(current, (left - 1) as nat);
                    lemma_both(done, effort, rest.2);
                }
                done = both(done, effort);
            }
        }
        proof {
            lemma_both(done, no_effort(), no_effort());
        }
        (current, !made_progress)
    }
}

/// A testable shrinker with a replay of its own.
pub struct TestableShrinker<R: ReplayFn> {
    config: DeltaDebugConfig,
    stats: DeltaDebugStats,
    replay_fn: R,
}

/// Tells what a search may come to: a configuration that keeps the failure and asks for no
/// more than at the start, from which no operation can be taken.
pub open spec fn shrunk_from<'a, R: ReplayFn>(
    s: Reducer<'a, R>,
    start: ShrunkFaultConfig,
    c: ShrunkFaultConfig,
) -> bool {
    &&& s.yes(c)
    &&& no_more(c, start)
    &&& s.config.max_iterations_per_axis > 0 ==> s.workload_needed(c)
    &&& c.workload_len >= s.config.min_workload_size || c.workload_len == start.workload_len
}

/// Tells why a search may come to nothing: the start does not keep the failure, or what the
/// search came to does not keep it when it is replayed once more.
pub open spec fn search_lost<'a, R: ReplayFn>(s: Reducer<'a, R>, start: ShrunkFaultConfig) -> bool {
    s.no(start) || exists|c: ShrunkFaultConfig| #[trigger] shrunk_from(s, start, c) && s.no(c)
}

/// Tells whether the sizes in statistics are those of two configurations.
pub open spec fn sizes_noted(
    v: DeltaStatsView,
    start: ShrunkFaultConfig,
    end: ShrunkFaultConfig,
) -> bool {
    &&& v.original_workload_size == start.workload_len
    &&& v.original_fault_types == enabled_count(start)
    &&& v.final_workload_size == end.workload_len
    &&& v.final_fault_types == enabled_count(end)
}

/// The configuration of a result.
pub open spec fn config_of(r: Option<DeltaDebugResult>) -> Option<ShrunkFaultConfig> {
    match r {
        Some(d) => Some(d.fault_config),
        None => None,
    }
}

/// Statistics after a search, but for the sizes.
pub open spec fn searched<'a, R: ReplayFn>(
    s: Reducer<'a, R>,
    start: ShrunkFaultConfig,
    a: DeltaStatsView,
    b: DeltaStatsView,
) -> bool {
    b == (DeltaStatsView {
        original_workload_size: b.original_workload_size,
        original_fault_types: b.original_fault_types,
        final_workload_size: b.final_workload_size,
        final_fault_types: b.final_fault_types,
        ..spent(a, s.shrunk(start).1, s.traced)
    })
}

impl TestableShrinker<SyntheticReplay> {
    /// Creates a shrinker for a bug that shows from a workload length on.
    pub fn for_workload_bug(
        config: DeltaDebugConfig,
        fail_at_op: usize,
        failure_kind: FailureKind,
    ) -> (r: Self)
        ensures
            r.spec_config() == config,
            r.spec_stats() == no_replays(),
            r.spec_replay() == (SyntheticReplay::Workload { fail_at_op, kind: failure_kind }),
    {
        TestableShrinker::new(
            config,
            SyntheticReplay::Workload { fail_at_op, kind: failure_kind },
        )
    }

    /// Creates a shrinker for a bug that shows from a probability of partial writes and a
    /// workload length on.
    pub fn for_fault_dependent_bug(
        config: DeltaDebugConfig,
        min_prob: u32,
        min_workload: usize,
        failure_kind: FailureKind,
    ) -> (r: Self)
        ensures
            r.spec_config() == config,
            r.spec_stats() == no_replays(),
            r.spec_replay() == (SyntheticReplay::PartialWrites {
                min_prob,
                min_workload,
                kind: failure_kind,
            }),
    {
        TestableShrinker::new(
            config,
            SyntheticReplay::PartialWrites { min_prob, min_workload, kind: failure_kind },
        )
    }
}

impl<R: ReplayFn> TestableShrinker<R> {
    /// The configuration of the shrinker.
    pub closed spec fn spec_config(&self) -> DeltaDebugConfig {
        self.config
    }

    /// The statistics of the shrinker.
    pub closed spec fn spec_stats(&self) -> DeltaStatsView {
        self.stats@
    }

    /// What the shrinker replays.
    pub closed spec fn spec_replay(&self) -> R {
        self.replay_fn
    }

    /// The search of the shrinker for a failure.
    pub open spec fn search<'a>(&'a self, target: &'a FailureKind) -> Reducer<'a, R> {
        Reducer {
            replay: &self.spec_replay(),
            seed: 0,
            target,
            config: self.spec_config(),
            traced: true,
        }
    }

    /// Creates a new testable shrinker with a replay of its own.
    pub fn new(config: DeltaDebugConfig, replay_fn: R) -> (r: Self)
        ensures
            r.spec_config() == config,
            r.spec_stats() == no_replays(),
            r.spec_replay() == replay_fn,
    {
        TestableShrinker { config, stats: DeltaDebugStats::default(), replay_fn }
    }

    /// Returns the statistics.
    pub fn stats(&self) -> (r: &DeltaDebugStats)
        ensures
            r@ == self.spec_stats(),
    {
        &self.stats
    }

    /// Shrinks a failing scenario.
    pub fn shrink(&mut self, report: &FailureReport) -> (r: Option<DeltaDebugResult>)
        requires
            workable(old(self).spec_config()),
        ensures
            final(self).spec_config() == old(self).spec_config(),
            final(self).spec_replay() == old(self).spec_replay(),
            ({
                let s = old(self).search(&report.failure_kind);
                let start = of_scenario(report.scenario, report.workload_len);
                match r {
                    None => search_lost(s, start),
                    Some(d) => {
                        &&& shrunk_from(s, start, d.fault_config)
                        &&& d.report@ == report_of(
                            report.seed,
                            report.scenario,
                            d.fault_config.workload_len,
                            report.failure_kind@,
                        )
                        &&& d.stats@ == final(self).spec_stats()
                        &&& sizes_noted(d.stats@, start, d.fault_config)
                    },
                }
            }),
            ({
                let s = old(self).search(&report.failure_kind);
                let start = of_scenario(report.scenario, report.workload_len);
                s.decided() ==> config_of(r) == s.shrunk(start).0 && searched(
                    s,
                    start,
                    old(self).spec_stats(),
                    final(self).spec_stats(),
                )
            }),
    {
        let ghost s0 = self.search(&report.failure_kind);
        let ghost first = self.stats@;
        let start = ShrunkFaultConfig::from_scenario(report.scenario, report.workload_len);
        let s = Reducer {
            replay: &self.replay_fn,
            seed: 0,
            target: &report.failure_kind,
            config: self.config,
            traced: true,
        };
        assert(s == s0);
        self.stats.original_workload_size = start.workload_len;
        self.stats.original_fault_types = start.enabled_fault_count();
        proof {
            lemma_searched(s, start, first);
        }
        if !s.reproduces_failure(&mut self.stats, &start) {
            return None;
        }
        let (current, _) = s.reduce(&mut self.stats, &start);
        assert(shrunk_from(s, start, current));
        self.stats.final_workload_size = current.workload_len;
        self.stats.final_fault_types = current.enabled_fault_count();
        if s.reproduces_failure(&mut self.stats, &current) {
            let final_report = FailureReport::new(
                report.seed,
                report.scenario,
                current.workload_len,
                report.failure_kind.copy(),
            );
            Some(
                DeltaDebugResult {
                    report: final_report,
                    fault_config: current,
                    stats: self.stats.copy(),
                },
            )
        } else {
            None
        }
    }

    /// Lowers fault probabilities and the threshold.
    pub fn shrink_probabilities(
        &mut self,
        current: &ShrunkFaultConfig,
        target_kind: &FailureKind,
    ) -> (r: Option<ShrunkFaultConfig>)
        requires
            workable(old(self).spec_config()),
            old(self).search(target_kind).yes(*current),
        ensures
            final(self).spec_config() == old(self).spec_config(),
            final(self).spec_replay() == old(self).spec_replay(),
            ({
                let s = old(self).search(target_kind);
                match r {
                    Some(b) => {
                        &&& s.yes(b)
                        &&& no_more(b, *current)
                        &&& b != *current
                        &&& b.workload_len == current.workload_len
                        &&& final(self).spec_stats().trace == old(self).spec_stats().trace
                            + lowering_steps(*current, b)
                    },
                    None => {
                        &&& forall|i: int| 0 <= i < 4 ==> #[trigger] s.prob_is_low(*current, i)
                        &&& s.threshold_is_low(*current)
                        &&& final(self).spec_stats().trace == old(self).spec_stats().trace
                    },
                }
            }),
            ({
                let s = old(self).search(target_kind);
                s.decided() ==> r == changed(*current, s.lowered(*current).0)
                    && final(self).spec_stats() == spent(
                    old(self).spec_stats(),
                    s.lowered(*current).1,
                    true,
                )
            }),
    {
        let ghost s0 = self.search(target_kind);
        let s = Reducer {
            replay: &self.replay_fn,
            seed: 0,
            target: target_kind,
            config: self.config,
            traced: true,
        };
        assert(s == s0);
        s.shrink_probabilities(&mut self.stats, current)
    }
}

proof fn lemma_searches_keep<'a, R: ReplayFn>(
    s: Reducer<'a, R>,
    c: ShrunkFaultConfig,
    axis: int,
    lo: u32,
    hi: u32,
)
    requires
        0 <= axis < 4,
        lo <= hi,
        s.yes(with_prob(c, axis, hi)),
    ensures
        s.yes(with_prob(c, axis, s.prob_search(c, axis, lo, hi).0)),
    decreases hi - lo,
{
    if !(hi - lo <= s.config.min_probability || hi - lo <= 1) {
        let mid = (lo + (hi - lo) / 2) as u32;
        if s.yes(with_prob(c, axis, mid)) {
            lemma_searches_keep(s, c, axis, lo, mid);
        } else {
            lemma_searches_keep(s, c, axis, mid, hi);
        }
    }
}

proof fn lemma_threshold_kept<'a, R: ReplayFn>(
    s: Reducer<'a, R>,
    c: ShrunkFaultConfig,
    lo: u64,
    hi: u64,
)
    requires
        lo <= hi,
        s.yes(with_threshold(c, hi)),
    ensures
        s.yes(with_threshold(c, s.threshold_search(c, lo, hi).0)),
    decreases hi - lo,
{
    if hi - lo > 1024 {
        let mid = (lo + (hi - lo) / 2) as u64;
        if s.yes(with_threshold(c, mid)) {
            lemma_threshold_kept(s, c, lo, mid);
        } else {
            lemma_threshold_kept(s, c, mid, hi);
        }
    }
}

proof fn lemma_len_kept<'a, R: ReplayFn>(
    s: Reducer<'a, R>,
    c: ShrunkFaultConfig,
    lo: usize,
    hi: usize,
)
    requires
        s.yes(with_len(c, hi)),
    ensures
        s.yes(with_len(c, s.len_search(c, lo, hi).0)),
    decreases hi - lo,
{
    if lo < hi {
        let mid = (lo + (hi - lo) / 2) as usize;
        if s.yes(with_len(c, mid)) {
            lemma_len_kept(s, c, lo, mid);
        } else {
            lemma_len_kept(s, c, (mid + 1) as usize, hi);
        }
    }
}

proof fn lemma_upto_kept<'a, R: ReplayFn>(s: Reducer<'a, R>, c: ShrunkFaultConfig, n: nat)
    requires
        n <= 4,
        s.yes(c),
    ensures
        s.yes(s.lowered_upto(c, n).0),
        s.yes(s.removed_upto(c, n).0),
        s.lowered_upto(c, n).0.disk_full_threshold == c.disk_full_threshold,
        s.removed_upto(c, n).0.disk_full_threshold == c.disk_full_threshold,
    decreases n,
{
    if n > 0 {
        lemma_upto_kept(s, c, (n - 1) as nat);
        let b = s.lowered_upto(c, (n - 1) as nat).0;
        lemma_with_prob(b, n - 1, 0);
        assert(with_prob(b, n - 1, prob_at(b, n - 1)) == b);
        lemma_searches_keep(s, b, n - 1, 0, prob_at(b, n - 1));
    }
}

proof fn lemma_rounds_keep<'a, R: ReplayFn>(s: Reducer<'a, R>, c: ShrunkFaultConfig, n: nat)
    requires
        s.yes(c),
    ensures
        s.yes(s.after_rounds(c, n).0),
    decreases n,
{
    if n > 0 {
        lemma_upto_kept(s, c, 4);
        let x = s.lowered_upto(c, 4).0;
        assert(with_threshold(x, x.disk_full_threshold) == x);
        lemma_threshold_kept(s, x, 0, x.disk_full_threshold);
        let a = s.lowered(c).0;
        assert(s.yes(a));
        lemma_upto_kept(s, a, 4);
        let b = if s.config.try_fault_type_removal {
            s.removed(a).0
        } else {
            a
        };
        assert(s.yes(b));
        assert(with_len(b, b.workload_len) == b);
        lemma_len_kept(s, b, s.config.min_workload_size, b.workload_len);
        let d = s.after_round(c).0;
        assert(s.yes(d));
        if d != c {
            lemma_rounds_keep(s, d, (n - 1) as nat);
        }
    }
}

/// A search from a configuration that keeps the failure comes to one that keeps it.
pub proof fn law_search_keeps_failure<'a, R: ReplayFn>(s: Reducer<'a, R>, start: ShrunkFaultConfig)
    requires
        s.yes(start),
    ensures
        s.shrunk(start).0 is Some,
        s.yes(s.shrunk(start).0->0),
{
    lemma_rounds_keep(s, start, (s.config.max_iterations_per_axis * 3) as nat);
}

/// Statistics after a search, step by step.
proof fn lemma_searched<'a, R: ReplayFn>(
    s: Reducer<'a, R>,
    start: ShrunkFaultConfig,
    first: DeltaStatsView,
)
    ensures
        ({
            let (c, _, e) = s.after_rounds(start, (s.config.max_iterations_per_axis * 3) as nat);
            let n = s.shrunk(start).1;
            let all = spent(first, n, s.traced);
            if !s.yes(start) {
                all == replay_counted(first, false)
            } else {
                all == replay_counted(
                    spent(replay_counted(first, true), e, s.traced),
                    s.yes(c),
                )
            }
        }),
{
    let (c, _, e) = s.after_rounds(start, (s.config.max_iterations_per_axis * 3) as nat);
    let a = one_replay(true);
    let b = one_replay(s.yes(c));
    let v = replay_counted(first, true);
    lemma_one_spent(first, true, s.traced);
    lemma_one_spent(first, false, s.traced);
    lemma_one_spent(spent(v, e, s.traced), s.yes(c), s.traced);
    lemma_spent_both(first, a, e, s.traced);
    lemma_spent_both(first, both(a, e), b, s.traced);
}

proof fn lemma_one_spent(v: DeltaStatsView, hit: bool, traced: bool)
    ensures
        spent(v, one_replay(hit), traced) == replay_counted(v, hit),
{
    assert(traced_steps(v.trace, traced, Seq::empty()) =~= v.trace);
}

/// A bug of the workload shows itself to every replay or to none.
proof fn lemma_bug_is_certain<'a>(s: Reducer<'a, SyntheticReplay>, c: ShrunkFaultConfig)
    requires
        bug_kind(*s.replay) == s.target@,
    ensures
        s.yes(c) == shows(*s.replay, c),
        s.no(c) == !shows(*s.replay, c),
{
    let k = bug_kind(*s.replay);
    assert(same_kind(k, k));
    if shows(*s.replay, c) {
        assert(s.replay.may_give(s.seed, c, Some(k)));
    } else {
        assert(s.replay.may_give(s.seed, c, None));
    }
}

/// A synthetic bug shows itself to every replay of a configuration or to none.
pub proof fn law_bug_is_decided<'a>(s: Reducer<'a, SyntheticReplay>)
    ensures
        s.decided(),
{
}

/// The length to which a workload is shrunk for a bug that shows from a length on.
pub open spec fn shrunk_len(initial: usize, fail_at_op: usize, min: usize) -> usize {
    if initial <= min {
        initial
    } else if fail_at_op > min {
        fail_at_op
    } else {
        min
    }
}

/// A search for a bug that shows from a workload length on comes to exactly that length, or
/// to the shortest one that is tried.
pub proof fn law_workload_bug_found<'a>(
    s: Reducer<'a, SyntheticReplay>,
    start: ShrunkFaultConfig,
    c: ShrunkFaultConfig,
    fail_at_op: usize,
    kind: FailureKind,
)
    requires
        *s.replay == (SyntheticReplay::Workload { fail_at_op, kind }),
        kind@ == s.target@,
        s.config.max_iterations_per_axis > 0,
        shrunk_from(s, start, c),
        start.workload_len >= fail_at_op,
    ensures
        c.workload_len == shrunk_len(
            start.workload_len,
            fail_at_op,
            s.config.min_workload_size,
        ),
{
    lemma_bug_is_certain(s, c);
    if c.workload_len > 0 {
        lemma_bug_is_certain(s, with_len(c, (c.workload_len - 1) as usize));
    }
}

/// A search for a bug that shows itself at the start never comes to nothing.
pub proof fn law_search_succeeds<'a>(s: Reducer<'a, SyntheticReplay>, start: ShrunkFaultConfig)
    requires
        bug_kind(*s.replay) == s.target@,
        shows(*s.replay, start),
    ensures
        !search_lost(s, start),
{
    lemma_bug_is_certain(s, start);
    if search_lost(s, start) {
        let c = choose|c: ShrunkFaultConfig| #[trigger] shrunk_from(s, start, c) && s.no(c);
        lemma_bug_is_certain(s, c);
    }
}

/// Halving comes to a length that is not below one from which on the bug shows.
proof fn lemma_len_found<'a>(
    s: Reducer<'a, SyntheticReplay>,
    c: ShrunkFaultConfig,
    lo: usize,
    hi: usize,
    fail_at_op: usize,
    kind: FailureKind,
)
    requires
        *s.replay == (SyntheticReplay::Workload { fail_at_op, kind }),
        kind@ == s.target@,
        hi >= fail_at_op,
    ensures
        s.len_search(c, lo, hi).0 >= fail_at_op,
    decreases hi - lo,
{
    if hi > lo {
        let mid = (lo + (hi - lo) / 2) as usize;
        lemma_bug_is_certain(s, with_len(c, mid));
        if s.yes(with_len(c, mid)) {
            lemma_len_found(s, c, lo, mid, fail_at_op, kind);
        } else {
            lemma_len_found(s, c, (mid + 1) as usize, hi, fail_at_op, kind);
        }
    }
}

proof fn lemma_lowered_len<'a>(s: Reducer<'a, SyntheticReplay>, c: ShrunkFaultConfig, n: nat)
    requires
        n <= 4,
    ensures
        s.lowered_upto(c, n).0.workload_len == c.workload_len,
    decreases n,
{
    if n > 0 {
        lemma_lowered_len(s, c, (n - 1) as nat);
    }
}

proof fn lemma_removed_upto<'a>(
    s: Reducer<'a, SyntheticReplay>,
    c: ShrunkFaultConfig,
    n: nat,
    fail_at_op: usize,
    kind: FailureKind,
)
    requires
        *s.replay == (SyntheticReplay::Workload { fail_at_op, kind }),
        kind@ == s.target@,
        c.workload_len >= fail_at_op,
        n <= 4,
    ensures
        s.removed_upto(c, n).0.workload_len == c.workload_len,
        s.removed_upto(c, n).0.disk_full_threshold == c.disk_full_threshold,
        forall|i: int| 0 <= i < n ==> #[trigger] prob_at(s.removed_upto(c, n).0, i) == 0,
        forall|i: int|
            n <= i < 4 ==> #[trigger] prob_at(s.removed_upto(c, n).0, i) == prob_at(c, i),
    decreases n,
{
    if n > 0 {
        lemma_removed_upto(s, c, (n - 1) as nat, fail_at_op, kind);
        let b = s.removed_upto(c, (n - 1) as nat).0;
        assert(prob_at(b, n - 1) == prob_at(c, n - 1));
        lemma_bug_is_certain(s, with_prob(b, n - 1, 0));
        let r = s.removed_upto(c, n).0;
        assert forall|i: int| 0 <= i < 4 && i != n - 1 implies #[trigger] prob_at(r, i) == prob_at(
            b,
            i,
        ) by {}
    }
}

/// A round of the search removes every fault on which a bug of the workload does not depend.
proof fn lemma_round_removes<'a>(
    s: Reducer<'a, SyntheticReplay>,
    c: ShrunkFaultConfig,
    fail_at_op: usize,
    kind: FailureKind,
)
    requires
        *s.replay == (SyntheticReplay::Workload { fail_at_op, kind }),
        kind@ == s.target@,
        s.config.try_fault_type_removal,
        c.workload_len >= fail_at_op,
    ensures
        enabled_count(s.after_round(c).0) == 0,
        s.after_round(c).0.workload_len >= fail_at_op,
{
    lemma_lowered_len(s, c, 4);
    let a = s.lowered(c).0;
    lemma_removed_upto(s, a, 4, fail_at_op, kind);
    let m = s.removed_upto(a, 4).0;
    lemma_bug_is_certain(s, with_threshold(m, 0));
    assert(prob_at(m, 0) == 0 && prob_at(m, 1) == 0 && prob_at(m, 2) == 0 && prob_at(m, 3) == 0);
    let b = s.removed(a).0;
    lemma_len_found(s, b, s.config.min_workload_size, b.workload_len, fail_at_op, kind);
}

proof fn lemma_rounds_remove<'a>(
    s: Reducer<'a, SyntheticReplay>,
    c: ShrunkFaultConfig,
    n: nat,
    fail_at_op: usize,
    kind: FailureKind,
)
    requires
        *s.replay == (SyntheticReplay::Workload { fail_at_op, kind }),
        kind@ == s.target@,
        s.config.try_fault_type_removal,
        c.workload_len >= fail_at_op,
        n > 0 || enabled_count(c) == 0,
    ensures
        enabled_count(s.after_rounds(c, n).0) == 0,
        s.after_rounds(c, n).0.workload_len >= fail_at_op,
    decreases n,
{
    if n > 0 {
        lemma_round_removes(s, c, fail_at_op, kind);
        let b = s.after_round(c).0;
        if b != c {
            lemma_rounds_remove(s, b, (n - 1) as nat, fail_at_op, kind);
        }
    }
}

/// A search for a bug of the workload that shows itself at the start comes to a configuration
/// without faults: it does not depend on any.
pub proof fn law_needless_faults_removed<'a>(
    s: Reducer<'a, SyntheticReplay>,
    start: ShrunkFaultConfig,
    fail_at_op: usize,
    kind: FailureKind,
)
    requires
        *s.replay == (SyntheticReplay::Workload { fail_at_op, kind }),
        kind@ == s.target@,
        s.config.try_fault_type_removal,
        s.config.max_iterations_per_axis > 0,
        start.workload_len >= fail_at_op,
    ensures
        s.shrunk(start).0 matches Some(c) && enabled_count(c) == 0,
{
    let n = (s.config.max_iterations_per_axis * 3) as nat;
    lemma_bug_is_certain(s, start);
    lemma_rounds_remove(s, start, n, fail_at_op, kind);
    lemma_bug_is_certain(s, s.after_rounds(start, n).0);
}

/// Delta-debugging shrinker for fault scenario failures.
pub struct DeltaDebugShrinker {
    config: DeltaDebugConfig,
    stats: DeltaDebugStats,
}

/// The search through replays of the simulation.
pub open spec fn simulation_search<'a>(
    seed: u64,
    target: &'a FailureKind,
    config: DeltaDebugConfig,
) -> Reducer<'a, ScenarioReplay> {
    Reducer { replay: &ScenarioReplay, seed, target, config, traced: false }
}

/// Tells what shrinking a failure of the simulation gives: a failure of the same kind that the
/// simulation gives under the configuration that the search comes to.
pub open spec fn simulation_shrunk(
    c: DeltaDebugConfig,
    report: FailureReport,
    r: Option<DeltaDebugResult>,
) -> bool {
    let s = simulation_search(report.seed, &report.failure_kind, c);
    let start = of_scenario(report.scenario, report.workload_len);
    &&& s.decided() ==> config_of(r) == s.shrunk(start).0
    &&& match r {
        None => search_lost(s, start),
        Some(d) => {
            &&& shrunk_from(s, start, d.fault_config)
            &&& simulation_gives(report.seed, d.fault_config, Some(d.report@))
            &&& same_kind(d.report@.failure_kind, report.failure_kind@)
            &&& sizes_noted(d.stats@, start, d.fault_config)
        },
    }
}

impl DeltaDebugShrinker {
    /// The configuration of the shrinker.
    pub closed spec fn spec_config(&self) -> DeltaDebugConfig {
        self.config
    }

    /// The statistics of the shrinker.
    pub closed spec fn spec_stats(&self) -> DeltaStatsView {
        self.stats@
    }

    /// Creates a new delta-debug shrinker.
    pub fn new(config: DeltaDebugConfig) -> (r: Self)
        ensures
            r.spec_config() == config,
            r.spec_stats() == no_replays(),
    {
        DeltaDebugShrinker { config, stats: DeltaDebugStats::default() }
    }

    /// Returns the current statistics.
    pub fn stats(&self) -> (r: &DeltaDebugStats)
        ensures
            r@ == self.spec_stats(),
    {
        &self.stats
    }

    /// Resets the statistics.
    pub fn reset_stats(&mut self)
        ensures
            final(self).spec_config() == old(self).spec_config(),
            final(self).spec_stats() == no_replays(),
    {
        self.stats = DeltaDebugStats::default();
    }

    /// Tries to reproduce a failure, returning the report if it is of the same kind.
    fn try_reproduce(
        &mut self,
        seed: u64,
        config: &ShrunkFaultConfig,
        target_kind: &FailureKind,
    ) -> (r: Option<FailureReport>)
        ensures
            final(self).config == old(self).config,
            final(self).stats@ == replay_counted(old(self).stats@, r is Some),
            match r {
                Some(f) => simulation_gives(seed, *config, Some(f@)) && same_kind(
                    f@.failure_kind,
                    target_kind@,
                ) && simulation_search(seed, target_kind, old(self).config).yes(*config),
                None => simulation_search(seed, target_kind, old(self).config).no(*config),
            },
    {
        let ghost s = simulation_search(seed, target_kind, self.config);
        self.stats.total_replays = bump(self.stats.total_replays);
        let done = replay_simulation(seed, config);
        let ghost f = failure_of(done);
        assert(simulation_gives(seed, *config, f));
        let ghost o = match f {
            Some(v) => Some(v.failure_kind),
            None => None::<KindView>,
        };
        assert(s.replay.may_give(s.seed, *config, o));
        assert(!(o is Some && same_kind(o->0, s.target@)) ==> s.no(*config));
        match done {
            Ok(_) => {
                self.stats.failed_replays = bump(self.stats.failed_replays);
                None
            },
            Err(report) => {
                if report.failure_kind.matches(target_kind) {
                    self.stats.successful_replays = bump(self.stats.successful_replays);
                    Some(report)
                } else {
                    self.stats.failed_replays = bump(self.stats.failed_replays);
                    None
                }
            },
        }
    }

    /// Shrinks a failing scenario to find a minimal reproduction of the same kind.
    pub fn shrink(&mut self, report: &FailureReport) -> (r: Option<DeltaDebugResult>)
        requires
            workable(old(self).spec_config()),
        ensures
            final(self).spec_config() == old(self).spec_config(),
            simulation_shrunk(old(self).spec_config(), *report, r),
            r is Some ==> r->0.stats@ == final(self).spec_stats(),
            ({
                let s = simulation_search(
                    report.seed,
                    &report.failure_kind,
                    old(self).spec_config(),
                );
                let start = of_scenario(report.scenario, report.workload_len);
                s.decided() ==> searched(
                    s,
                    start,
                    old(self).spec_stats(),
                    final(self).spec_stats(),
                )
            }),
    {
        let ghost first = self.stats@;
        let start = ShrunkFaultConfig::from_scenario(report.scenario, report.workload_len);
        let replay = ScenarioReplay;
        let s = Reducer {
            replay: &replay,
            seed: report.seed,
            target: &report.failure_kind,
            config: self.config,
            traced: false,
        };
        assert(s == simulation_search(report.seed, &report.failure_kind, self.config));
        self.stats.original_workload_size = start.workload_len;
        self.stats.original_fault_types = start.enabled_fault_count();
        proof {
            lemma_searched(s, start, first);
        }
        if !s.reproduces_failure(&mut self.stats, &start) {
            return None;
        }
        let (current, _) = s.reduce(&mut self.stats, &start);
        assert(shrunk_from(s, start, current));
        self.stats.final_workload_size = current.workload_len;
        self.stats.final_fault_types = current.enabled_fault_count();
        match self.try_reproduce(report.seed, &current, &report.failure_kind) {
            Some(final_report) => Some(
                DeltaDebugResult {
                    report: final_report,
                    fault_config: current,
                    stats: self.stats.copy(),
                },
            ),
            None => None,
        }
    }
}

/// Shrinks a failure report.
pub fn shrink_failure(report: &FailureReport) -> (r: Option<DeltaDebugResult>)
    ensures
        simulation_shrunk(usual_delta(), *report, r),
{
    let mut shrinker = DeltaDebugShrinker::new(DeltaDebugConfig::default());
    shrinker.shrink(report)
}

/// The configuration for quick shrinking.
pub open spec fn quick_delta() -> DeltaDebugConfig {
    DeltaDebugConfig {
        max_iterations_per_axis: 20,
        probability_step: 200_000,
        workload_truncation_step: 500_000,
        min_workload_size: 5,
        ..usual_delta()
    }
}

/// The configuration for thorough shrinking.
pub open spec fn thorough_delta() -> DeltaDebugConfig {
    DeltaDebugConfig {
        max_iterations_per_axis: 200,
        probability_step: 50_000,
        workload_truncation_step: 250_000,
        min_workload_size: 1,
        ..usual_delta()
    }
}

/// Shrinks a failure report quickly.
pub fn quick_shrink(report: &FailureReport) -> (r: Option<DeltaDebugResult>)
    ensures
        simulation_shrunk(quick_delta(), *report, r),
{
    let mut shrinker = DeltaDebugShrinker::new(DeltaDebugConfig::quick());
    shrinker.shrink(report)
}

/// Shrinks a failure report thoroughly.
pub fn thorough_shrink(report: &FailureReport) -> (r: Option<DeltaDebugResult>)
    ensures
        simulation_shrunk(thorough_delta(), *report, r),
{
    let mut shrinker = DeltaDebugShrinker::new(DeltaDebugConfig::thorough());
    shrinker.shrink(report)
}

/// Setting a fault by name changes that fault alone; a name that there is not changes nothing.
pub proof fn law_named_fault_set(c: ShrunkFaultConfig, name: Seq<char>, p: u32, i: int)
    requires
        0 <= i < 4,
    ensures
        prob_at(with_named(c, name, p), i) == if name == axis_name(i) {
            p
        } else {
            prob_at(c, i)
        },
        with_named(c, name, p).disk_full_threshold == c.disk_full_threshold,
        with_named(c, name, p).workload_len == c.workload_len,
        with_named(c, name, p).scenario == c.scenario,
{
    reveal_strlit("partial_write");
    reveal_strlit("slow_write");
    reveal_strlit("clock_skew");
    reveal_strlit("process_pause");
    assert("partial_write"@.len() == 13 && "partial_write"@[1] == 'a');
    assert("process_pause"@.len() == 13 && "process_pause"@[1] == 'r');
    assert("slow_write"@.len() == 10 && "slow_write"@[0] == 's');
    assert("clock_skew"@.len() == 10 && "clock_skew"@[0] == 'c');
}

/// What a search comes to fails in the way that is kept, and is larger in nothing than what it
/// began with.
pub proof fn law_search_never_grows<'a, R: ReplayFn>(
    s: Reducer<'a, R>,
    start: ShrunkFaultConfig,
    c: ShrunkFaultConfig,
)
    requires
        shrunk_from(s, start, c),
    ensures
        c.scenario == start.scenario,
        c.workload_len <= start.workload_len,
        c.disk_full_threshold <= start.disk_full_threshold,
        forall|i: int| 0 <= i < 4 ==> #[trigger] prob_at(c, i) <= prob_at(start, i),
        enabled_count(c) <= enabled_count(start),
        exists|k: KindView| #[trigger]
            s.replay.may_give(s.seed, c, Some(k)) && kind_name(k) == kind_name(s.target@),
{
    let k = choose|k: KindView|
        #[trigger] s.replay.may_give(s.seed, c, Some(k)) && same_kind(k, s.target@);
    law_kinds_match_by_name(k, s.target@);
}

/// The steps that were accepted, all of them and no others.
pub proof fn law_accepted_listed(s: Seq<StepView>, x: StepView)
    ensures
        accepted_steps(s).contains(x) <==> s.contains(x) && x.accepted,
{
    crate::model::lemma_filter_has(s, |y: StepView| y.accepted, x);
}

/// Where a search has settled, each fault that is left is needed where faults may be removed, and so
/// is each operation down to the least that is asked for: without it the replay can pass or fail in
/// another way.
pub proof fn law_settled_is_needed<'a, R: ReplayFn>(
    s: Reducer<'a, R>,
    c: ShrunkFaultConfig,
    i: int,
)
    requires
        s.settled(c),
        0 <= i < 4,
    ensures
        s.config.try_fault_type_removal && prob_at(c, i) > 0 ==> loses(s, with_prob(c, i, 0)),
        s.config.try_fault_type_removal && c.disk_full_threshold > 0 ==> loses(
            s,
            with_threshold(c, 0),
        ),
        c.workload_len > s.config.min_workload_size ==> loses(
            s,
            with_len(c, (c.workload_len - 1) as usize),
        ),
{
    if s.config.try_fault_type_removal && prob_at(c, i) > 0 {
        assert(s.no(with_prob(c, i, 0)));
        lemma_loses(s, with_prob(c, i, 0));
    }
    if s.config.try_fault_type_removal && c.disk_full_threshold > 0 {
        lemma_loses(s, with_threshold(c, 0));
    }
    if c.workload_len > s.config.min_workload_size {
        lemma_loses(s, with_len(c, (c.workload_len - 1) as usize));
    }
}

/// Tells whether a replay can pass, or fail under another name than the failure that is kept.
pub open spec fn loses<'a, R: ReplayFn>(s: Reducer<'a, R>, c: ShrunkFaultConfig) -> bool {
    exists|o: Option<KindView>| #[trigger]
        s.replay.may_give(s.seed, c, o) && (o is None || kind_name(o->0) != kind_name(s.target@))
}

proof fn lemma_loses<'a, R: ReplayFn>(s: Reducer<'a, R>, c: ShrunkFaultConfig)
    requires
        s.no(c),
    ensures
        loses(s, c),
{
    let o = choose|o: Option<KindView>|
        #[trigger] s.replay.may_give(s.seed, c, o) && !(o is Some && same_kind(o->0, s.target@));
    if o is Some {
        law_kinds_match_by_name(o->0, s.target@);
    }
}

/// Every replay is counted once, as one that kept the failure or as one that did not.
pub proof fn law_replays_counted(v: DeltaStatsView, hit: bool)
    requires
        v.total_replays < u64::MAX,
        v.total_replays == v.successful_replays + v.failed_replays,
    ensures
        ({
            let w = replay_counted(v, hit);
            &&& w.total_replays == v.total_replays + 1
            &&& w.total_replays == w.successful_replays + w.failed_replays
            &&& hit <==> w.successful_replays > v.successful_replays
            &&& w.trace == v.trace
        }),
{
}

} // verus!
