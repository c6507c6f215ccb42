//! Failures of a simulation: their kinds, reports of them, and their replay.

use crate::codec::copy_bytes;
use crate::delta_debug::{
    law_search_succeeds, law_workload_bug_found, of_scenario, quick_delta, quick_shrink,
    shrink_failure, shrunk_len, simulation_shrunk, sizes_noted, thorough_delta, thorough_shrink,
    usual_delta, DeltaDebugConfig, DeltaDebugResult, TestableShrinker,
};
use crate::driver::{run_in, seed_gives, text_or, StressResultView, StressView};
use crate::fault_scenarios::{
    create_stress_config, machine_faults, scenario_name, scenario_stress, FaultScenario,
    ScenarioConfig,
};
use crate::pattern::{
    contains_chars, digits_end, digits_in_front, find_chars, find_from, find_last, has_text,
    last_place, lemma_find_first, lemma_find_from, lemma_find_nothing, split_text, stands_at,
};
use crate::serialization::{push_walk, violation_text, walk_text, SerializationViolation};
use crate::sim_env::{seeded_machine, RuntimeFaultConfig, SimEnv};
use crate::text::{
    all_digits, chars_of, decimal, hex, lemma_decimal_digits, lemma_padded_round_trip, lossy,
    lossy_text, padded_decimal, parse_u64, parse_u64_spec, push_count, push_decimal, push_hex16,
    quoted, quoted_text, text_of,
};
use std::ops::Range;
use vstd::prelude::*;

verus! {

/// The kind of failure detected during simulation.
#[derive(Clone, Debug, PartialEq, Eq)]
pub enum FailureKind {
    /// A cycle in the serialization graph.
    SerializabilityCycle {
        /// Transaction IDs involved in the cycle.
        txn_ids: Vec<u64>,
    },
    /// A committed write was lost.
    LostWrite {
        /// The key that was lost.
        key: Vec<u8>,
        /// The value that should have been present.
        expected: Vec<u8>,
    },
    /// A custom failure with a description.
    Custom(String),
    /// An unrecoverable error.
    Unrecoverable(String),
}

/// A kind of failure as a mathematical value.
pub enum KindView {
    SerializabilityCycle { txn_ids: Seq<u64> },
    LostWrite { key: Seq<u8>, expected: Seq<u8> },
    Custom(Seq<char>),
    Unrecoverable(Seq<char>),
}

impl View for FailureKind {
    type V = KindView;

    open spec fn view(&self) -> KindView {
        match self {
            FailureKind::SerializabilityCycle { txn_ids } => KindView::SerializabilityCycle {
                txn_ids: txn_ids@,
            },
            FailureKind::LostWrite { key, expected } => KindView::LostWrite {
                key: key@,
                expected: expected@,
            },
            FailureKind::Custom(s) => KindView::Custom(s@),
            FailureKind::Unrecoverable(s) => KindView::Unrecoverable(s@),
        }
    }
}

/// The name of a kind of failure.
pub open spec fn kind_name(k: KindView) -> Seq<char> {
    match k {
        KindView::SerializabilityCycle { .. } => "serializability_cycle"@,
        KindView::LostWrite { .. } => "lost_write"@,
        KindView::Custom(_) => "custom"@,
        KindView::Unrecoverable(_) => "unrecoverable"@,
    }
}

/// Tells whether two failures are of one kind.
pub open spec fn same_kind(a: KindView, b: KindView) -> bool {
    match a {
        KindView::SerializabilityCycle { .. } => b is SerializabilityCycle,
        KindView::LostWrite { .. } => b is LostWrite,
        KindView::Custom(_) => b is Custom,
        KindView::Unrecoverable(_) => b is Unrecoverable,
    }
}

/// The text of a failure.
pub open spec fn kind_text(k: KindView) -> Seq<char> {
    match k {
        KindView::SerializabilityCycle { txn_ids } => "Serializability cycle: "@ + walk_text(
            txn_ids,
        ),
        KindView::LostWrite { key, expected } => "Lost write: key="@ + quoted_text(
            lossy_text(key),
        ) + ", expected="@ + quoted_text(lossy_text(expected)),
        KindView::Custom(s) => "Custom: "@ + s,
        KindView::Unrecoverable(s) => "Unrecoverable: "@ + s,
    }
}

fn copy_ids(s: &Vec<u64>) -> (r: Vec<u64>)
    ensures
        r@ == s@,
{
    let mut r: Vec<u64> = Vec::new();
    let mut i: usize = 0;
    while i < s.len()
        invariant
            i <= s.len(),
            r@ == s@.take(i as int),
        decreases s.len() - i,
    {
        r.push(s[i]);
        i += 1;
        assert(r@ =~= s@.take(i as int));
    }
    assert(s@.take(i as int) =~= s@);
    r
}

impl FailureKind {
    /// Creates a cycle from a serialization violation.
    pub fn from_serialization_violation(violation: &SerializationViolation) -> (r: Self)
        ensures
            r@ == (KindView::SerializabilityCycle { txn_ids: violation.cycle@ }),
    {
        FailureKind::SerializabilityCycle { txn_ids: copy_ids(&violation.cycle) }
    }

    /// Returns the short name of this failure kind for display.
    pub fn name(&self) -> (r: &'static str)
        ensures
            r@ == kind_name(self@),
    {
        match self {
            FailureKind::SerializabilityCycle { .. } => "serializability_cycle",
            FailureKind::LostWrite { .. } => "lost_write",
            FailureKind::Custom(_) => "custom",
            FailureKind::Unrecoverable(_) => "unrecoverable",
        }
    }

    /// Returns true if this failure is of the same kind as another.
    pub fn matches(&self, other: &FailureKind) -> (r: bool)
        ensures
            r == same_kind(self@, other@),
    {
        match (self, other) {
            (
                FailureKind::SerializabilityCycle { .. },
                FailureKind::SerializabilityCycle { .. },
            ) => true,
            (FailureKind::LostWrite { .. }, FailureKind::LostWrite { .. }) => true,
            (FailureKind::Custom(_), FailureKind::Custom(_)) => true,
            (FailureKind::Unrecoverable(_), FailureKind::Unrecoverable(_)) => true,
            _ => false,
        }
    }

    /// Returns a description of the failure.
    pub fn describe(&self) -> (r: String)
        ensures
            r@ == kind_text(self@),
    {
        match self {
            FailureKind::SerializabilityCycle { txn_ids } => {
                let mut r = text_of("Serializability cycle: ");
                push_walk(&mut r, txn_ids);
                r
            },
            FailureKind::LostWrite { key, expected } => {
                let mut r = text_of("Lost write: key=");
                let key_text = lossy(key.as_slice());
                r.push_str(quoted(key_text.as_str()).as_str());
                r.push_str(", expected=");
                let value_text = lossy(expected.as_slice());
                r.push_str(quoted(value_text.as_str()).as_str());
                r
            },
            FailureKind::Custom(s) => {
                let mut r = text_of("Custom: ");
                r.push_str(s.as_str());
                r
            },
            FailureKind::Unrecoverable(s) => {
                let mut r = text_of("Unrecoverable: ");
                r.push_str(s.as_str());
                r
            },
        }
    }

    /// Copies the failure kind.
    pub fn copy(&self) -> (r: Self)
        ensures
            r@ == self@,
    {
        match self {
            FailureKind::SerializabilityCycle { txn_ids } => FailureKind::SerializabilityCycle {
                txn_ids: copy_ids(txn_ids),
            },
            FailureKind::LostWrite { key, expected } => FailureKind::LostWrite {
                key: copy_bytes(key.as_slice()),
                expected: copy_bytes(expected.as_slice()),
            },
            FailureKind::Custom(s) => FailureKind::Custom(text_of(s.as_str())),
            FailureKind::Unrecoverable(s) => FailureKind::Unrecoverable(text_of(s.as_str())),
        }
    }
}

/// A complete report of a simulation failure.
#[derive(Clone, Debug)]
pub struct FailureReport {
    /// The seed that produced this failure.
    pub seed: u64,
    /// The fault scenario under which the failure occurred.
    pub scenario: FaultScenario,
    /// The number of operations in the workload.
    pub workload_len: usize,
    /// The kind of failure that was detected.
    pub failure_kind: FailureKind,
    /// A command hint for replaying this failure.
    pub replay_cmd_hint: String,
}

/// A report as a mathematical value.
pub struct FailureView {
    pub seed: u64,
    pub scenario: FaultScenario,
    pub workload_len: usize,
    pub failure_kind: KindView,
    pub replay_cmd_hint: Seq<char>,
}

impl View for FailureReport {
    type V = FailureView;

    open spec fn view(&self) -> FailureView {
        FailureView {
            seed: self.seed,
            scenario: self.scenario,
            workload_len: self.workload_len,
            failure_kind: self.failure_kind@,
            replay_cmd_hint: self.replay_cmd_hint@,
        }
    }
}

/// The command that replays a failure.
pub open spec fn replay_command(seed: u64, scenario: FaultScenario, workload_len: usize) -> Seq<
    char,
> {
    "cracked-db sim replay --seed=0x"@ + hex(seed as nat, 16) + " --scenario="@ + scenario_name(
        scenario,
    ) + " --ops="@ + decimal(workload_len as nat)
}

/// The report of a failure.
pub open spec fn report_of(
    seed: u64,
    scenario: FaultScenario,
    workload_len: usize,
    kind: KindView,
) -> FailureView {
    FailureView {
        seed,
        scenario,
        workload_len,
        failure_kind: kind,
        replay_cmd_hint: replay_command(seed, scenario, workload_len),
    }
}

/// The text of a report.
pub open spec fn failure_report_text(v: FailureView) -> Seq<char> {
    "=== FAILURE REPORT ===\nSeed: 0x"@ + hex(v.seed as nat, 16) + "\nScenario: "@ + scenario_name(
        v.scenario,
    ) + "\nWorkload length: "@ + decimal(v.workload_len as nat) + "\nFailure: "@ + kind_text(
        v.failure_kind,
    ) + "\n\nReplay command:\n  "@ + v.replay_cmd_hint + "\n"@
}

impl FailureReport {
    /// Creates a new failure report.
    pub fn new(
        seed: u64,
        scenario: FaultScenario,
        workload_len: usize,
        failure_kind: FailureKind,
    ) -> (r: Self)
        ensures
            r@ == report_of(seed, scenario, workload_len, failure_kind@),
    {
        let mut hint = text_of("cracked-db sim replay --seed=0x");
        push_hex16(&mut hint, seed);
        hint.push_str(" --scenario=");
        hint.push_str(scenario.name());
        hint.push_str(" --ops=");
        push_count(&mut hint, workload_len);
        FailureReport { seed, scenario, workload_len, failure_kind, replay_cmd_hint: hint }
    }

    /// Creates a serializability cycle failure report.
    pub fn serializability_cycle(
        seed: u64,
        scenario: FaultScenario,
        workload_len: usize,
        violation: &SerializationViolation,
    ) -> (r: Self)
        ensures
            r@ == report_of(
                seed,
                scenario,
                workload_len,
                KindView::SerializabilityCycle { txn_ids: violation.cycle@ },
            ),
    {
        FailureReport::new(
            seed,
            scenario,
            workload_len,
            FailureKind::from_serialization_violation(violation),
        )
    }

    /// Creates a lost write failure report.
    pub fn lost_write(
        seed: u64,
        scenario: FaultScenario,
        workload_len: usize,
        key: Vec<u8>,
        expected: Vec<u8>,
    ) -> (r: Self)
        ensures
            r@ == report_of(
                seed,
                scenario,
                workload_len,
                KindView::LostWrite { key: key@, expected: expected@ },
            ),
    {
        FailureReport::new(
            seed,
            scenario,
            workload_len,
            FailureKind::LostWrite { key, expected },
        )
    }

    /// Creates a custom failure report.
    pub fn custom(seed: u64, scenario: FaultScenario, workload_len: usize, message: &str) -> (r:
        Self)
        ensures
            r@ == report_of(seed, scenario, workload_len, KindView::Custom(message@)),
    {
        FailureReport::new(seed, scenario, workload_len, FailureKind::Custom(text_of(message)))
    }

    /// Creates an unrecoverable failure report.
    pub fn unrecoverable(
        seed: u64,
        scenario: FaultScenario,
        workload_len: usize,
        message: &str,
    ) -> (r: Self)
        ensures
            r@ == report_of(seed, scenario, workload_len, KindView::Unrecoverable(message@)),
    {
        FailureReport::new(
            seed,
            scenario,
            workload_len,
            FailureKind::Unrecoverable(text_of(message)),
        )
    }

    /// Returns the transaction IDs if this is a serializability cycle.
    pub fn cycle_txns(&self) -> (r: Option<&[u64]>)
        ensures
            match r {
                Some(ids) => self@.failure_kind == (KindView::SerializabilityCycle {
                    txn_ids: ids@,
                }),
                None => self@.failure_kind !is SerializabilityCycle,
            },
    {
        match &self.failure_kind {
            FailureKind::SerializabilityCycle { txn_ids } => Some(txn_ids.as_slice()),
            _ => None,
        }
    }

    /// Returns the text of the report.
    pub fn describe(&self) -> (r: String)
        ensures
            r@ == failure_report_text(self@),
    {
        let mut r = text_of("=== FAILURE REPORT ===\nSeed: 0x");
        push_hex16(&mut r, self.seed);
        r.push_str("\nScenario: ");
        r.push_str(self.scenario.name());
        r.push_str("\nWorkload length: ");
        push_count(&mut r, self.workload_len);
        r.push_str("\nFailure: ");
        let text = self.failure_kind.describe();
        r.push_str(text.as_str());
        r.push_str("\n\nReplay command:\n  ");
        r.push_str(self.replay_cmd_hint.as_str());
        r.push_str("\n");
        r
    }

    /// Copies the report.
    pub fn copy(&self) -> (r: Self)
        ensures
            r@ == self@,
    {
        FailureReport {
            seed: self.seed,
            scenario: self.scenario,
            workload_len: self.workload_len,
            failure_kind: self.failure_kind.copy(),
            replay_cmd_hint: text_of(self.replay_cmd_hint.as_str()),
        }
    }
}

/// The transaction ID in a part of a text: the digits behind its last `T`.
pub open spec fn id_in(part: Seq<char>) -> Option<u64> {
    match last_place(part, 'T') {
        None => None,
        Some(i) => {
            let after = part.skip(i + 1);
            parse_u64_spec(after.take(digits_in_front(after) as int))
        },
    }
}

/// The transaction IDs in parts of a text; parts without one are passed over.
pub open spec fn ids_in(parts: Seq<Seq<char>>) -> Seq<u64>
    decreases parts.len(),
{
    if parts.len() == 0 {
        Seq::empty()
    } else {
        let rest = ids_in(parts.drop_first());
        match id_in(parts[0]) {
            Some(id) => seq![id] + rest,
            None => rest,
        }
    }
}

/// What follows the word that announces a cycle, or the whole text.
pub open spec fn cycle_part(msg: Seq<char>) -> Seq<char> {
    match find_from(msg, "Cycle:"@, 0) {
        Some(i) => msg.skip(i + "Cycle:"@.len()),
        None => msg,
    }
}

/// The transaction IDs that a message names.
pub open spec fn ids_of_message(msg: Seq<char>) -> Seq<u64> {
    ids_in(split_text(cycle_part(msg), " -> "@))
}

/// The kind of failure that a message describes.
pub open spec fn kind_of_message(failure: Option<Seq<char>>) -> KindView {
    let msg = text_or(failure, "unknown failure"@);
    if (has_text(msg, "Non-serializable schedule"@) || has_text(msg, "Cycle"@)) && ids_of_message(
        msg,
    ).len() > 0 {
        KindView::SerializabilityCycle { txn_ids: ids_of_message(msg) }
    } else if has_text(msg, "missing"@) || has_text(msg, "incorrect"@) || has_text(
        msg,
        "mismatch"@,
    ) {
        KindView::Custom(msg)
    } else if has_text(msg, "panic"@) || has_text(msg, "assertion"@) || has_text(
        msg,
        "internal error"@,
    ) {
        KindView::Unrecoverable(msg)
    } else {
        KindView::Custom(msg)
    }
}

proof fn lemma_find_shift(s: Seq<char>, p: Seq<char>, a: int, i: int)
    requires
        0 <= a <= s.len(),
        0 <= i,
    ensures
        find_from(s.skip(a), p, i) == match find_from(s, p, a + i) {
            Some(k) => Some(k - a),
            None => None,
        },
    decreases s.len() + 1 - a - i,
{
    let t = s.skip(a);
    if i + p.len() <= t.len() {
        assert(t.subrange(i, i + p.len()) =~= s.subrange(a + i, a + i + p.len()));
        if !stands_at(t, p, i) {
            lemma_find_shift(s, p, a, i + 1);
        }
    }
}

fn read_id(s: &Vec<char>, from: usize, to: usize) -> (r: Option<u64>)
    requires
        from <= to <= s.len(),
    ensures
        r == id_in(s@.subrange(from as int, to as int)),
{
    let ghost part = s@.subrange(from as int, to as int);
    match find_last(s, from, to, 'T') {
        None => None,
        Some(i) => {
            let end = digits_end(s, i + 1, to);
            let ghost after = part.skip(i - from + 1);
            assert(after =~= s@.subrange(i + 1, to as int));
            let digits = copy_chars(s, i + 1, end);
            assert(digits@ =~= after.take(digits_in_front(after) as int));
            parse_u64(&digits)
        },
    }
}

fn copy_chars(s: &Vec<char>, i: usize, j: usize) -> (r: Vec<char>)
    requires
        i <= j <= s.len(),
    ensures
        r@ == s@.subrange(i as int, j as int),
{
    let mut r: Vec<char> = Vec::new();
    let mut k: usize = i;
    while k < j
        invariant
            i <= k <= j <= s.len(),
            r@ == s@.subrange(i as int, k as int),
        decreases j - k,
    {
        r.push(s[k]);
        k += 1;
        assert(r@ =~= s@.subrange(i as int, k as int));
    }
    r
}

fn read_ids(s: &Vec<char>, from: usize) -> (r: Vec<u64>)
    requires
        from <= s.len(),
    ensures
        r@ == ids_in(split_text(s@.skip(from as int), " -> "@)),
{
    let sep = chars_of(" -> ");
    let ghost p = " -> "@;
    let ghost all = ids_in(split_text(s@.skip(from as int), p));
    proof {
        reveal_strlit(" -> ");
    }
    let mut r: Vec<u64> = Vec::new();
    let mut at: usize = from;
    assert(r@ + all =~= all);
    loop
        invariant
            at <= s.len(),
            sep@ == p,
            p == " -> "@,
            p.len() == 4,
            r@ + ids_in(split_text(s@.skip(at as int), p)) == all,
            all == ids_in(split_text(s@.skip(from as int), p)),
        decreases s.len() - at,
    {
        let ghost t = s@.skip(at as int);
        let ghost parts = split_text(t, p);
        let ghost before = r@;
        proof {
            lemma_find_shift(s@, p, at as int, 0);
            lemma_find_from(s@, p, at as int);
        }
        match find_chars(s, &sep, at) {
            None => {
                assert(parts =~= seq![t]);
                assert(t =~= s@.subrange(at as int, s@.len() as int));
                assert(parts.drop_first() =~= Seq::<Seq<char>>::empty());
                assert(ids_in(Seq::<Seq<char>>::empty()) =~= Seq::<u64>::empty());
                let id = read_id(s, at, s.len());
                if let Some(n) = id {
                    r.push(n);
                }
                assert(r@ =~= all);
                return r;
            },
            Some(i) => {
                assert(stands_at(s@, p, i as int));
                assert(t.take(i - at) =~= s@.subrange(at as int, i as int));
                assert(t.skip(i - at + 4) =~= s@.skip(i + 4));
                assert(parts =~= seq![t.take(i - at)] + split_text(s@.skip(i + 4), p));
                assert(parts.drop_first() =~= split_text(s@.skip(i + 4), p));
                let id = read_id(s, at, i);
                if let Some(n) = id {
                    r.push(n);
                }
                at = i + 4;
                assert(r@ + ids_in(split_text(s@.skip(at as int), p)) =~= all);
            },
        }
    }
}

fn mentions(s: &Vec<char>, word: &str) -> (r: bool)
    ensures
        r == has_text(s@, word@),
{
    contains_chars(s, &chars_of(word))
}

/// Parses a failure description into a kind of failure.
pub fn parse_failure_kind(failure: &Option<String>) -> (r: FailureKind)
    ensures
        r@ == kind_of_message(crate::driver::opt_text(*failure)),
{
    let msg = match failure {
        Some(f) => text_of(f.as_str()),
        None => text_of("unknown failure"),
    };
    let s = chars_of(msg.as_str());
    if mentions(&s, "Non-serializable schedule") || mentions(&s, "Cycle") {
        proof {
            lemma_find_from(s@, "Cycle:"@, 0);
            reveal_strlit("Cycle:");
        }
        let from = match find_chars(&s, &chars_of("Cycle:"), 0) {
            Some(i) => {
                assert(stands_at(s@, "Cycle:"@, i as int));
                let n = s.len();
                assert(i + 6 <= n);
                i + 6
            },
            None => 0,
        };
        assert(s@.skip(from as int) =~= cycle_part(s@));
        let txn_ids = read_ids(&s, from);
        if txn_ids.len() > 0 {
            return FailureKind::SerializabilityCycle { txn_ids };
        }
    }
    if mentions(&s, "missing") || mentions(&s, "incorrect") || mentions(&s, "mismatch") {
        return FailureKind::Custom(msg);
    }
    if mentions(&s, "panic") || mentions(&s, "assertion") || mentions(&s, "internal error") {
        return FailureKind::Unrecoverable(msg);
    }
    FailureKind::Custom(msg)
}

/// What the result of a run says: nothing where it passed, and else the report of the failure that
/// its message describes.
pub open spec fn replay_result(seed: u64, c: ScenarioConfig, s: StressResultView) -> Option<
    FailureView,
> {
    if s.passed {
        None
    } else {
        Some(report_of(seed, c.scenario, s.operations as usize, kind_of_message(s.failure)))
    }
}

/// Tells what replaying a simulation under machine faults gives: what the result of its run says.
pub open spec fn replay_gives(
    seed: u64,
    c: ScenarioConfig,
    faults: RuntimeFaultConfig,
    r: Option<FailureView>,
) -> bool {
    exists|v: StressView, s: StressResultView| #[trigger]
        scenario_stress(v, c) && #[trigger] seed_gives(seed, v, seeded_machine(seed, faults), s)
            && r == replay_result(seed, c, s)
}

/// The report of a failed run.
pub open spec fn failure_of(r: Result<(), FailureReport>) -> Option<FailureView> {
    match r {
        Ok(_) => None,
        Err(f) => Some(f@),
    }
}

/// The configuration of a replay.
pub open spec fn replay_config(scenario: FaultScenario, workload_len: usize) -> ScenarioConfig {
    ScenarioConfig {
        scenario,
        max_operations: workload_len,
        max_crashes: workload_len / 10,
        stop_on_violation: true,
    }
}

/// Replays a simulation with the given parameters.
pub fn replay(seed: u64, scenario: &FaultScenario, workload_len: usize) -> (r: Result<
    (),
    FailureReport,
>)
    ensures
        replay_gives(
            seed,
            replay_config(*scenario, workload_len),
            machine_faults(*scenario),
            failure_of(r),
        ),
{
    let config = ScenarioConfig {
        scenario: *scenario,
        max_operations: workload_len,
        max_crashes: workload_len / 10,
        stop_on_violation: true,
    };
    replay_with_config(seed, config)
}

/// Replays a simulation with full configuration control.
pub fn replay_with_config(seed: u64, config: ScenarioConfig) -> (r: Result<(), FailureReport>)
    ensures
        replay_gives(seed, config, machine_faults(config.scenario), failure_of(r)),
{
    replay_with_faults(seed, config, config.scenario.runtime_config())
}

/// Replays a simulation under machine faults other than those of its scenario.
pub fn replay_with_faults(seed: u64, config: ScenarioConfig, faults: RuntimeFaultConfig) -> (r:
    Result<(), FailureReport>)
    ensures
        replay_gives(seed, config, faults, failure_of(r)),
{
    let stress_config = create_stress_config(&config);
    let ghost v = stress_config@;
    let env = SimEnv::new_with_faults(seed, faults);
    let ghost machine = seeded_machine(seed, faults);
    assert(env.fresh(seed, machine));
    let result = run_in(env, stress_config);
    assert(scenario_stress(v, config) && seed_gives(seed, v, machine, result@));
    if result.passed {
        Ok(())
    } else {
        let failure_kind = parse_failure_kind(&result.failure);
        Err(
            FailureReport::new(
                seed,
                config.scenario,
                result.operations as usize,
                failure_kind,
            ),
        )
    }
}

/// Tells whether a character is not among the first `n` of a text.
spec fn absent(s: Seq<char>, c: char, n: nat) -> bool
    decreases n,
{
    n == 0 || (s[n - 1] != c && absent(s, c, (n - 1) as nat))
}

proof fn lemma_absent(s: Seq<char>, c: char, n: nat, j: int)
    requires
        absent(s, c, n),
        0 <= j < n,
    ensures
        s[j] != c,
    decreases n,
{
    if j < n - 1 {
        lemma_absent(s, c, (n - 1) as nat, j);
    }
}

/// The text of the first transaction of a walk.
spec fn first_stop(id: u64) -> Seq<char> {
    "T"@ + decimal(id as nat)
}

proof fn lemma_regroup(x: Seq<char>, w: Seq<char>, a: Seq<char>, t: Seq<char>, d: Seq<char>)
    ensures
        x + w + a + t + d == x + (w + a + t + d),
        x + a + t + d == x + a + (t + d),
{
    assert(x + w + a + t + d =~= x + (w + a + t + d));
    assert(x + a + t + d =~= x + a + (t + d));
}

proof fn lemma_walk_front(ids: Seq<u64>)
    requires
        ids.len() >= 2,
    ensures
        walk_text(ids) == first_stop(ids[0]) + " -> "@ + walk_text(ids.drop_first()),
    decreases ids.len(),
{
    let d = decimal(ids.last() as nat);
    let first = first_stop(ids[0]);
    let rest = ids.drop_first();
    if ids.len() == 2 {
        assert(ids.drop_last() =~= seq![ids[0]]);
        assert(rest =~= seq![ids[1]]);
        assert(walk_text(ids.drop_last()) == first);
        assert(walk_text(rest) == "T"@ + d);
        lemma_regroup(first, Seq::empty(), " -> "@, "T"@, d);
        assert(walk_text(ids) == first + " -> "@ + "T"@ + d);
    } else {
        lemma_walk_front(ids.drop_last());
        assert(ids.drop_last().drop_first() =~= rest.drop_last());
        assert(rest.last() == ids.last());
        let w = walk_text(rest.drop_last());
        assert(walk_text(ids.drop_last()) == first + " -> "@ + w);
        assert(walk_text(rest) == w + " -> "@ + "T"@ + d);
        lemma_regroup(first + " -> "@, w, " -> "@, "T"@, d);
        assert(walk_text(ids) == first + " -> "@ + w + " -> "@ + "T"@ + d);
    }
}

proof fn lemma_last_place_digits(a: Seq<char>, d: Seq<char>)
    requires
        a.len() > 0,
        a.last() == 'T',
        all_digits(d),
    ensures
        last_place(a + d, 'T') == Some(a.len() - 1),
    decreases d.len(),
{
    let s = a + d;
    if d.len() == 0 {
        assert(s =~= a);
    } else {
        assert(s.last() == d[d.len() - 1]);
        assert(s.drop_last() =~= a + d.drop_last());
        assert forall|i: int| 0 <= i < d.drop_last().len() implies '0' <= #[trigger] d.drop_last()[i]
            && d.drop_last()[i] <= '9' by {
            assert(d.drop_last()[i] == d[i]);
        }
        lemma_last_place_digits(a, d.drop_last());
    }
}

proof fn lemma_digits_in_front(d: Seq<char>)
    requires
        all_digits(d),
    ensures
        digits_in_front(d) == d.len(),
    decreases d.len(),
{
    if d.len() > 0 {
        assert(d[0] >= '0' && d[0] <= '9');
        assert forall|i: int| 0 <= i < d.drop_first().len() implies '0'
            <= #[trigger] d.drop_first()[i] && d.drop_first()[i] <= '9' by {
            assert(d.drop_first()[i] == d[i + 1]);
        }
        lemma_digits_in_front(d.drop_first());
    }
}

proof fn lemma_id_in_stop(pre: Seq<char>, id: u64)
    ensures
        id_in(pre + first_stop(id)) == Some(id),
{
    reveal_strlit("T");
    let d = decimal(id as nat);
    let a = pre + "T"@;
    let part = pre + first_stop(id);
    lemma_decimal_digits(id as nat);
    assert(part =~= a + d);
    assert(a.last() == 'T');
    lemma_last_place_digits(a, d);
    let after = part.skip(a.len() as int);
    assert(after =~= d);
    lemma_digits_in_front(d);
    assert(after.take(digits_in_front(after) as int) =~= d);
    lemma_padded_round_trip(id, 0);
    assert(padded_decimal(id as nat, 0) == d);
}

/// No separator stands in the text of a stop, nor over its end.
proof fn lemma_no_separator(pre: Seq<char>, id: u64, rest: Seq<char>, j: int)
    requires
        pre == Seq::<char>::empty() || pre == seq![' '],
        rest.len() == 0 || rest[0] == ' ',
        0 <= j < (pre + first_stop(id)).len(),
    ensures
        !stands_at(pre + first_stop(id) + rest, " -> "@, j),
{
    reveal_strlit("T");
    reveal_strlit(" -> ");
    let d = decimal(id as nat);
    lemma_decimal_digits(id as nat);
    let head = pre + first_stop(id);
    let s = head + rest;
    let p = " -> "@;
    assert(head[pre.len() as int] == 'T');
    if stands_at(s, p, j) {
        assert(s.subrange(j, j + 4)[0] == s[j]);
        assert(s.subrange(j, j + 4)[1] == s[j + 1]);
        assert(s[j] == ' ' && s[j + 1] == '-');
        if j < pre.len() {
            assert(s[j + 1] == 'T');
        } else if j == pre.len() {
            assert(s[j] == 'T');
        } else {
            assert(s[j] == d[j - pre.len() - 1]);
        }
    }
}

#[verifier::rlimit(40)]
proof fn lemma_ids_of_walk(pre: Seq<char>, ids: Seq<u64>)
    requires
        pre == Seq::<char>::empty() || pre == seq![' '],
        ids.len() > 0,
    ensures
        ids_in(split_text(pre + walk_text(ids), " -> "@)) == ids,
    decreases ids.len(),
{
    reveal_strlit(" -> ");
    let p = " -> "@;
    let s = pre + walk_text(ids);
    let head = pre + first_stop(ids[0]);
    lemma_id_in_stop(pre, ids[0]);
    assert(ids_in(Seq::<Seq<char>>::empty()) =~= Seq::<u64>::empty());
    if ids.len() == 1 {
        assert(s =~= head + Seq::<char>::empty());
        assert forall|j: int| 0 <= j implies !stands_at(s, p, j) by {
            if j < head.len() {
                lemma_no_separator(pre, ids[0], Seq::empty(), j);
            }
        }
        lemma_find_nothing(s, p);
        let parts = split_text(s, p);
        assert(parts =~= seq![s]);
        assert(parts.drop_first() =~= Seq::<Seq<char>>::empty());
        assert(s =~= head);
        assert(ids_in(parts) =~= ids);
    } else {
        let rest = ids.drop_first();
        let tail = p + walk_text(rest);
        lemma_walk_front(ids);
        assert(s =~= head + tail);
        let k = head.len() as int;
        assert(s.subrange(k, k + 4) =~= p);
        assert forall|j: int| 0 <= j < k implies !stands_at(s, p, j) by {
            lemma_no_separator(pre, ids[0], tail, j);
        }
        lemma_find_first(s, p, k);
        let next = Seq::<char>::empty() + walk_text(rest);
        assert(s.skip(k + 4) =~= next);
        assert(s.take(k) =~= head);
        lemma_ids_of_walk(Seq::empty(), rest);
        let parts = split_text(s, p);
        assert(parts =~= seq![head] + split_text(next, p));
        assert(parts.drop_first() =~= split_text(next, p));
        assert(ids_in(parts) =~= ids);
    }
}

/// The message of a serialization violation is read back: it describes a cycle of the same
/// transactions.
pub proof fn law_violation_message_parses(cycle: Seq<u64>)
    requires
        cycle.len() > 0,
    ensures
        kind_of_message(Some(violation_text(cycle))) == (KindView::SerializabilityCycle {
            txn_ids: cycle,
        }),
{
    let head = "Non-serializable schedule detected. Cycle: "@;
    let first = "Non-serializable schedule"@;
    let word = "Cycle:"@;
    reveal_strlit("Non-serializable schedule detected. Cycle: ");
    reveal_strlit("Non-serializable schedule");
    reveal_strlit("Cycle:");
    let msg = violation_text(cycle);
    assert(msg.subrange(0, first.len() as int) =~= first);
    assert(stands_at(msg, first, 0));
    assert(msg.subrange(36, 42) =~= word);
    assert(absent(head, 'C', 36)) by {
        reveal_with_fuel(absent, 37);
    }
    assert forall|j: int| 0 <= j < 36 implies !stands_at(msg, word, j) by {
        lemma_absent(head, 'C', 36, j);
        if stands_at(msg, word, j) {
            assert(msg.subrange(j, j + 6)[0] == msg[j]);
            assert(msg[j] == head[j]);
        }
    }
    lemma_find_first(msg, word, 36);
    let part = seq![' '] + walk_text(cycle);
    assert(cycle_part(msg) =~= part);
    lemma_ids_of_walk(seq![' '], cycle);
}

/// Shrinks a failure to find a minimal reproduction.
pub fn shrink_real_failure(report: &FailureReport) -> (r: Option<DeltaDebugResult>)
    ensures
        simulation_shrunk(usual_delta(), *report, r),
{
    shrink_failure(report)
}

/// Shrinks a failure quickly.
pub fn shrink_real_failure_quick(report: &FailureReport) -> (r: Option<DeltaDebugResult>)
    ensures
        simulation_shrunk(quick_delta(), *report, r),
{
    quick_shrink(report)
}

/// Shrinks a failure thoroughly.
pub fn shrink_real_failure_thorough(report: &FailureReport) -> (r: Option<DeltaDebugResult>)
    ensures
        simulation_shrunk(thorough_delta(), *report, r),
{
    thorough_shrink(report)
}

/// A failure that was found and, where asked for, shrunk.
#[derive(Debug)]
pub struct FoundFailure {
    /// The original failure report.
    pub original: FailureReport,
    /// The shrunk result, if shrinking was requested.
    pub shrunk: Option<DeltaDebugResult>,
}

impl FoundFailure {
    /// Returns the workload length after shrinking, or the original one.
    pub fn minimal_workload_len(&self) -> (r: usize)
        ensures
            r == match self.shrunk {
                Some(s) => s.fault_config.workload_len,
                None => self.original.workload_len,
            },
    {
        match &self.shrunk {
            Some(s) => s.fault_config.workload_len,
            None => self.original.workload_len,
        }
    }
}

/// Result of searching for failures across seeds and scenarios.
#[derive(Debug)]
pub struct FailureSearchResult {
    /// Total seeds tried.
    pub seeds_tried: u64,
    /// Total scenarios tried per seed.
    pub scenarios_tried: u64,
    /// Failures found.
    pub failures: Vec<FoundFailure>,
}

impl FailureSearchResult {
    /// Returns the number of failures found.
    pub fn failure_count(&self) -> (r: usize)
        ensures
            r == self.failures.len(),
    {
        self.failures.len()
    }

    /// Returns a summary string.
    pub fn summary(&self) -> (r: String)
        requires
            self.seeds_tried * self.scenarios_tried <= u64::MAX,
        ensures
            r@ == "Searched "@ + decimal(self.seeds_tried as nat) + " seeds x "@ + decimal(
                self.scenarios_tried as nat,
            ) + " scenarios = "@ + decimal(
                (self.seeds_tried * self.scenarios_tried) as nat,
            ) + " total\nFound "@ + decimal(self.failures.len() as nat) + " failures"@,
    {
        let mut r = text_of("Searched ");
        push_decimal(&mut r, self.seeds_tried);
        r.push_str(" seeds x ");
        push_decimal(&mut r, self.scenarios_tried);
        r.push_str(" scenarios = ");
        push_decimal(&mut r, self.seeds_tried * self.scenarios_tried);
        r.push_str(" total\nFound ");
        push_count(&mut r, self.failures.len());
        r.push_str(" failures");
        r
    }
}

/// The failures among outcomes.
pub open spec fn failures_in(row: Seq<Option<FailureView>>) -> Seq<FailureView>
    decreases row.len(),
{
    if row.len() == 0 {
        Seq::empty()
    } else {
        match row.last() {
            Some(f) => failures_in(row.drop_last()).push(f),
            None => failures_in(row.drop_last()),
        }
    }
}

/// The failures among rows of outcomes, row by row.
pub open spec fn failures_in_rows(rows: Seq<Seq<Option<FailureView>>>) -> Seq<FailureView>
    decreases rows.len(),
{
    if rows.len() == 0 {
        Seq::empty()
    } else {
        failures_in_rows(rows.drop_last()) + failures_in(rows.last())
    }
}

/// Tells whether outcomes are what replays of a seed give, one for each scenario.
pub open spec fn row_for(
    seed: u64,
    scenarios: Seq<FaultScenario>,
    workload_len: usize,
    row: Seq<Option<FailureView>>,
) -> bool {
    forall|j: int|
        0 <= j < row.len() ==> replay_gives(
            seed,
            replay_config(scenarios[j], workload_len),
            machine_faults(scenarios[j]),
            #[trigger] row[j],
        )
}

/// Tells whether rows of outcomes are what replays give, a row for each seed.
pub open spec fn rows_for(
    first: u64,
    scenarios: Seq<FaultScenario>,
    workload_len: usize,
    rows: Seq<Seq<Option<FailureView>>>,
) -> bool {
    forall|i: int|
        0 <= i < rows.len() ==> (#[trigger] rows[i]).len() == scenarios.len() && row_for(
            (first + i) as u64,
            scenarios,
            workload_len,
            rows[i],
        )
}

/// The original reports of failures found.
pub open spec fn originals(s: Seq<FoundFailure>) -> Seq<FailureView> {
    s.map_values(|f: FoundFailure| f.original@)
}

/// The number of seeds in a range.
pub open spec fn seeds_in(seeds: Range<u64>) -> nat {
    if seeds.start < seeds.end {
        (seeds.end - seeds.start) as nat
    } else {
        0
    }
}

/// Tells whether each failure found was shrunk where asked for, and none where not.
pub open spec fn shrunk_as_asked(s: Seq<FoundFailure>, shrink: bool) -> bool {
    forall|i: int|
        0 <= i < s.len() ==> if shrink {
            simulation_shrunk(quick_delta(), (#[trigger] s[i]).original, s[i].shrunk)
        } else {
            s[i].shrunk is None
        }
}

fn search_seed(
    seed: u64,
    scenarios: &[FaultScenario],
    workload_len: usize,
    shrink_failures: bool,
    failures: &mut Vec<FoundFailure>,
) -> (row: Ghost<Seq<Option<FailureView>>>)
    requires
        shrunk_as_asked(old(failures)@, shrink_failures),
    ensures
        row@.len() == scenarios@.len(),
        row_for(seed, scenarios@, workload_len, row@),
        originals(final(failures)@) == originals(old(failures)@) + failures_in(row@),
        shrunk_as_asked(final(failures)@, shrink_failures),
{
    let ghost mut row: Seq<Option<FailureView>> = Seq::empty();
    let ghost base = originals(failures@);
    let mut j: usize = 0;
    assert(originals(failures@) =~= base + failures_in(row));
    while j < scenarios.len()
        invariant
            j <= scenarios.len(),
            row.len() == j,
            row_for(seed, scenarios@, workload_len, row),
            originals(failures@) == base + failures_in(row),
            shrunk_as_asked(failures@, shrink_failures),
        decreases scenarios.len() - j,
    {
        let done = replay(seed, &scenarios[j], workload_len);
        let ghost o = failure_of(done);
        let ghost row0 = row;
        let ghost f0 = failures@;
        proof {
            row = row.push(o);
            assert(row.drop_last() =~= row0);
            assert forall|k: int| 0 <= k < row.len() implies replay_gives(
                seed,
                replay_config(scenarios@[k], workload_len),
                machine_faults(scenarios@[k]),
                #[trigger] row[k],
            ) by {
                if k < row0.len() {
                    assert(row[k] == row0[k]);
                }
            }
        }
        match done {
            Ok(_) => {},
            Err(report) => {
                let shrunk = if shrink_failures {
                    shrink_real_failure_quick(&report)
                } else {
                    None
                };
                let found = FoundFailure { original: report, shrunk };
                failures.push(found);
                proof {
                    assert(originals(failures@) =~= originals(f0).push(found.original@));
                    assert(originals(failures@) =~= base + failures_in(row));
                    assert forall|i: int| 0 <= i < failures@.len() implies if shrink_failures {
                        simulation_shrunk(
                            quick_delta(),
                            (#[trigger] failures@[i]).original,
                            failures@[i].shrunk,
                        )
                    } else {
                        failures@[i].shrunk is None
                    } by {
                        if i < f0.len() {
                            assert(failures@[i] == f0[i]);
                        }
                    }
                }
            },
        }
        j += 1;
    }
    Ghost(row)
}

/// Finds failures across a range of seeds and scenarios, shrinking them where asked for.
#[verifier::rlimit(40)]
pub fn find_and_shrink_failures(
    seeds: Range<u64>,
    scenarios: &[FaultScenario],
    workload_len: usize,
    shrink_failures: bool,
) -> (r: FailureSearchResult)
    ensures
        r.seeds_tried == seeds_in(seeds),
        r.scenarios_tried == scenarios@.len(),
        shrunk_as_asked(r.failures@, shrink_failures),
        exists|rows: Seq<Seq<Option<FailureView>>>| #[trigger]
            rows_for(seeds.start, scenarios@, workload_len, rows) && rows.len() == seeds_in(seeds)
                && originals(r.failures@) == failures_in_rows(rows),
{
    let mut failures: Vec<FoundFailure> = Vec::new();
    let mut seeds_tried: u64 = 0;
    let ghost mut rows: Seq<Seq<Option<FailureView>>> = Seq::empty();
    let first = seeds.start;
    let end = seeds.end;
    let mut seed: u64 = first;
    assert(originals(failures@) =~= failures_in_rows(rows));
    while seed < end
        invariant
            first <= seed,
            seed <= end || seed == first,
            seeds_tried == seed - first,
            rows.len() == seed - first,
            rows_for(first, scenarios@, workload_len, rows),
            originals(failures@) == failures_in_rows(rows),
            shrunk_as_asked(failures@, shrink_failures),
        decreases end - seed,
    {
        let Ghost(row) = search_seed(
            seed,
            scenarios,
            workload_len,
            shrink_failures,
            &mut failures,
        );
        proof {
            let rows0 = rows;
            rows = rows.push(row);
            assert(rows.drop_last() =~= rows0);
            assert forall|i: int| 0 <= i < rows.len() implies (#[trigger] rows[i]).len()
                == scenarios@.len() && row_for(
                (first + i) as u64,
                scenarios@,
                workload_len,
                rows[i],
            ) by {
                if i < rows0.len() {
                    assert(rows[i] == rows0[i]);
                }
            }
        }
        seeds_tried += 1;
        seed += 1;
    }
    FailureSearchResult { seeds_tried, scenarios_tried: scenarios.len() as u64, failures }
}

/// Finds failures without shrinking.
pub fn find_failures(seeds: Range<u64>, scenarios: &[FaultScenario], workload_len: usize) -> (r:
    FailureSearchResult)
    ensures
        r.seeds_tried == seeds_in(seeds),
        r.scenarios_tried == scenarios@.len(),
        shrunk_as_asked(r.failures@, false),
        exists|rows: Seq<Seq<Option<FailureView>>>| #[trigger]
            rows_for(seeds.start, scenarios@, workload_len, rows) && rows.len() == seeds_in(seeds)
                && originals(r.failures@) == failures_in_rows(rows),
{
    find_and_shrink_failures(seeds, scenarios, workload_len, false)
}

/// A bug that is injected to test the shrinker itself.
#[derive(Clone, Debug)]
pub struct SyntheticBug {
    /// The operation number at which to inject the failure.
    pub fail_at_op: usize,
    /// The kind of failure to inject.
    pub failure_kind: FailureKind,
}

impl SyntheticBug {
    /// Creates a new synthetic bug that fails at the given operation.
    pub fn new(fail_at_op: usize, failure_kind: FailureKind) -> (r: Self)
        ensures
            r.fail_at_op == fail_at_op,
            r.failure_kind == failure_kind,
    {
        SyntheticBug { fail_at_op, failure_kind }
    }

    /// Creates a synthetic serializability cycle failure.
    pub fn serializability_cycle(fail_at_op: usize) -> (r: Self)
        ensures
            r.fail_at_op == fail_at_op,
            r.failure_kind@ == (KindView::SerializabilityCycle { txn_ids: seq![1u64, 2, 3] }),
    {
        let txn_ids: Vec<u64> = vec![1, 2, 3];
        assert(txn_ids@ =~= seq![1u64, 2, 3]);
        SyntheticBug::new(fail_at_op, FailureKind::SerializabilityCycle { txn_ids })
    }

    /// Creates a synthetic lost write failure.
    pub fn lost_write(fail_at_op: usize) -> (r: Self)
        ensures
            r.fail_at_op == fail_at_op,
            r.failure_kind@ == (KindView::LostWrite {
                key: vstd::utf8::encode_utf8("synthetic_key"@),
                expected: vstd::utf8::encode_utf8("synthetic_value"@),
            }),
    {
        SyntheticBug::new(
            fail_at_op,
            FailureKind::LostWrite {
                key: crate::text::bytes_of("synthetic_key"),
                expected: crate::text::bytes_of("synthetic_value"),
            },
        )
    }

    /// Creates a synthetic custom failure.
    pub fn custom(fail_at_op: usize, message: &str) -> (r: Self)
        ensures
            r.fail_at_op == fail_at_op,
            r.failure_kind@ == KindView::Custom(message@),
    {
        SyntheticBug::new(fail_at_op, FailureKind::Custom(text_of(message)))
    }

    /// Tests if this bug should fire at the given operation count.
    pub fn should_fail(&self, op_count: usize) -> (r: bool)
        ensures
            r == (op_count >= self.fail_at_op),
    {
        op_count >= self.fail_at_op
    }
}

/// Runs a synthetic bug: it fires where the workload is long enough.
pub fn run_with_synthetic_bug(
    seed: u64,
    scenario: FaultScenario,
    workload_len: usize,
    bug: &SyntheticBug,
) -> (r: Result<(), FailureReport>)
    ensures
        failure_of(r) == if workload_len >= bug.fail_at_op {
            Some(report_of(seed, scenario, workload_len, bug.failure_kind@))
        } else {
            None
        },
{
    if bug.should_fail(workload_len) {
        Err(FailureReport::new(seed, scenario, workload_len, bug.failure_kind.copy()))
    } else {
        Ok(())
    }
}

/// What verifying the shrinker on a synthetic bug says against it, if anything: the workload is
/// too short, or what it is shrunk to is too far from the operation at which the bug fires.
pub open spec fn shrinker_refusal(initial: usize, fail_at_op: usize) -> Option<Seq<char>> {
    let len = shrunk_len(initial, fail_at_op, usual_delta().min_workload_size);
    if initial < fail_at_op {
        Some(
            "Initial workload "@ + decimal(initial as nat)
                + " is too short to trigger bug at op "@ + decimal(fail_at_op as nat),
        )
    } else if len > fail_at_op + 5 {
        Some(
            "Shrinker did not converge close to bug point: got "@ + decimal(len as nat)
                + ", expected <= "@ + decimal((fail_at_op + 5) as nat),
        )
    } else {
        None
    }
}

/// Verifies that the shrinker finds the minimal reproduction for a synthetic bug.
pub fn verify_shrinker_with_synthetic_bug(
    seed: u64,
    scenario: FaultScenario,
    initial_workload: usize,
    bug: &SyntheticBug,
) -> (r: Result<DeltaDebugResult, String>)
    requires
        bug.fail_at_op + 5 <= usize::MAX,
    ensures
        match r {
            Ok(d) => {
                let len = shrunk_len(
                    initial_workload,
                    bug.fail_at_op,
                    usual_delta().min_workload_size,
                );
                &&& shrinker_refusal(initial_workload, bug.fail_at_op) is None
                &&& d.fault_config.workload_len == len
                &&& d.report@ == report_of(seed, scenario, len, bug.failure_kind@)
                &&& sizes_noted(
                    d.stats@,
                    of_scenario(scenario, initial_workload),
                    d.fault_config,
                )
            },
            Err(text) => shrinker_refusal(initial_workload, bug.fail_at_op) == Some(text@),
        },
{
    if !bug.should_fail(initial_workload) {
        let mut text = text_of("Initial workload ");
        push_count(&mut text, initial_workload);
        text.push_str(" is too short to trigger bug at op ");
        push_count(&mut text, bug.fail_at_op);
        return Err(text);
    }
    let report = FailureReport::new(seed, scenario, initial_workload, bug.failure_kind.copy());
    let kind = bug.failure_kind.copy();
    let mut shrinker = TestableShrinker::for_workload_bug(
        DeltaDebugConfig::default(),
        bug.fail_at_op,
        kind,
    );
    let ghost s = shrinker.search(&report.failure_kind);
    let ghost start = of_scenario(scenario, initial_workload);
    proof {
        law_search_succeeds(s, start);
    }
    match shrinker.shrink(&report) {
        Some(result) => {
            proof {
                law_workload_bug_found(s, start, result.fault_config, bug.fail_at_op, kind);
            }
            let max_acceptable = bug.fail_at_op + 5;
            if result.fault_config.workload_len > max_acceptable {
                let mut text = text_of("Shrinker did not converge close to bug point: got ");
                push_count(&mut text, result.fault_config.workload_len);
                text.push_str(", expected <= ");
                push_count(&mut text, max_acceptable);
                return Err(text);
            }
            Ok(result)
        },
        None => Err(text_of("Shrinker failed to find a minimal reproduction")),
    }
}

/// Failures match exactly where they have the same name, whatever else they say.
pub proof fn law_kinds_match_by_name(a: KindView, b: KindView)
    ensures
        same_kind(a, b) <==> kind_name(a) == kind_name(b),
        same_kind(a, a),
        same_kind(a, b) == same_kind(b, a),
{
    reveal_strlit("serializability_cycle");
    reveal_strlit("lost_write");
    reveal_strlit("custom");
    reveal_strlit("unrecoverable");
    assert("serializability_cycle"@.len() == 21);
    assert("lost_write"@.len() == 10);
    assert("custom"@.len() == 6);
    assert("unrecoverable"@.len() == 13);
}

/// A failure that is read from a message keeps the message, unless it is a cycle; a cycle has
/// transactions, and no message makes a lost write. One without a message is unknown.
pub proof fn law_message_kept(failure: Option<Seq<char>>)
    ensures
        match kind_of_message(failure) {
            KindView::SerializabilityCycle { txn_ids } => txn_ids.len() > 0 && failure is Some,
            KindView::LostWrite { .. } => false,
            KindView::Custom(t) => failure is Some ==> failure == Some(t),
            KindView::Unrecoverable(t) => failure == Some(t) && (has_text(t, "panic"@) || has_text(
                t,
                "assertion"@,
            ) || has_text(t, "internal error"@)),
        },
        failure is None ==> kind_of_message(failure) == KindView::Custom("unknown failure"@),
{
    if failure is None {
        let m = "unknown failure"@;
        reveal_strlit("unknown failure");
        reveal_strlit("Non-serializable schedule");
        reveal_strlit("Cycle");
        reveal_strlit("missing");
        reveal_strlit("incorrect");
        reveal_strlit("mismatch");
        reveal_strlit("panic");
        reveal_strlit("assertion");
        reveal_strlit("internal error");
        assert(absent(m, 'C', 15)) by {
            reveal_with_fuel(absent, 16);
        }
        assert(absent(m, 'p', 15)) by {
            reveal_with_fuel(absent, 16);
        }
        assert(absent(m, 's', 15)) by {
            reveal_with_fuel(absent, 16);
        }
        assert(absent(m, 't', 15)) by {
            reveal_with_fuel(absent, 16);
        }
        assert forall|i: int| !stands_at(m, "Non-serializable schedule"@, i) by {}
        lemma_absent_word(m, 'C', "Cycle"@, 0);
        lemma_absent_word(m, 'p', "panic"@, 0);
        lemma_absent_word(m, 's', "assertion"@, 1);
        lemma_absent_word(m, 't', "internal error"@, 2);
    }
}

proof fn lemma_absent_word(s: Seq<char>, c: char, word: Seq<char>, k: int)
    requires
        absent(s, c, s.len()),
        0 <= k < word.len(),
        word[k] == c,
    ensures
        !has_text(s, word),
{
    assert forall|i: int| !stands_at(s, word, i) by {
        if stands_at(s, word, i) {
            assert(s.subrange(i, i + word.len())[k] == s[i + k]);
            lemma_absent(s, c, s.len(), i + k);
        }
    }
}

/// What a search over seeds and scenarios lists are the failures of its runs, all of them and no
/// others; it is empty exactly where every run passed.
pub proof fn law_search_lists_failures(rows: Seq<Seq<Option<FailureView>>>, f: FailureView)
    ensures
        failures_in_rows(rows).contains(f) <==> exists|i: int, j: int|
            0 <= i < rows.len() && 0 <= j < rows[i].len() && #[trigger] rows[i][j] == Some(f),
        failures_in_rows(rows).len() == 0 <==> forall|i: int, j: int|
            0 <= i < rows.len() && 0 <= j < rows[i].len() ==> (#[trigger] rows[i][j]) is None,
    decreases rows.len(),
{
    if rows.len() > 0 {
        let t = rows.drop_last();
        let n = rows.len() - 1;
        let row = rows.last();
        let a = failures_in_rows(t);
        let b = failures_in(row);
        law_search_lists_failures(t, f);
        lemma_failures_in(row, f);
        assert(rows[n] == row);
        if (a + b).contains(f) {
            let k = choose|k: int| 0 <= k < (a + b).len() && (a + b)[k] == f;
            if k < a.len() {
                assert(a[k] == f);
                let (i, j) = choose|i: int, j: int|
                    0 <= i < t.len() && 0 <= j < t[i].len() && #[trigger] t[i][j] == Some(f);
                assert(rows[i][j] == Some(f));
            } else {
                assert(b[k - a.len()] == f);
                let j = choose|j: int| 0 <= j < row.len() && row[j] == Some(f);
                assert(rows[n][j] == Some(f));
            }
        }
        if exists|i: int, j: int|
            0 <= i < rows.len() && 0 <= j < rows[i].len() && #[trigger] rows[i][j] == Some(f) {
            let (i, j) = choose|i: int, j: int|
                0 <= i < rows.len() && 0 <= j < rows[i].len() && #[trigger] rows[i][j] == Some(f);
            if i < n {
                assert(t[i][j] == Some(f));
                let k = choose|k: int| 0 <= k < a.len() && a[k] == f;
                assert((a + b)[k] == f);
            } else {
                assert(row[j] == Some(f));
                assert(row.contains(Some(f)));
                let k = choose|k: int| 0 <= k < b.len() && b[k] == f;
                assert((a + b)[a.len() + k] == f);
            }
        }
        if (a + b).len() == 0 {
            assert forall|i: int, j: int|
                0 <= i < rows.len() && 0 <= j < rows[i].len() implies (#[trigger] rows[i][j])
                is None by {
                if i < n {
                    assert(t[i][j] is None);
                } else {
                    assert(row[j] is None);
                }
            }
        }
        if forall|i: int, j: int|
            0 <= i < rows.len() && 0 <= j < rows[i].len() ==> (#[trigger] rows[i][j]) is None {
            assert forall|i: int, j: int|
                0 <= i < t.len() && 0 <= j < t[i].len() implies (#[trigger] t[i][j]) is None by {
                assert(rows[i][j] is None);
            }
            assert forall|j: int| 0 <= j < row.len() implies (#[trigger] row[j]) is None by {
                assert(rows[n][j] is None);
            }
        }
    }
}

proof fn lemma_failures_in(row: Seq<Option<FailureView>>, f: FailureView)
    ensures
        failures_in(row).contains(f) <==> row.contains(Some(f)),
        failures_in(row).len() == 0 <==> forall|j: int|
            0 <= j < row.len() ==> (#[trigger] row[j]) is None,
    decreases row.len(),
{
    if row.len() > 0 {
        let t = row.drop_last();
        let n = row.len() - 1;
        let before = failures_in(t);
        let all = failures_in(row);
        lemma_failures_in(t, f);
        assert(row[n] == row.last());
        assert forall|j: int| 0 <= j < n implies #[trigger] row[j] == t[j] by {}
        if before.contains(f) {
            let k = choose|k: int| 0 <= k < before.len() && before[k] == f;
            assert(all[k] == f);
        }
        if t.contains(Some(f)) {
            let k = choose|k: int| 0 <= k < t.len() && t[k] == Some(f);
            assert(row[k] == Some(f));
        }
        if row.contains(Some(f)) && row.last() != Some(f) {
            let k = choose|k: int| 0 <= k < row.len() && row[k] == Some(f);
            assert(t[k] == Some(f));
        }
        if row.last() == Some(f) {
            assert(all[before.len() as int] == f);
        }
        if all.contains(f) {
            let k = choose|k: int| 0 <= k < all.len() && all[k] == f;
            if k < before.len() {
                assert(before[k] == f);
            }
        }
    }
}

/// A replay reports a failure exactly where its run did not pass, and the report names the seed,
/// the scenario and the number of operations of that run.
pub proof fn law_replay_reports(seed: u64, c: ScenarioConfig, s: StressResultView)
    requires
        s.operations <= usize::MAX,
    ensures
        replay_result(seed, c, s) is None <==> s.passed,
        replay_result(seed, c, s) matches Some(f) ==> {
            &&& f.seed == seed
            &&& f.scenario == c.scenario
            &&& f.workload_len == s.operations
        },
{
}

/// A synthetic bug of a workload is shrunk to no less than the operations that show it, nor to
/// less than the least that is asked for, and to no more than that unless it began smaller.
pub proof fn law_shrunk_len(initial: usize, fail_at_op: usize, min: usize)
    requires
        initial >= fail_at_op,
    ensures
        fail_at_op <= shrunk_len(initial, fail_at_op, min) <= initial,
        shrunk_len(initial, fail_at_op, min) >= min || shrunk_len(initial, fail_at_op, min)
            == initial,
        shrunk_len(initial, fail_at_op, min) > fail_at_op ==> shrunk_len(initial, fail_at_op, min)
            <= min,
{
}

} // verus!
