//! A run of the stress test from a seed gives one result.

use crate::compaction::picked;
use crate::delta_debug::{
    config_of, faults_of, kind_in, simulation_gives, simulation_search, simulation_shrunk, DeltaDebugConfig,
    DeltaDebugResult, ReplayFn, ScenarioReplay, ShrunkFaultConfig,
};
use crate::disk::{Files, Image};
use crate::driver::{
    all_taken, attempted, bytes_wanted, checked_for_crash, draws_give, ends, failed_run, final_result,
    followed, fresh_run, goes_on, going, noted, one_more, op_drawn, opens, performed, reads_all,
    reads_as, reopened_with, round, rounds, run_gives, run_through, run_with, seed_gives, struck,
    struck_with, verifies,
    violation_stop, write_checked, write_done, RunView, StressResultView, StressView,
};
use crate::durability::{
    law_open_has_one_outcome, law_write_has_one_outcome, lemma_compacted_sound, lemma_flushed_sound,
    log_durable, log_sound,
};
use crate::engine::{compaction_round, rotated, with_log, written, EngineView};
use crate::error::{Error, ErrorView};
use crate::failure::{
    replay_config, replay_gives, replay_result, same_kind, FailureKind, FailureReport, FailureView,
    KindView,
};
use crate::fault::crash_check;
use crate::fault_scenarios::{scenario_gives_on, scenario_stress, ScenarioConfig, ScenarioResult};
use crate::invariants::{observed_for, single_report, verification_of, ReportView};
use crate::memtable::ValueView;
use crate::model::{keys_of, ModelView, OpKind};
use crate::recovery::recovered;
use crate::wal::log_segments;
use crate::workload::{drawn_op, OperationView};
use crate::rng::{from_seed, DrawsView};
use crate::sim_env::{machine_after, no_room, seeded_machine, MachineView, RuntimeFaultConfig};
use vstd::prelude::*;

verus! {

/// Tells whether two states of a run differ in nothing but the database.
pub open spec fn same_but_engine(a: RunView, b: RunView) -> bool {
    b == (RunView { engine: b.engine, ..a })
}

/// Tells whether two outcomes of a step are the same: what stopped it, and the state, but for the
/// database where it was stopped.
spec fn same_outcome(
    a: RunView,
    why: Option<Seq<char>>,
    b: RunView,
    other: Option<Seq<char>>,
) -> bool {
    &&& why == other
    &&& same_but_engine(a, b)
    &&& why is None ==> a == b && log_sound(a.engine)
}

proof fn lemma_reads_once(s: EngineView, keys: Seq<Seq<u8>>, a: Seq<ValueView>, b: Seq<ValueView>)
    requires
        reads_all(s, keys, a),
        reads_all(s, keys, b),
    ensures
        a == b,
{
    assert forall|i: int| 0 <= i < keys.len() implies a[i] == b[i] by {
        assert(reads_as(s, keys[i], a[i]));
        assert(reads_as(s, keys[i], b[i]));
    }
    assert(a =~= b);
}

proof fn lemma_verified_once(s: EngineView, m: ModelView, a: ReportView, b: ReportView)
    requires
        verifies(s, m, a),
        verifies(s, m, b),
    ensures
        a == b,
{
    reveal(verifies);
    let keys = keys_of(m.entries);
    let x = choose|x: Seq<ValueView>|
        reads_all(s, keys, x) && a == single_report(
            verification_of(
                #[trigger] observed_for(m.entries, keys, x),
            ),
        );
    let y = choose|y: Seq<ValueView>|
        reads_all(s, keys, y) && b == single_report(
            verification_of(
                #[trigger] observed_for(m.entries, keys, y),
            ),
        );
    lemma_reads_once(s, keys, x, y);
}

proof fn lemma_checked_once(
    c: StressView,
    a: RunView,
    key: Seq<u8>,
    value: ValueView,
    b: RunView,
    why: Option<Seq<char>>,
    d: RunView,
    other: Option<Seq<char>>,
)
    requires
        log_sound(a.engine),
        write_checked(c, a, key, value, b, why),
        write_checked(c, a, key, value, d, other),
    ensures
        same_outcome(b, why, d, other),
{
}

proof fn lemma_write_once(
    c: StressView,
    a: RunView,
    op: OperationView,
    kind: OpKind,
    key: Seq<u8>,
    value: ValueView,
    b: RunView,
    why: Option<Seq<char>>,
    d: RunView,
    other: Option<Seq<char>>,
)
    requires
        log_sound(a.engine),
        write_done(c, a, op, kind, key, value, b, why),
        write_done(c, a, op, kind, key, value, d, other),
    ensures
        same_outcome(b, why, d, other),
{
    if written(a.engine, b.engine, c.engine, key, value, Ok::<(), Error>(())) {
        assert(written(a.engine, d.engine, c.engine, key, value, Ok::<(), Error>(())));
        law_write_has_one_outcome(a.engine, b.engine, d.engine, c.engine, key, value);
        lemma_checked_once(
            c,
            noted(a, b.engine, op, kind, key, value),
            key,
            value,
            b,
            why,
            d,
            other,
        );
    } else {
        assert(!written(a.engine, d.engine, c.engine, key, value, Ok::<(), Error>(())));
    }
}

proof fn lemma_compacted_once(c: StressView, a: EngineView, b: EngineView, d: EngineView, r: Result<bool, Error>, q: Result<bool, Error>)
    requires
        log_sound(a),
        compaction_round(a, b, c.engine, a.watermark, r),
        compaction_round(a, d, c.engine, a.watermark, q),
    ensures
        b == d,
        log_sound(b),
{
    if a.version.len() >= 2 {
        match picked(c.engine.compaction, a.version) {
            Some(t) => {
                lemma_compacted_sound(a, c.engine, t, a.watermark);
            },
            None => {},
        }
    }
}

proof fn lemma_performed_once(
    c: StressView,
    op: OperationView,
    a: RunView,
    b: RunView,
    why: Option<Seq<char>>,
    d: RunView,
    other: Option<Seq<char>>,
)
    requires
        log_sound(a.engine),
        performed(c, op, a, b, why),
        performed(c, op, a, d, other),
    ensures
        same_outcome(b, why, d, other),
{
    reveal(performed);
    let n = one_more(a);
    match op {
        OperationView::Put { key, value } => {
            lemma_write_once(c, n, op, OpKind::Put, key, Some(value), b, why, d, other);
        },
        OperationView::Delete { key } => {
            lemma_write_once(c, n, op, OpKind::Delete, key, None, b, why, d, other);
        },
        OperationView::Get { key } => {},
        OperationView::Flush => {
            lemma_flushed_sound(rotated(a.engine), c.engine);
        },
        OperationView::Compact => {
            let r = choose|r: Result<bool, Error>| #[trigger]
                compaction_round(a.engine, b.engine, c.engine, a.engine.watermark, r);
            let q = choose|q: Result<bool, Error>| #[trigger]
                compaction_round(a.engine, d.engine, c.engine, a.engine.watermark, q);
            lemma_compacted_once(c, a.engine, b.engine, d.engine, r, q);
        },
        OperationView::Crash => {},
    }
}

proof fn lemma_attempted_once(
    c: StressView,
    op: OperationView,
    a: RunView,
    b: RunView,
    why: Option<Seq<char>>,
    d: RunView,
    other: Option<Seq<char>>,
)
    requires
        log_sound(a.engine),
        attempted(c, op, a, b, why),
        attempted(c, op, a, d, other),
    ensures
        same_outcome(b, why, d, other),
{
    match bytes_wanted(op) {
        Some(n) => {
            if !no_room(a.machine, n) {
                let m = RunView { machine: machine_after(a.machine, n), ..a };
                lemma_performed_once(c, op, m, b, why, d, other);
            }
        },
        None => {
            lemma_performed_once(c, op, a, b, why, d, other);
        },
    }
}

proof fn lemma_opened_once(
    live: Files,
    durable: Files,
    taken: Image,
    max_levels: usize,
    r: Result<EngineView, ErrorView>,
    q: Result<EngineView, ErrorView>,
)
    requires
        log_durable(live, durable),
        opens(live, durable, taken, max_levels, r),
        opens(live, durable, taken, max_levels, q),
    ensures
        r == q,
        r is Ok ==> log_sound(r->Ok_0),
{
    if r is Ok && q is Ok {
        law_open_has_one_outcome(
            live,
            durable,
            max_levels,
            recovered(log_segments(with_log(live)))->Ok_0,
            r->Ok_0,
            q->Ok_0,
        );
    }
}

proof fn lemma_struck_once(
    c: StressView,
    a: RunView,
    b: RunView,
    why: Option<Seq<char>>,
    d: RunView,
    other: Option<Seq<char>>,
)
    requires
        struck(c, a, b, why),
        struck(c, a, d, other),
    ensures
        b == d,
        why == other,
        why is None ==> log_sound(b.engine),
{
    reveal(struck);
    let disk = a.engine.durable;
    let n = c.engine.compaction.max_levels;
    let r = choose|r: Result<EngineView, ErrorView>| #[trigger]
        opens(disk, disk, all_taken(disk), n, r) && struck_with(c, a, r, b, why);
    let q = choose|q: Result<EngineView, ErrorView>| #[trigger]
        opens(disk, disk, all_taken(disk), n, q) && struck_with(c, a, q, d, other);
    lemma_opened_once(disk, disk, all_taken(disk), n, r, q);
    if r is Ok && c.full_verify_after_crash {
        let engine = r->Ok_0;
        let x = choose|x: ReportView| #[trigger]
            verifies(engine, a.model, x) && reopened_with(a, engine, x, b, why);
        let y = choose|y: ReportView| #[trigger]
            verifies(engine, a.model, y) && reopened_with(a, engine, y, d, other);
        lemma_verified_once(engine, a.model, x, y);
    }
}

proof fn lemma_followed_once(
    c: StressView,
    a: RunView,
    b: RunView,
    stop: Option<Seq<char>>,
    d: RunView,
    other: Option<Seq<char>>,
)
    requires
        log_sound(a.engine),
        followed(c, a, b, stop),
        followed(c, a, d, other),
    ensures
        same_outcome(b, stop, d, other),
{
    reveal(followed);
    let n = checked_for_crash(a);
    if crash_check(a.injector, a.rng).2 {
        let why = choose|why: Option<Seq<char>>| #[trigger]
            struck(c, n, b, why) && stop == match why {
                Some(text) => Some(text),
                None => violation_stop(c, b),
            };
        let reason = choose|reason: Option<Seq<char>>| #[trigger]
            struck(c, n, d, reason) && other == match reason {
                Some(text) => Some(text),
                None => violation_stop(c, d),
            };
        lemma_struck_once(c, n, b, why, d, reason);
    }
}

/// A round of a run has one outcome.
proof fn lemma_round_once(
    c: StressView,
    a: RunView,
    b: RunView,
    stop: Option<Seq<char>>,
    d: RunView,
    other: Option<Seq<char>>,
)
    requires
        log_sound(a.engine),
        round(c, a, b, stop),
        round(c, a, d, other),
    ensures
        same_outcome(b, stop, d, other),
{
    reveal(round);
    let op = drawn_op(c.workload, a.rng).0;
    let n = op_drawn(c, a);
    let (m, why) = choose|m: RunView, why: Option<Seq<char>>| #[trigger]
        attempted(c, op, n, m, why) && match why {
            Some(text) => b == m && stop == Some("Operation failed: "@ + text),
            None => followed(c, m, b, stop),
        };
    let (k, reason) = choose|k: RunView, reason: Option<Seq<char>>| #[trigger]
        attempted(c, op, n, k, reason) && match reason {
            Some(text) => d == k && other == Some("Operation failed: "@ + text),
            None => followed(c, k, d, other),
        };
    lemma_attempted_once(c, op, n, m, why, k, reason);
    if why is None {
        lemma_followed_once(c, m, b, stop, d, other);
    }
}

/// The states that a run goes through are determined.
proof fn lemma_trace_once(c: StressView, x: Seq<RunView>, y: Seq<RunView>, i: int)
    requires
        rounds(c, x),
        rounds(c, y),
        x.len() > 0,
        y.len() > 0,
        x[0] == y[0],
        log_sound(x[0].engine),
        0 <= i < x.len(),
        i < y.len(),
    ensures
        x[i] == y[i],
        log_sound(x[i].engine),
    decreases i,
{
    if i > 0 {
        lemma_trace_once(c, x, y, i - 1);
        assert(goes_on(c, x, i));
        assert(goes_on(c, y, i));
        lemma_round_once(c, x[i - 1], x[i], None, y[i], None);
    }
}

/// A run does not end where it goes on.
proof fn lemma_no_end(c: StressView, seed: u64, x: Seq<RunView>, y: Seq<RunView>, r: StressResultView)
    requires
        rounds(c, x),
        rounds(c, y),
        x.len() > 0,
        x[0] == y[0],
        log_sound(x[0].engine),
        ends(c, seed, x.last(), r),
    ensures
        x.len() >= y.len(),
{
    if x.len() < y.len() {
        reveal(ends);
        let i = x.len() as int;
        lemma_trace_once(c, x, y, i - 1);
        assert(goes_on(c, y, i));
        let a = x.last();
        let (b, text) = choose|b: RunView, text: Seq<char>| #[trigger]
            round(c, a, b, Some(text)) && r == failed_run(seed, b, text);
        lemma_round_once(c, a, b, Some(text), y[i], None);
    }
}

proof fn lemma_ended_once(c: StressView, seed: u64, a: RunView, r: StressResultView, q: StressResultView)
    requires
        log_sound(a.engine),
        ends(c, seed, a, r),
        ends(c, seed, a, q),
    ensures
        r == q,
{
    reveal(ends);
    if going(c, a) {
        let (b, text) = choose|b: RunView, text: Seq<char>| #[trigger]
            round(c, a, b, Some(text)) && r == failed_run(seed, b, text);
        let (d, other) = choose|d: RunView, other: Seq<char>| #[trigger]
            round(c, a, d, Some(other)) && q == failed_run(seed, d, other);
        lemma_round_once(c, a, b, Some(text), d, Some(other));
    } else {
        let x = choose|x: ReportView| #[trigger]
            verifies(a.engine, a.model, x) && r == final_result(seed, a, x);
        let y = choose|y: ReportView| #[trigger]
            verifies(a.engine, a.model, y) && q == final_result(seed, a, y);
        lemma_verified_once(a.engine, a.model, x, y);
    }
}

/// A run gives one result: the same settings, the same start and the same files give the same
/// operations, the same crashes and the same failure.
pub proof fn law_run_reproduces(
    c: StressView,
    seed: u64,
    start: RunView,
    live: Files,
    durable: Files,
    taken: Image,
    r: StressResultView,
    q: StressResultView,
)
    requires
        log_durable(live, durable),
        run_gives(c, seed, start, live, durable, taken, r),
        run_gives(c, seed, start, live, durable, taken, q),
    ensures
        r == q,
{
    reveal(run_gives);
    let n = c.engine.compaction.max_levels;
    let o = choose|o: Result<EngineView, ErrorView>| #[trigger]
        opens(live, durable, taken, n, o) && run_with(c, seed, start, o, r);
    let p = choose|p: Result<EngineView, ErrorView>| #[trigger]
        opens(live, durable, taken, n, p) && run_with(c, seed, start, p, q);
    lemma_opened_once(live, durable, taken, n, o, p);
    if o is Ok {
        let first = RunView { engine: o->Ok_0, ..start };
        let x = choose|x: Seq<RunView>| #[trigger] run_through(c, seed, x, r) && x[0] == first;
        let y = choose|y: Seq<RunView>| #[trigger] run_through(c, seed, y, q) && y[0] == first;
        lemma_no_end(c, seed, x, y, r);
        lemma_no_end(c, seed, y, x, q);
        lemma_trace_once(c, x, y, x.len() - 1);
        lemma_ended_once(c, seed, x.last(), r, q);
    }
}

/// A seed reproduces: two runs from it on the same machine give the same result.
pub proof fn law_seed_reproduces(
    seed: u64,
    c: StressView,
    machine: MachineView,
    r: StressResultView,
    q: StressResultView,
)
    requires
        seed_gives(seed, c, machine, r),
        seed_gives(seed, c, machine, q),
    ensures
        r == q,
{
    law_draws_reproduce(seed, from_seed(seed), c, machine, r, q);
}

/// What is drawn reproduces: two runs that draw the same on the same machine give the same result.
pub proof fn law_draws_reproduce(
    seed: u64,
    draws: DrawsView,
    c: StressView,
    machine: MachineView,
    r: StressResultView,
    q: StressResultView,
)
    requires
        draws_give(seed, draws, c, machine, r),
        draws_give(seed, draws, c, machine, q),
    ensures
        r == q,
{
    let e = arbitrary::<EngineView>();
    let start = fresh_run(draws, c, machine, e);
    let none = Files::empty();
    law_run_reproduces(c, seed, start, none, none, all_taken(none), r, q);
}

proof fn lemma_one_stress(v: StressView, w: StressView, c: ScenarioConfig)
    requires
        scenario_stress(v, c),
        scenario_stress(w, c),
    ensures
        v == w,
{
}

/// A scenario reproduces: two runs of it from a seed on the same machine give the same result and
/// the same faults of the machine.
pub proof fn law_scenario_reproduces(
    seed: u64,
    c: ScenarioConfig,
    machine: MachineView,
    r: ScenarioResult,
    q: ScenarioResult,
)
    requires
        scenario_gives_on(seed, c, machine, r),
        scenario_gives_on(seed, c, machine, q),
    ensures
        r.scenario == q.scenario,
        r.result@ == q.result@,
        r.runtime_fault_events@ == q.runtime_fault_events@,
{
    let v = choose|v: StressView| #[trigger]
        scenario_stress(v, c) && seed_gives(seed, v, machine, r.result@);
    let w = choose|w: StressView| #[trigger]
        scenario_stress(w, c) && seed_gives(seed, w, machine, q.result@);
    lemma_one_stress(v, w, c);
    law_seed_reproduces(seed, v, machine, r.result@, q.result@);
}

/// A replay reproduces: two replays of a simulation report the same failure, or none.
pub proof fn law_replay_reproduces(
    seed: u64,
    c: ScenarioConfig,
    faults: RuntimeFaultConfig,
    r: Option<FailureView>,
    q: Option<FailureView>,
)
    requires
        replay_gives(seed, c, faults, r),
        replay_gives(seed, c, faults, q),
    ensures
        r == q,
{
    let machine = seeded_machine(seed, faults);
    let (v, s) = choose|v: StressView, s: StressResultView| #[trigger]
        scenario_stress(v, c) && #[trigger] seed_gives(seed, v, machine, s) && r == replay_result(
            seed,
            c,
            s,
        );
    let (w, t) = choose|w: StressView, t: StressResultView| #[trigger]
        scenario_stress(w, c) && #[trigger] seed_gives(seed, w, machine, t) && q == replay_result(
            seed,
            c,
            t,
        );
    lemma_one_stress(v, w, c);
    law_seed_reproduces(seed, v, machine, s, t);
}

/// A failure of the simulation shows itself to every replay of a configuration or to none.
pub proof fn law_simulation_is_decided<'a>(seed: u64, target: &'a FailureKind, c: DeltaDebugConfig)
    ensures
        simulation_search(seed, target, c).decided(),
{
    let s = simulation_search(seed, target, c);
    assert forall|x: ShrunkFaultConfig| !(#[trigger] s.yes(x) && s.no(x)) by {
        if s.yes(x) && s.no(x) {
            let k = choose|k: KindView|
                #[trigger] s.replay.may_give(s.seed, x, Some(k)) && same_kind(k, s.target@);
            let o = choose|o: Option<KindView>|
                #[trigger] s.replay.may_give(s.seed, x, o) && !(o is Some && same_kind(
                    o->0,
                    s.target@,
                ));
            lemma_replayed_once(seed, x, Some(k), o);
        }
    }
}

proof fn lemma_replayed_once(
    seed: u64,
    x: ShrunkFaultConfig,
    a: Option<KindView>,
    b: Option<KindView>,
)
    requires
        ScenarioReplay.may_give(seed, x, a),
        ScenarioReplay.may_give(seed, x, b),
    ensures
        a == b,
{
    let f = choose|f: Option<FailureView>| #[trigger]
        simulation_gives(seed, x, f) && a == kind_in(f);
    let g = choose|g: Option<FailureView>| #[trigger]
        simulation_gives(seed, x, g) && b == kind_in(g);
    law_replay_reproduces(
        seed,
        replay_config(x.scenario, x.workload_len),
        faults_of(x),
        f,
        g,
    );
}

/// Shrinking reproduces: shrinking a failure of the simulation twice gives the same configuration
/// and the same report, or nothing both times.
pub proof fn law_shrinking_reproduces(
    c: DeltaDebugConfig,
    report: FailureReport,
    r: Option<DeltaDebugResult>,
    q: Option<DeltaDebugResult>,
)
    requires
        simulation_shrunk(c, report, r),
        simulation_shrunk(c, report, q),
    ensures
        config_of(r) == config_of(q),
        r is Some ==> r->0.report@ == q->0.report@,
{
    law_simulation_is_decided(report.seed, &report.failure_kind, c);
    if r is Some {
        let x = r->0.fault_config;
        law_replay_reproduces(
            report.seed,
            replay_config(x.scenario, x.workload_len),
            faults_of(x),
            Some(r->0.report@),
            Some(q->0.report@),
        );
    }
}

} // verus!
