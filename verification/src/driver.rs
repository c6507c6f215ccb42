//! The stress driver: it applies a workload to a database and to the reference model, lets
//! faults strike, and holds the one against the other.

use crate::codec::copy_bytes;
use crate::disk::{Disk, Image};
use crate::engine::{
    compaction_round, flushed_all, loaded, opened, read_state, rotated, with_log, written,
    EngineConfig, EngineView, LsmEngine,
};
use crate::error::{error_text, Error, ErrorView};
use crate::fault::{
    crash_check, fresh_injector, no_faults, Fault, FaultConfig, FaultInjector, InjectorView,
};
use crate::invariants::{
    check_read_your_writes, empty_report, fresh_checker, full_verification, law_durable_reads,
    law_read_check, observed_for,
    read_check, recorded, single_report, verification_of, CheckerView, InvariantChecker,
    InvariantConfig, InvariantReport, InvariantViolation, ReportView, ViolationView,
};
use crate::memtable::{flatten, opt_view, ValueView};
use crate::model::{
    answers, byte_strings, keys_ascend, keys_of, law_entry_read, law_model_reads_writes,
    law_write_keeps_order, model_after, read_by, value_for, Model, ModelView, OpKind,
};
use crate::recovery::recovered;
use crate::shrink::{MinimalRepro, ReproView};
use crate::rng::{from_seed, DrawsView};
use crate::sim_env::{
    add_up, is_quiet, law_quiet_machine, machine_after, no_room, quiet_machine, sum_up, FaultEvent,
    MachineView, SimEnv,
};
use crate::text::{decimal, hex, push_count, push_decimal, push_hex16, quoted, quoted_text, text_of};
use crate::wal::log_segments;
use crate::workload::{
    drawable, drawn_op, log_after, usual_workload, LogView, Operation, OperationLog, OperationView,
    RecordedView, WorkloadConfig, WorkloadGenerator, WorkloadView,
};
use vstd::prelude::*;

verus! {

/// Configuration for the stress test driver.
#[derive(Clone, Debug)]
pub struct StressConfig {
    /// Workload generation configuration.
    pub workload: WorkloadConfig,
    /// Fault injection configuration.
    pub faults: FaultConfig,
    /// Invariant checking configuration.
    pub invariants: InvariantConfig,
    /// Engine configuration.
    pub engine: EngineConfig,
    /// Maximum number of operations per run.
    pub max_operations: usize,
    /// Maximum number of crash cycles.
    pub max_crashes: usize,
    /// Database path.
    pub db_path: String,
    /// Stop on first invariant violation.
    pub stop_on_violation: bool,
    /// Verify after every write.
    pub verify_after_writes: bool,
    /// Perform full verification after each crash.
    pub full_verify_after_crash: bool,
}

/// A configuration as a mathematical value.
pub struct StressView {
    pub workload: WorkloadView,
    pub faults: FaultConfig,
    pub invariants: InvariantConfig,
    pub engine: EngineConfig,
    pub max_operations: usize,
    pub max_crashes: usize,
    pub db_path: Seq<char>,
    pub stop_on_violation: bool,
    pub verify_after_writes: bool,
    pub full_verify_after_crash: bool,
}

impl View for StressConfig {
    type V = StressView;

    open spec fn view(&self) -> StressView {
        StressView {
            workload: self.workload@,
            faults: self.faults,
            invariants: self.invariants,
            engine: self.engine,
            max_operations: self.max_operations,
            max_crashes: self.max_crashes,
            db_path: self.db_path@,
            stop_on_violation: self.stop_on_violation,
            verify_after_writes: self.verify_after_writes,
            full_verify_after_crash: self.full_verify_after_crash,
        }
    }
}

/// Tells whether a configuration is the usual one but for its workload, faults and limits.
pub open spec fn usual_stress(
    v: StressView,
    workload: WorkloadView,
    faults: FaultConfig,
    max_operations: usize,
    max_crashes: usize,
) -> bool {
    &&& v.workload == workload
    &&& v.faults == faults
    &&& v.invariants.check_durability && v.invariants.check_read_your_writes
    &&& v.invariants.check_phantom_data && v.invariants.check_scan_order
    &&& v.invariants.phantom_check_sample_size == 100
    &&& v.engine.memtable_size == 4 * 1024 * 1024
    &&& v.engine.wal_segment_size == 64 * 1024 * 1024
    &&& v.engine.compaction.l0_compaction_trigger == 4
    &&& v.engine.compaction.base_level_size == 64 * 1024 * 1024
    &&& v.engine.compaction.size_ratio == 10
    &&& v.engine.compaction.max_levels == 7
    &&& v.engine.compaction.sstable_config.block_size == 4096
    &&& v.engine.compaction.sstable_config.use_learned_indexes
    &&& v.max_operations == max_operations
    &&& v.max_crashes == max_crashes
    &&& v.db_path == "/db"@
    &&& v.stop_on_violation
    &&& !v.verify_after_writes
    &&& v.full_verify_after_crash
}

impl Default for StressConfig {
    fn default() -> (r: Self)
        ensures
            usual_stress(r@, usual_workload(40, 40, 10, 10), no_faults(), 1000, 10),
    {
        StressConfig {
            workload: WorkloadConfig::default(),
            faults: FaultConfig::default(),
            invariants: InvariantConfig::default(),
            engine: EngineConfig::default(),
            max_operations: 1000,
            max_crashes: 10,
            db_path: text_of("/db"),
            stop_on_violation: true,
            verify_after_writes: false,
            full_verify_after_crash: true,
        }
    }
}

impl StressConfig {
    /// Creates a stress testing configuration.
    pub fn stress() -> (r: Self)
        ensures
            usual_stress(
                r@,
                usual_workload(35, 35, 15, 15),
                (FaultConfig {
                    crash_probability: 50_000,
                    partial_write_probability: 10_000,
                    min_ops_between_crashes: 5,
                    max_crash_depth: 3,
                    ..no_faults()
                }),
                1000,
                10,
            ),
    {
        StressConfig {
            workload: WorkloadConfig::stress(),
            faults: FaultConfig::stress(),
            ..StressConfig::default()
        }
    }

    /// Creates a crash-heavy testing configuration.
    pub fn crash_heavy() -> (r: Self)
        ensures
            usual_stress(
                r@,
                usual_workload(40, 40, 10, 10),
                (FaultConfig {
                    crash_probability: 150_000,
                    partial_write_probability: 20_000,
                    min_ops_between_crashes: 3,
                    max_crash_depth: 5,
                    ..no_faults()
                }),
                1000,
                100,
            ),
    {
        StressConfig {
            workload: WorkloadConfig::default(),
            faults: FaultConfig::crash_heavy(),
            max_crashes: 100,
            ..StressConfig::default()
        }
    }

    /// Creates a quick test configuration.
    pub fn quick() -> (r: Self)
        ensures
            usual_stress(r@, usual_workload(40, 40, 10, 10), no_faults(), 100, 3),
    {
        StressConfig { max_operations: 100, max_crashes: 3, ..StressConfig::default() }
    }

    /// Copies the configuration.
    pub fn copy(&self) -> (r: Self)
        ensures
            r@ == self@,
    {
        StressConfig {
            workload: self.workload.copy(),
            faults: self.faults,
            invariants: self.invariants,
            engine: self.engine,
            max_operations: self.max_operations,
            max_crashes: self.max_crashes,
            db_path: text_of(self.db_path.as_str()),
            stop_on_violation: self.stop_on_violation,
            verify_after_writes: self.verify_after_writes,
            full_verify_after_crash: self.full_verify_after_crash,
        }
    }
}

/// Result of a stress test run.
#[derive(Debug)]
pub struct StressResult {
    /// Whether the test passed.
    pub passed: bool,
    /// The seed used.
    pub seed: u64,
    /// Total operations performed.
    pub operations: u64,
    /// Total crashes simulated.
    pub crashes: u64,
    /// Invariant report.
    pub invariant_report: InvariantReport,
    /// Operation log for replay.
    pub operation_log: OperationLog,
    /// Fault history.
    pub fault_history: Vec<(u64, Fault)>,
    /// Faults of the machine.
    pub machine_events: Vec<FaultEvent>,
    /// Failure description if any.
    pub failure: Option<String>,
}

/// A result as a mathematical value.
pub struct StressResultView {
    pub passed: bool,
    pub seed: u64,
    pub operations: u64,
    pub crashes: u64,
    pub report: ReportView,
    pub log: LogView,
    pub fault_history: Seq<(u64, Fault)>,
    pub machine_events: Seq<FaultEvent>,
    pub failure: Option<Seq<char>>,
}

/// A text that may be missing as a mathematical value.
pub open spec fn opt_text(t: Option<String>) -> Option<Seq<char>> {
    match t {
        Some(s) => Some(s@),
        None => None,
    }
}

/// A text, or another where it is missing.
pub open spec fn text_or(t: Option<Seq<char>>, other: Seq<char>) -> Seq<char> {
    match t {
        Some(s) => s,
        None => other,
    }
}

impl View for StressResult {
    type V = StressResultView;

    open spec fn view(&self) -> StressResultView {
        StressResultView {
            passed: self.passed,
            seed: self.seed,
            operations: self.operations,
            crashes: self.crashes,
            report: self.invariant_report@,
            log: self.operation_log@,
            fault_history: self.fault_history@,
            machine_events: self.machine_events@,
            failure: opt_text(self.failure),
        }
    }
}

/// The text of a result.
pub open spec fn stress_text(r: StressResultView) -> Seq<char> {
    let tail = decimal(r.operations as nat) + " operations, "@ + decimal(r.crashes as nat)
        + " crashes, seed=0x"@ + hex(r.seed as nat, 16);
    if r.passed {
        "PASS: "@ + tail
    } else {
        "FAIL: "@ + tail + "\n  "@ + text_or(r.failure, "unknown"@)
    }
}

/// The operations of records.
pub open spec fn recorded_ops(s: Seq<RecordedView>) -> Seq<OperationView> {
    s.map_values(|r: RecordedView| r.op)
}

impl StressResult {
    /// Returns a summary of the test result.
    pub fn summary(&self) -> (r: String)
        ensures
            r@ == stress_text(self@),
    {
        let mut r = if self.passed {
            text_of("PASS: ")
        } else {
            text_of("FAIL: ")
        };
        push_decimal(&mut r, self.operations);
        r.push_str(" operations, ");
        push_decimal(&mut r, self.crashes);
        r.push_str(" crashes, seed=0x");
        push_hex16(&mut r, self.seed);
        if !self.passed {
            r.push_str("\n  ");
            match &self.failure {
                Some(f) => r.push_str(f.as_str()),
                None => r.push_str("unknown"),
            }
        }
        assert(r@ =~= stress_text(self@));
        r
    }

    /// Creates a reproduction from this result.
    pub fn to_repro(&self) -> (r: MinimalRepro)
        ensures
            r@ == (ReproView {
                seed: self.seed,
                operations: recorded_ops(self@.log.ops),
                faults: self@.fault_history,
                failure_op: self.operations,
                failure_description: text_or(self@.failure, "unknown failure"@),
            }),
    {
        let description = match &self.failure {
            Some(f) => text_of(f.as_str()),
            None => text_of("unknown failure"),
        };
        let records = self.operation_log.ops();
        let ghost s = recorded_ops(self@.log.ops);
        let mut ops: Vec<Operation> = Vec::new();
        let mut i: usize = 0;
        assert(crate::workload::operations_view(ops@) =~= s.take(0));
        while i < records.len()
            invariant
                i <= records.len(),
                crate::workload::records_view(records@) == self@.log.ops,
                s == recorded_ops(self@.log.ops),
                crate::workload::operations_view(ops@) == s.take(i as int),
            decreases records.len() - i,
        {
            let ghost before = ops@;
            ops.push(records[i].op.copy());
            assert(s[i as int] == records@[i as int].op@) by {
                assert(self@.log.ops[i as int] == records@[i as int]@);
            }
            assert(crate::workload::operations_view(ops@)
                =~= crate::workload::operations_view(before).push(s[i as int]));
            assert(s.take(i + 1) =~= s.take(i as int).push(s[i as int]));
            i += 1;
        }
        assert(s.take(i as int) =~= s);
        MinimalRepro::new(self.seed, self.operations, description.as_str()).with_operations(
            ops,
        ).with_faults(copy_faults(&self.fault_history))
    }
}

/// Copies faults.
pub fn copy_faults(s: &Vec<(u64, Fault)>) -> (r: Vec<(u64, Fault)>)
    ensures
        r@ == s@,
{
    copy_fault_slice(s.as_slice())
}

/// Copies faults.
pub fn copy_fault_slice(s: &[(u64, Fault)]) -> (r: Vec<(u64, Fault)>)
    ensures
        r@ == s@,
{
    let mut r: Vec<(u64, Fault)> = Vec::new();
    let mut i: usize = 0;
    while i < s.len()
        invariant
            i <= s.len(),
            r@ == s@.take(i as int),
        decreases s.len() - i,
    {
        r.push(s[i]);
        i += 1;
        assert(r@ =~= s@.take(i as int));
    }
    assert(s@.take(i as int) =~= s@);
    r
}

/// The text of bytes in a list.
pub open spec fn byte_items(b: Seq<u8>) -> Seq<char>
    decreases b.len(),
{
    if b.len() == 0 {
        Seq::empty()
    } else if b.len() == 1 {
        decimal(b[0] as nat)
    } else {
        byte_items(b.drop_last()) + ", "@ + decimal(b.last() as nat)
    }
}

/// The text of byte strings in a list.
pub open spec fn key_items(keys: Seq<Seq<u8>>) -> Seq<char>
    decreases keys.len(),
{
    if keys.len() == 0 {
        Seq::empty()
    } else if keys.len() == 1 {
        "["@ + byte_items(keys[0]) + "]"@
    } else {
        key_items(keys.drop_last()) + ", "@ + "["@ + byte_items(keys.last()) + "]"@
    }
}

/// The text of a violation.
pub open spec fn violation_item(v: ViolationView) -> Seq<char> {
    "InvariantViolation { op_num: "@ + decimal(v.op_num as nat) + ", invariant: "@ + quoted_text(
        v.name,
    ) + ", details: "@ + quoted_text(v.details) + ", keys: ["@ + key_items(v.keys) + "] }"@
}

/// Appends the text of bytes in a list.
pub fn push_byte_items(s: &mut String, b: &[u8])
    ensures
        final(s)@ == old(s)@ + byte_items(b@),
{
    let ghost before = s@;
    let mut i: usize = 0;
    assert(b@.take(0) =~= Seq::<u8>::empty());
    assert(s@ =~= before + byte_items(b@.take(0)));
    while i < b.len()
        invariant
            i <= b.len(),
            s@ == before + byte_items(b@.take(i as int)),
        decreases b.len() - i,
    {
        if i > 0 {
            s.push_str(", ");
        }
        push_decimal(s, b[i] as u64);
        assert(b@.take(i + 1).drop_last() =~= b@.take(i as int));
        assert(b@.take(i + 1).last() == b@[i as int]);
        i += 1;
        assert(s@ =~= before + byte_items(b@.take(i as int)));
    }
    assert(b@.take(i as int) =~= b@);
}

fn push_key_items(s: &mut String, keys: &Vec<Vec<u8>>)
    ensures
        final(s)@ == old(s)@ + key_items(byte_strings(keys@)),
{
    let ghost before = s@;
    let ghost v = byte_strings(keys@);
    let mut i: usize = 0;
    assert(v.take(0) =~= Seq::<Seq<u8>>::empty());
    assert(s@ =~= before + key_items(v.take(0)));
    while i < keys.len()
        invariant
            i <= keys.len(),
            v == byte_strings(keys@),
            s@ == before + key_items(v.take(i as int)),
        decreases keys.len() - i,
    {
        if i > 0 {
            s.push_str(", ");
        }
        s.push_str("[");
        push_byte_items(s, keys[i].as_slice());
        s.push_str("]");
        assert(v.take(i + 1).drop_last() =~= v.take(i as int));
        assert(v.take(i + 1).last() == keys@[i as int]@);
        i += 1;
        assert(s@ =~= before + key_items(v.take(i as int)));
    }
    assert(v.take(i as int) =~= v);
}

fn push_violation(s: &mut String, v: &InvariantViolation)
    ensures
        final(s)@ == old(s)@ + violation_item(v@),
{
    let ghost before = s@;
    s.push_str("InvariantViolation { op_num: ");
    push_decimal(s, v.op_num);
    s.push_str(", invariant: ");
    let name = quoted(v.invariant.as_str());
    s.push_str(name.as_str());
    s.push_str(", details: ");
    let details = quoted(v.details.as_str());
    s.push_str(details.as_str());
    s.push_str(", keys: [");
    push_key_items(s, &v.keys);
    s.push_str("] }");
    assert(s@ =~= before + violation_item(v@));
}

/// The state of a run.
pub struct RunView {
    /// The state of the generator.
    pub rng: DrawsView,
    /// The reference model.
    pub model: ModelView,
    /// The fault injector.
    pub injector: InjectorView,
    /// The invariant checker.
    pub checker: CheckerView,
    /// The log of operations.
    pub log: LogView,
    /// Operations performed.
    pub op_count: u64,
    /// Crashes simulated.
    pub crash_count: u64,
    /// The machine.
    pub machine: MachineView,
    /// The database.
    pub engine: EngineView,
}

/// Tells what reading a key of a database gives.
pub open spec fn read_gives(s: EngineView, key: Seq<u8>, got: Result<ValueView, ErrorView>) -> bool {
    got == match read_state(s, key, s.sequence) {
        Ok(v) => Ok::<ValueView, ErrorView>(flatten(v)),
        Err(e) => Err(e),
    }
}

/// Tells what reading a key of a database gives where an error counts as nothing.
pub open spec fn reads_as(s: EngineView, key: Seq<u8>, v: ValueView) -> bool {
    exists|got: Result<ValueView, ErrorView>| #[trigger]
        read_gives(s, key, got) && v == match got {
            Ok(x) => x,
            Err(_) => None,
        }
}

/// Tells what reading keys of a database gives where an error counts as nothing.
pub open spec fn reads_all(s: EngineView, keys: Seq<Seq<u8>>, values: Seq<ValueView>) -> bool {
    &&& values.len() == keys.len()
    &&& forall|i: int| 0 <= i < keys.len() ==> reads_as(s, keys[i], #[trigger] values[i])
}

/// Tells what verifying every key of a database gives.
#[verifier::opaque]
pub open spec fn verifies(s: EngineView, model: ModelView, report: ReportView) -> bool {
    exists|actual: Seq<ValueView>|
        reads_all(s, keys_of(model.entries), actual) && report == single_report(
            verification_of(
                #[trigger] observed_for(model.entries, keys_of(model.entries), actual),
            ),
        )
}

/// Files of which all changes were taken.
pub open spec fn all_taken(files: crate::disk::Files) -> Image {
    Image { live: files, durable: files }
}

/// Tells what opening a database gives.
pub open spec fn opens(
    live: crate::disk::Files,
    durable: crate::disk::Files,
    taken: Image,
    max_levels: usize,
    r: Result<EngineView, ErrorView>,
) -> bool {
    let v = loaded(live, max_levels).0;
    let log = recovered(log_segments(with_log(live)));
    match r {
        Ok(e) => {
            &&& v.len() > 0
            &&& log is Ok
            &&& e.taken == taken
            &&& opened(e, live, durable, max_levels, log->Ok_0)
        },
        Err(x) => if v.len() == 0 {
            x == ErrorView::InvalidArgument("a database needs a level"@)
        } else {
            log is Err && x == log->Err_0
        },
    }
}

/// Tells what the check behind a write gives: a check recorded, or the text of an error.
pub open spec fn write_checked(
    c: StressView,
    a: RunView,
    key: Seq<u8>,
    value: ValueView,
    b: RunView,
    refusal: Option<Seq<char>>,
) -> bool {
    if !c.verify_after_writes {
        b == a && refusal is None
    } else {
        exists|got: Result<ValueView, ErrorView>| #[trigger]
            read_gives(a.engine, key, got) && match got {
                Err(e) => b == a && refusal == Some(error_text(e)),
                Ok(v) => {
                    &&& refusal is None
                    &&& b == RunView {
                        checker: recorded(a.checker, a.op_count, read_check(key, value, v)),
                        ..a
                    }
                },
            }
    }
}

/// The run after a write that the database took.
pub open spec fn noted(
    a: RunView,
    engine: EngineView,
    op: OperationView,
    kind: OpKind,
    key: Seq<u8>,
    value: ValueView,
) -> RunView {
    RunView {
        engine,
        model: model_after(a.model, kind, key, value),
        log: log_after(a.log, op, true, None),
        ..a
    }
}

/// Tells what a write does: the database refuses it and nothing is noted, or it takes it and
/// the model and the log note it.
pub open spec fn write_done(
    c: StressView,
    a: RunView,
    op: OperationView,
    kind: OpKind,
    key: Seq<u8>,
    value: ValueView,
    b: RunView,
    refusal: Option<Seq<char>>,
) -> bool {
    ||| exists|e: Error| #[trigger]
        written(a.engine, b.engine, c.engine, key, value, Err::<(), Error>(e)) && b == (RunView {
            engine: b.engine,
            ..a
        }) && refusal == Some(error_text(e@))
    ||| written(a.engine, b.engine, c.engine, key, value, Ok::<(), Error>(())) && write_checked(
        c,
        noted(a, b.engine, op, kind, key, value),
        key,
        value,
        b,
        refusal,
    )
}

/// The run with one operation more counted.
pub open spec fn one_more(a: RunView) -> RunView {
    RunView { op_count: (a.op_count + 1) as u64, ..a }
}

/// Tells what performing an operation does, and the text of an error where one stops it.
#[verifier::opaque]
pub open spec fn performed(
    c: StressView,
    op: OperationView,
    a: RunView,
    b: RunView,
    refusal: Option<Seq<char>>,
) -> bool {
    let n = one_more(a);
    match op {
        OperationView::Put { key, value } => write_done(
            c,
            n,
            op,
            OpKind::Put,
            key,
            Some(value),
            b,
            refusal,
        ),
        OperationView::Delete { key } => write_done(
            c,
            n,
            op,
            OpKind::Delete,
            key,
            None,
            b,
            refusal,
        ),
        OperationView::Get { key } => exists|got: Result<ValueView, ErrorView>| #[trigger]
            read_gives(a.engine, key, got) && match got {
                Err(e) => b == n && refusal == Some(error_text(e)),
                Ok(v) => {
                    &&& refusal is None
                    &&& b == RunView {
                        log: log_after(n.log, op, true, Some(v)),
                        checker: recorded(
                            n.checker,
                            n.op_count,
                            read_check(key, value_for(n.model.entries, key), v),
                        ),
                        ..n
                    }
                },
            },
        OperationView::Flush => {
            let (engine, why) = flushed_all(rotated(a.engine), c.engine);
            &&& b == RunView { engine, ..n }
            &&& refusal == match why {
                Some(e) => Some(error_text(e)),
                None => None,
            }
        },
        OperationView::Compact => {
            &&& refusal is None
            &&& b == RunView { engine: b.engine, ..n }
            &&& exists|r: Result<bool, Error>| #[trigger]
                compaction_round(a.engine, b.engine, c.engine, a.engine.watermark, r)
        },
        OperationView::Crash => b == n && refusal is None,
    }
}

/// The bytes that an operation writes, if it writes.
pub open spec fn bytes_wanted(op: OperationView) -> Option<u64> {
    match op {
        OperationView::Put { key, value } => Some(sum_up(key.len() as u64, value.len() as u64)),
        OperationView::Delete { key } => Some(key.len() as u64),
        _ => None,
    }
}

/// The text of the error of a write for which there is no room.
pub open spec fn full_text() -> Seq<char> {
    error_text(ErrorView::Io("no space left on device"@))
}

/// Tells what an operation does on the machine: the machine refuses a write, and the operation is
/// counted and nothing else, or the operation is performed.
pub open spec fn attempted(
    c: StressView,
    op: OperationView,
    a: RunView,
    b: RunView,
    refusal: Option<Seq<char>>,
) -> bool {
    match bytes_wanted(op) {
        Some(n) => {
            let m = RunView { machine: machine_after(a.machine, n), ..a };
            if no_room(a.machine, n) {
                b == one_more(m) && refusal == Some(full_text())
            } else {
                performed(c, op, m, b, refusal)
            }
        },
        None => performed(c, op, a, b, refusal),
    }
}

/// The state of a run within recovery from a crash.
pub open spec fn recovering(a: RunView, engine: EngineView) -> RunView {
    RunView {
        crash_count: (a.crash_count + 1) as u64,
        injector: InjectorView {
            current_crash_depth: (a.injector.current_crash_depth + 1) as u32,
            ..a.injector
        },
        engine,
        ..a
    }
}

/// Tells what follows the verification of a database that opened again after a crash.
pub open spec fn reopened_with(
    a: RunView,
    engine: EngineView,
    report: ReportView,
    b: RunView,
    refusal: Option<Seq<char>>,
) -> bool {
    let m = recovering(a, engine);
    if report.failed == 0 {
        b == (RunView { injector: a.injector, ..m }) && refusal is None
    } else {
        &&& b == m
        &&& refusal == Some(
            "Durability violation after crash "@ + decimal(m.crash_count as nat) + ": "@ + decimal(
                report.failed,
            ) + " failures"@,
        )
    }
}

/// Tells what follows the opening of a database after a crash.
pub open spec fn struck_with(
    c: StressView,
    a: RunView,
    r: Result<EngineView, ErrorView>,
    b: RunView,
    refusal: Option<Seq<char>>,
) -> bool {
    match r {
        Err(e) => {
            &&& b == recovering(a, a.engine)
            &&& refusal == Some("Failed to reopen after crash: "@ + error_text(e))
        },
        Ok(engine) => {
            if c.full_verify_after_crash {
                exists|report: ReportView| #[trigger]
                    verifies(engine, a.model, report) && reopened_with(
                        a,
                        engine,
                        report,
                        b,
                        refusal,
                    )
            } else {
                b == (RunView { injector: a.injector, ..recovering(a, engine) }) && refusal is None
            }
        },
    }
}

/// Tells what a crash does: the database opens again with what was durable and is verified, or the
/// text of what went wrong.
#[verifier::opaque]
pub open spec fn struck(c: StressView, a: RunView, b: RunView, refusal: Option<Seq<char>>) -> bool {
    let disk = a.engine.durable;
    exists|r: Result<EngineView, ErrorView>| #[trigger]
        opens(disk, disk, all_taken(disk), c.engine.compaction.max_levels, r) && struck_with(
            c,
            a,
            r,
            b,
            refusal,
        )
}

/// What stops a run because of a violation.
pub open spec fn violation_stop(c: StressView, a: RunView) -> Option<Seq<char>> {
    if c.stop_on_violation && a.checker.violations.len() > 0 {
        Some("Invariant violation: Some("@ + violation_item(a.checker.violations[0]) + ")"@)
    } else {
        None
    }
}

/// The state of a run after the check for a crash.
pub open spec fn checked_for_crash(a: RunView) -> RunView {
    let (injector, rng, _) = crash_check(a.injector, a.rng);
    RunView { injector, rng, ..a }
}

/// Tells what follows an operation that was performed: a crash may strike, and a violation may
/// stop the run.
#[verifier::opaque]
pub open spec fn followed(c: StressView, a: RunView, b: RunView, stop: Option<Seq<char>>) -> bool {
    let hit = crash_check(a.injector, a.rng).2;
    let n = checked_for_crash(a);
    if hit {
        exists|why: Option<Seq<char>>| #[trigger]
            struck(c, n, b, why) && stop == match why {
                Some(text) => Some(text),
                None => violation_stop(c, b),
            }
    } else {
        b == n && stop == violation_stop(c, b)
    }
}

/// The state of a run after the next operation was drawn.
pub open spec fn op_drawn(c: StressView, a: RunView) -> RunView {
    RunView { rng: drawn_op(c.workload, a.rng).1, ..a }
}

/// Tells what one round of a run does, and the text of what stops the run, if anything does.
#[verifier::opaque]
pub open spec fn round(c: StressView, a: RunView, b: RunView, stop: Option<Seq<char>>) -> bool {
    let op = drawn_op(c.workload, a.rng).0;
    exists|m: RunView, refusal: Option<Seq<char>>| #[trigger]
        attempted(c, op, op_drawn(c, a), m, refusal) && match refusal {
            Some(text) => b == m && stop == Some("Operation failed: "@ + text),
            None => followed(c, m, b, stop),
        }
}

/// Tells whether a run has reached none of its limits.
pub open spec fn going(c: StressView, a: RunView) -> bool {
    a.op_count < c.max_operations && a.crash_count < c.max_crashes
}

/// Tells whether a run goes through states, one round after the other.
pub open spec fn rounds(c: StressView, trace: Seq<RunView>) -> bool {
    forall|i: int| 0 < i < trace.len() ==> #[trigger] goes_on(c, trace, i)
}

/// Tells whether one round leads to a state of a run from the one before it.
pub open spec fn goes_on(c: StressView, trace: Seq<RunView>, i: int) -> bool {
    going(c, trace[i - 1]) && round(c, trace[i - 1], trace[i], None)
}

/// The result of a run that failed.
pub open spec fn failed_run(seed: u64, a: RunView, text: Seq<char>) -> StressResultView {
    StressResultView {
        passed: false,
        seed,
        operations: a.op_count,
        crashes: a.crash_count,
        report: empty_report(),
        log: a.log,
        fault_history: a.injector.fault_history,
        machine_events: a.machine.events,
        failure: Some(text),
    }
}

/// The result of a run that passed.
pub open spec fn passed_run(seed: u64, a: RunView, report: ReportView) -> StressResultView {
    StressResultView {
        passed: true,
        seed,
        operations: a.op_count,
        crashes: a.crash_count,
        report,
        log: a.log,
        fault_history: a.injector.fault_history,
        machine_events: a.machine.events,
        failure: None,
    }
}

/// The result of a run after its final verification.
pub open spec fn final_result(seed: u64, a: RunView, report: ReportView) -> StressResultView {
    if report.failed == 0 {
        passed_run(seed, a, report)
    } else {
        failed_run(
            seed,
            a,
            "Final verification failed: "@ + decimal(report.failed) + " mismatches"@,
        )
    }
}

/// Tells what a run ends with in its last state: a round that stops it, or the final
/// verification once a limit is reached.
#[verifier::opaque]
pub open spec fn ends(c: StressView, seed: u64, a: RunView, r: StressResultView) -> bool {
    if going(c, a) {
        exists|b: RunView, text: Seq<char>| #[trigger]
            round(c, a, b, Some(text)) && r == failed_run(seed, b, text)
    } else {
        exists|report: ReportView| #[trigger]
            verifies(a.engine, a.model, report) && r == final_result(seed, a, report)
    }
}

/// Tells whether a run goes through states and ends with a result.
pub open spec fn run_through(
    c: StressView,
    seed: u64,
    trace: Seq<RunView>,
    r: StressResultView,
) -> bool {
    trace.len() > 0 && rounds(c, trace) && ends(c, seed, trace.last(), r)
}

/// The result of a run whose database does not open.
pub open spec fn unopened_run(seed: u64, start: RunView, e: ErrorView) -> StressResultView {
    StressResultView {
        passed: false,
        seed,
        operations: 0,
        crashes: 0,
        report: empty_report(),
        log: start.log,
        fault_history: Seq::empty(),
        machine_events: start.machine.events,
        failure: Some("Failed to open database: "@ + error_text(e)),
    }
}

/// Tells what a run gives once the database was opened, or could not be.
pub open spec fn run_with(
    c: StressView,
    seed: u64,
    start: RunView,
    o: Result<EngineView, ErrorView>,
    r: StressResultView,
) -> bool {
    match o {
        Err(e) => r == unopened_run(seed, start, e),
        Ok(engine) => exists|trace: Seq<RunView>| #[trigger]
            run_through(c, seed, trace, r) && trace[0] == (RunView { engine, ..start }),
    }
}

/// Tells what a run gives: the database does not open, or it goes round by round from its first
/// state to an end.
#[verifier::opaque]
pub open spec fn run_gives(
    c: StressView,
    seed: u64,
    start: RunView,
    live: crate::disk::Files,
    durable: crate::disk::Files,
    taken: Image,
    r: StressResultView,
) -> bool {
    exists|o: Result<EngineView, ErrorView>| #[trigger]
        opens(live, durable, taken, c.engine.compaction.max_levels, o) && run_with(
            c,
            seed,
            start,
            o,
            r,
        )
}

/// The main stress test driver.
pub struct StressDriver {
    env: SimEnv,
    config: StressConfig,
    model: Model,
    fault_injector: FaultInjector,
    invariant_checker: InvariantChecker,
    operation_log: OperationLog,
    op_count: u64,
    crash_count: u64,
}

fn read_value(engine: &LsmEngine, key: &[u8]) -> (r: Option<Vec<u8>>)
    requires
        engine.wf(),
    ensures
        reads_as(engine.state(), key@, opt_view(r)),
{
    match engine.get(key) {
        Ok(v) => {
            assert(read_gives(
                engine.state(),
                key@,
                Ok::<ValueView, ErrorView>(opt_view(v)),
            ));
            v
        },
        Err(e) => {
            assert(read_gives(engine.state(), key@, Err::<ValueView, ErrorView>(e@)));
            None
        },
    }
}

fn verify_against(model: &Model, engine: &LsmEngine) -> (r: InvariantReport)
    requires
        model.wf(),
        engine.wf(),
    ensures
        verifies(engine.state(), model@, r@),
        r@.failed <= 1,
        crate::invariants::counts_match(r@),
{
    let get = |key: &[u8]| -> (v: Option<Vec<u8>>)
        requires
            engine.wf(),
        ensures
            reads_as(engine.state(), key@, opt_view(v)),
        { read_value(engine, key) };
    let r = full_verification(model, get);
    proof {
        let keys = keys_of(model@.entries);
        let actual = choose|actual: Seq<ValueView>|
            read_by(get, keys, actual) && r@ == single_report(
                verification_of(#[trigger] observed_for(model@.entries, keys, actual)),
            );
        assert forall|i: int| 0 <= i < keys.len() implies reads_as(
            engine.state(),
            keys[i],
            #[trigger] actual[i],
        ) by {
            assert(answers(get, keys[i], actual[i]));
            let (k, v) = choose|k: &[u8], v: Option<Vec<u8>>|
                k@ == keys[i] && opt_view(v) == actual[i] && #[trigger] call_ensures(
                    get,
                    (k,),
                    v,
                );
            assert(reads_as(engine.state(), k@, opt_view(v)));
        }
        assert(reads_all(engine.state(), keys, actual));
        reveal(verifies);
        let result = verification_of(observed_for(model@.entries, keys, actual));
        assert(crate::invariants::counts_match(empty_report())) by {
            reveal(Seq::filter);
        }
        crate::invariants::law_report_counts(empty_report(), result);
    }
    r
}

fn failure_text(label: &str, e: &Error) -> (r: String)
    ensures
        r@ == label@ + error_text(e@),
{
    let mut r = text_of(label);
    let text = e.message();
    r.push_str(text.as_str());
    r
}

impl StressDriver {
    /// The configuration of the driver.
    pub closed spec fn spec_config(&self) -> StressView {
        self.config@
    }

    /// The seed of the run.
    pub closed spec fn spec_seed(&self) -> u64 {
        self.env.seed
    }

    /// The world of the run.
    pub closed spec fn spec_env(&self) -> SimEnv {
        self.env
    }

    /// The state of the run with a database.
    pub closed spec fn run_view(&self, engine: EngineView) -> RunView {
        RunView {
            rng: self.env.rng.spec_state(),
            model: self.model@,
            injector: self.fault_injector@,
            checker: self.invariant_checker@,
            log: self.operation_log@,
            op_count: self.op_count,
            crash_count: self.crash_count,
            machine: self.env.machine@,
            engine,
        }
    }

    /// Tells whether the counters of the parts agree with the number of operations.
    pub closed spec fn wf(&self) -> bool {
        &&& self.env.wf()
        &&& self.counted()
    }

    spec fn counted(&self) -> bool {
        &&& self.model.wf()
        &&& self.fault_injector.wf()
        &&& self.invariant_checker.wf()
        &&& self.model@.op_count <= self.op_count
        &&& self.operation_log@.seq <= self.op_count
        &&& self.invariant_checker@.total_checks <= self.op_count
        &&& self.fault_injector@.stats.operations_checked <= self.op_count
    }

    /// Creates a new stress driver.
    pub fn new(env: SimEnv, config: StressConfig) -> (r: Self)
        requires
            env.wf(),
        ensures
            r.wf(),
            r.spec_config() == config@,
            r.spec_seed() == env.seed,
            r.spec_env() == env,
            forall|e: EngineView| #[trigger]
                r.run_view(e) == fresh_run(env.rng.spec_state(), config@, env.machine@, e),
    {
        let model = Model::new();
        let fault_injector = FaultInjector::new(config.faults);
        let invariant_checker = InvariantChecker::new(config.invariants);
        let operation_log = OperationLog::new();
        StressDriver {
            env,
            config,
            model,
            fault_injector,
            invariant_checker,
            operation_log,
            op_count: 0,
            crash_count: 0,
        }
    }

    /// Returns the seed for this run.
    pub fn seed(&self) -> (r: u64)
        ensures
            r == self.spec_seed(),
    {
        self.env.seed
    }

    /// Returns the faults of the simulated machine so far.
    pub fn fault_events(&self) -> (r: Vec<FaultEvent>)
        ensures
            r@ == self.spec_env().machine@.events,
    {
        self.env.fault_events()
    }

    fn check_write(
        &mut self,
        engine: &LsmEngine,
        key: &Vec<u8>,
        expected: Option<&Vec<u8>>,
    ) -> (r: Result<(), String>)
        requires
            engine.wf(),
            old(self).invariant_checker.wf(),
            old(self).invariant_checker@.total_checks < u64::MAX,
        ensures
            write_checked(
                old(self).config@,
                old(self).run_view(engine.state()),
                key@,
                crate::invariants::opt_ref_view(expected),
                final(self).run_view(engine.state()),
                text_of_refusal(r),
            ),
            final(self).invariant_checker.wf(),
            final(self).invariant_checker@.total_checks <= old(
                self,
            ).invariant_checker@.total_checks + 1,
            *final(self) == (StressDriver {
                invariant_checker: final(self).invariant_checker,
                ..*old(self)
            }),
    {
        if self.config.verify_after_writes {
            match engine.get(key.as_slice()) {
                Err(e) => {
                    assert(read_gives(
                        engine.state(),
                        key@,
                        Err::<ValueView, ErrorView>(e@),
                    ));
                    return Err(e.message());
                },
                Ok(actual) => {
                    assert(read_gives(
                        engine.state(),
                        key@,
                        Ok::<ValueView, ErrorView>(opt_view(actual)),
                    ));
                    let result = check_read_your_writes(key.as_slice(), expected, &actual);
                    self.invariant_checker.record(self.op_count, &result);
                },
            }
        }
        Ok(())
    }

    /// Executes a single operation.
    #[verifier::rlimit(40)]
    pub fn execute_op(&mut self, engine: &mut LsmEngine, op: &Operation) -> (r: Result<(), String>)
        requires
            old(self).wf(),
            old(self).run_view(old(engine).state()).op_count < u64::MAX,
            old(engine).wf(),
            old(engine).spec_config() == old(self).spec_config().engine,
        ensures
            final(self).wf(),
            final(self).spec_config() == old(self).spec_config(),
            final(self).spec_env() == old(self).spec_env(),
            final(engine).wf(),
            final(engine).spec_config() == old(engine).spec_config(),
            performed(
                old(self).spec_config(),
                op@,
                old(self).run_view(old(engine).state()),
                final(self).run_view(final(engine).state()),
                text_of_refusal(r),
            ),
            ({
                let a = old(self).run_view(old(engine).state());
                let b = final(self).run_view(final(engine).state());
                &&& b.injector == a.injector
                &&& b.op_count == a.op_count + 1
                &&& b.crash_count == a.crash_count
            }),
    {
        proof {
            reveal(performed);
        }
        self.op_count += 1;
        match op {
            Operation::Put { key, value } => {
                match engine.put(key.as_slice(), value.as_slice()) {
                    Err(e) => {
                        return Err(e.message());
                    },
                    Ok(_) => {},
                }
                self.model.put(key.as_slice(), value.as_slice());
                self.operation_log.record_write(op.copy());
                self.check_write(engine, key, Some(value))
            },
            Operation::Get { key } => {
                match engine.get(key.as_slice()) {
                    Err(e) => {
                        assert(read_gives(
                            engine.state(),
                            key@,
                            Err::<ValueView, ErrorView>(e@),
                        ));
                        return Err(e.message());
                    },
                    Ok(actual) => {
                        assert(read_gives(
                            engine.state(),
                            key@,
                            Ok::<ValueView, ErrorView>(opt_view(actual)),
                        ));
                        self.operation_log.record_get(
                            copy_bytes(key.as_slice()),
                            crate::model::copy_value(&actual),
                        );
                        let expected = self.model.get_value(key.as_slice());
                        let result = check_read_your_writes(key.as_slice(), expected, &actual);
                        self.invariant_checker.record(self.op_count, &result);
                    },
                }
                Ok(())
            },
            Operation::Delete { key } => {
                match engine.delete(key.as_slice()) {
                    Err(e) => {
                        return Err(e.message());
                    },
                    Ok(_) => {},
                }
                self.model.delete(key.as_slice());
                self.operation_log.record_write(op.copy());
                self.check_write(engine, key, None)
            },
            Operation::Flush => {
                match engine.flush() {
                    Err(e) => {
                        return Err(e.message());
                    },
                    Ok(_) => {},
                }
                Ok(())
            },
            Operation::Compact => {
                let _ = engine.maybe_compact();
                Ok(())
            },
            Operation::Crash => Ok(()),
        }
    }
}

/// The text of a refusal.
pub open spec fn text_of_refusal(r: Result<(), String>) -> Option<Seq<char>> {
    match r {
        Ok(_) => None,
        Err(s) => Some(s@),
    }
}

/// The state in which a run starts.
pub open spec fn fresh_run(
    rng: DrawsView,
    c: StressView,
    machine: MachineView,
    engine: EngineView,
) -> RunView {
    RunView {
        rng,
        model: ModelView { entries: Seq::empty(), history: Seq::empty(), op_count: 0 },
        injector: fresh_injector(c.faults),
        checker: fresh_checker(c.invariants),
        log: crate::workload::empty_log(),
        op_count: 0,
        crash_count: 0,
        machine,
        engine,
    }
}

proof fn lemma_not_reopened(c: StressView, a: RunView, e: ErrorView)
    requires
        opens(
            a.engine.durable,
            a.engine.durable,
            all_taken(a.engine.durable),
            c.engine.compaction.max_levels,
            Err::<EngineView, ErrorView>(e),
        ),
    ensures
        struck(
            c,
            a,
            recovering(a, a.engine),
            Some("Failed to reopen after crash: "@ + error_text(e)),
        ),
{
    reveal(struck);
}

/// The text of a verification that failed after a crash.
pub open spec fn durability_text(crash: u64, failed: nat) -> Seq<char> {
    "Durability violation after crash "@ + decimal(crash as nat) + ": "@ + decimal(failed)
        + " failures"@
}

proof fn lemma_reopened(c: StressView, a: RunView, engine: EngineView, report: ReportView)
    requires
        opens(
            a.engine.durable,
            a.engine.durable,
            all_taken(a.engine.durable),
            c.engine.compaction.max_levels,
            Ok::<EngineView, ErrorView>(engine),
        ),
        c.full_verify_after_crash ==> verifies(engine, a.model, report),
    ensures
        !c.full_verify_after_crash || report.failed == 0 ==> struck(
            c,
            a,
            RunView { injector: a.injector, ..recovering(a, engine) },
            None,
        ),
        c.full_verify_after_crash && report.failed != 0 ==> struck(
            c,
            a,
            recovering(a, engine),
            Some(durability_text(recovering(a, engine).crash_count, report.failed)),
        ),
{
    reveal(struck);
}

proof fn lemma_round_refused(c: StressView, a: RunView, b: RunView, text: Seq<char>)
    requires
        attempted(c, drawn_op(c.workload, a.rng).0, op_drawn(c, a), b, Some(text)),
    ensures
        round(c, a, b, Some("Operation failed: "@ + text)),
{
    reveal(round);
}

proof fn lemma_round_followed(
    c: StressView,
    a: RunView,
    m: RunView,
    b: RunView,
    stop: Option<Seq<char>>,
)
    requires
        attempted(c, drawn_op(c.workload, a.rng).0, op_drawn(c, a), m, None),
        followed(c, m, b, stop),
    ensures
        round(c, a, b, stop),
{
    reveal(round);
}

proof fn lemma_followed_crash(
    c: StressView,
    m: RunView,
    b: RunView,
    why: Option<Seq<char>>,
)
    requires
        crash_check(m.injector, m.rng).2,
        struck(c, checked_for_crash(m), b, why),
    ensures
        followed(
            c,
            m,
            b,
            match why {
                Some(text) => Some(text),
                None => violation_stop(c, b),
            },
        ),
{
    reveal(followed);
}

proof fn lemma_followed_calm(c: StressView, m: RunView)
    requires
        !crash_check(m.injector, m.rng).2,
    ensures
        followed(c, m, checked_for_crash(m), violation_stop(c, checked_for_crash(m))),
{
    reveal(followed);
}

proof fn lemma_run_stopped(
    c: StressView,
    seed: u64,
    trace: Seq<RunView>,
    b: RunView,
    text: Seq<char>,
)
    requires
        trace.len() > 0,
        rounds(c, trace),
        going(c, trace.last()),
        round(c, trace.last(), b, Some(text)),
    ensures
        run_through(c, seed, trace, failed_run(seed, b, text)),
{
    reveal(ends);
}

proof fn lemma_run_finished(c: StressView, seed: u64, trace: Seq<RunView>, report: ReportView)
    requires
        trace.len() > 0,
        rounds(c, trace),
        !going(c, trace.last()),
        verifies(trace.last().engine, trace.last().model, report),
    ensures
        run_through(
            c,
            seed,
            trace,
            if report.failed == 0 {
                passed_run(seed, trace.last(), report)
            } else {
                failed_run(
                    seed,
                    trace.last(),
                    "Final verification failed: "@ + decimal(report.failed) + " mismatches"@,
                )
            },
        ),
{
    reveal(ends);
}

proof fn lemma_run_not_opened(
    c: StressView,
    seed: u64,
    start: RunView,
    live: crate::disk::Files,
    durable: crate::disk::Files,
    taken: Image,
    e: ErrorView,
)
    requires
        opens(live, durable, taken, c.engine.compaction.max_levels, Err::<EngineView, ErrorView>(e)),
    ensures
        run_gives(c, seed, start, live, durable, taken, unopened_run(seed, start, e)),
{
    reveal(run_gives);
}

/// Tells whether a run goes through states and stops in a last one: that of the round that
/// stops it, or the one in which a limit is reached.
pub open spec fn stops(c: StressView, trace: Seq<RunView>, z: RunView) -> bool {
    &&& trace.len() > 0
    &&& rounds(c, trace)
    &&& if going(c, trace.last()) {
        exists|text: Seq<char>| #[trigger] round(c, trace.last(), z, Some(text))
    } else {
        z == trace.last()
    }
}

/// Tells what a run leaves, the database set apart: the driver is as it was where the database
/// does not open, and otherwise as it is in the last state of the run. A run that reaches a
/// limit leaves the files of its database.
#[verifier::opaque]
pub open spec fn run_leaves(
    c: StressView,
    start: RunView,
    live: crate::disk::Files,
    durable: crate::disk::Files,
    taken: Image,
    b: RunView,
    left: (crate::disk::Files, crate::disk::Files, Image),
) -> bool {
    exists|o: Result<EngineView, ErrorView>| #[trigger]
        opens(live, durable, taken, c.engine.compaction.max_levels, o) && leaves_with(
            c,
            start,
            o,
            b,
            left,
        )
}

/// Tells what a run leaves once the database was opened, or could not be.
pub open spec fn leaves_with(
    c: StressView,
    start: RunView,
    o: Result<EngineView, ErrorView>,
    b: RunView,
    left: (crate::disk::Files, crate::disk::Files, Image),
) -> bool {
    match o {
        Err(e) => b == start,
        Ok(engine) => exists|trace: Seq<RunView>, z: RunView| #[trigger]
            stops(c, trace, z) && trace[0] == (RunView { engine, ..start }) && b == (RunView {
                engine: b.engine,
                ..z
            }) && (!going(c, trace.last()) ==> left == (
                z.engine.live,
                z.engine.durable,
                z.engine.taken,
            )),
    }
}

proof fn lemma_run_opened(
    c: StressView,
    seed: u64,
    start: RunView,
    live: crate::disk::Files,
    durable: crate::disk::Files,
    taken: Image,
    engine: EngineView,
    trace: Seq<RunView>,
    r: StressResultView,
)
    requires
        opens(
            live,
            durable,
            taken,
            c.engine.compaction.max_levels,
            Ok::<EngineView, ErrorView>(engine),
        ),
        run_through(c, seed, trace, r),
        trace[0] == (RunView { engine, ..start }),
    ensures
        run_gives(c, seed, start, live, durable, taken, r),
{
    reveal(run_gives);
}

proof fn lemma_rounds_push(c: StressView, trace: Seq<RunView>, b: RunView)
    requires
        trace.len() > 0,
        rounds(c, trace),
        going(c, trace.last()),
        round(c, trace.last(), b, None),
    ensures
        rounds(c, trace.push(b)),
{
    let t = trace.push(b);
    assert forall|i: int| 0 < i < t.len() implies #[trigger] goes_on(c, t, i) by {
        if i < trace.len() {
            assert(goes_on(c, trace, i));
            assert(t[i] == trace[i] && t[i - 1] == trace[i - 1]);
        } else {
            assert(t[i - 1] == trace.last());
            assert(t[i] == b);
        }
    }
}

impl StressDriver {
    /// Creates a failure result.
    fn fail(&self, message: String) -> (r: StressResult)
        ensures
            forall|e: EngineView|
                r@ == failed_run(self.spec_seed(), #[trigger] self.run_view(e), message@),
    {
        StressResult {
            passed: false,
            seed: self.seed(),
            operations: self.op_count,
            crashes: self.crash_count,
            invariant_report: InvariantReport::new(),
            operation_log: self.operation_log.copy(),
            fault_history: copy_fault_slice(self.fault_injector.fault_history()),
            machine_events: self.env.fault_events(),
            failure: Some(message),
        }
    }

    fn crash(&mut self, engine: LsmEngine) -> (r: Result<LsmEngine, String>)
        requires
            old(self).wf(),
            engine.wf(),
            engine.spec_config() == old(self).config.engine,
            old(self).crash_count < u64::MAX,
            old(self).fault_injector@.current_crash_depth < u32::MAX,
        ensures
            final(self).wf(),
            *final(self) == (StressDriver {
                env: SimEnv { disk: final(self).env.disk, ..old(self).env },
                crash_count: final(self).crash_count,
                fault_injector: final(self).fault_injector,
                ..*old(self)
            }),
            match r {
                Ok(e) => {
                    &&& e.wf()
                    &&& e.spec_config() == old(self).config.engine
                    &&& struck(
                        old(self).config@,
                        old(self).run_view(engine.state()),
                        final(self).run_view(e.state()),
                        None,
                    )
                },
                Err(text) => exists|e: EngineView|
                    struck(
                        old(self).config@,
                        old(self).run_view(engine.state()),
                        #[trigger] final(self).run_view(e),
                        Some(text@),
                    ),
            },
    {
        let ghost a = self.run_view(engine.state());
        let ghost durable = engine.state().durable;
        let ghost levels = self.config.engine.compaction.max_levels;
        let mut disk = engine.into_disk();
        disk.simulate_crash();
        self.crash_count += 1;
        self.fault_injector.enter_recovery();
        let reopened = match LsmEngine::open(disk, self.config.engine) {
            Ok(e) => e,
            Err(err) => {
                proof {
                    assert(opens(durable, durable, all_taken(durable), levels, Err::<EngineView, ErrorView>(err@)));
                    assert(self.run_view(a.engine) == recovering(a, a.engine));
                    lemma_not_reopened(self.config@, a, err@);
                }
                return Err(failure_text("Failed to reopen after crash: ", &err));
            },
        };
        proof {
            assert(opens(durable, durable, all_taken(durable), levels, Ok::<EngineView, ErrorView>(reopened.state())));
            assert(self.run_view(reopened.state()) == recovering(a, reopened.state()));
        }
        if self.config.full_verify_after_crash {
            let report = verify_against(&self.model, &reopened);
            if !report.all_passed() {
                let failures = report.failures();
                assert(failures.len() == report@.failed) by {
                    assert(crate::invariants::result_refs_view(failures@).len()
                        == failures.len());
                }
                let mut text = text_of("Durability violation after crash ");
                push_decimal(&mut text, self.crash_count);
                text.push_str(": ");
                push_count(&mut text, failures.len());
                text.push_str(" failures");
                proof {
                    lemma_reopened(self.config@, a, reopened.state(), report@);
                    assert(text@ =~= durability_text(self.crash_count, report@.failed));
                    assert(struck(
                        self.config@,
                        a,
                        self.run_view(reopened.state()),
                        Some(text@),
                    ));
                }
                let ghost e = reopened.state();
                self.env.disk = reopened.into_disk();
                assert(struck(self.config@, a, self.run_view(e), Some(text@)));
                return Err(text);
            }
            proof {
                lemma_reopened(self.config@, a, reopened.state(), report@);
            }
        } else {
            proof {
                lemma_reopened(self.config@, a, reopened.state(), empty_report());
            }
        }
        self.fault_injector.exit_recovery();
        assert(self.run_view(reopened.state()) == RunView {
            injector: a.injector,
            ..recovering(a, reopened.state())
        });
        Ok(reopened)
    }

    fn play_round(&mut self, engine: LsmEngine, generator: &WorkloadGenerator) -> (r: Result<
        LsmEngine,
        String,
    >)
        requires
            old(self).wf(),
            engine.wf(),
            engine.spec_config() == old(self).config.engine,
            generator.spec_config() == old(self).config.workload@,
            drawable(old(self).config.workload@),
            old(self).op_count < u64::MAX,
            old(self).crash_count < u64::MAX,
        ensures
            final(self).wf(),
            final(self).config@ == old(self).config@,
            final(self).env.seed == old(self).env.seed,
            final(self).op_count == old(self).op_count + 1,
            match r {
                Ok(e) => {
                    &&& e.wf()
                    &&& e.spec_config() == old(self).config.engine
                    &&& round(
                        old(self).config@,
                        old(self).run_view(engine.state()),
                        final(self).run_view(e.state()),
                        None,
                    )
                },
                Err(text) => exists|e: EngineView|
                    round(
                        old(self).config@,
                        old(self).run_view(engine.state()),
                        #[trigger] final(self).run_view(e),
                        Some(text@),
                    ),
            },
    {
        let ghost c = self.config@;
        let ghost a = self.run_view(engine.state());
        let mut engine = engine;
        let op = generator.next_op(&mut self.env.rng);
        assert(self.run_view(engine.state()) == op_drawn(c, a));
        let done = self.attempt(&mut engine, &op);
        let ghost m = self.run_view(engine.state());
        assert(attempted(c, op@, op_drawn(c, a), m, text_of_refusal(done)));
        match done {
            Err(text) => {
                let mut message = text_of("Operation failed: ");
                message.push_str(text.as_str());
                proof {
                    lemma_round_refused(c, a, m, text@);
                    assert(round(c, a, self.run_view(engine.state()), Some(message@)));
                }
                let ghost e = engine.state();
                self.env.disk = engine.into_disk();
                assert(round(c, a, self.run_view(e), Some(message@)));
                return Err(message);
            },
            Ok(_) => {},
        }
        let fault = self.fault_injector.maybe_crash(&mut self.env.rng);
        let ghost n = self.run_view(engine.state());
        assert(n == checked_for_crash(m));
        if fault.is_some() {
            match self.crash(engine) {
                Err(text) => {
                    proof {
                        let e = choose|e: EngineView|
                            struck(c, n, #[trigger] self.run_view(e), Some(text@));
                        lemma_followed_crash(c, m, self.run_view(e), Some(text@));
                        lemma_round_followed(c, a, m, self.run_view(e), Some(text@));
                    }
                    return Err(text);
                },
                Ok(reopened) => {
                    engine = reopened;
                    proof {
                        lemma_followed_crash(c, m, self.run_view(engine.state()), None);
                    }
                },
            }
        } else {
            proof {
                lemma_followed_calm(c, m);
            }
        }
        let ghost b = self.run_view(engine.state());
        proof {
            lemma_round_followed(c, a, m, b, violation_stop(c, b));
        }
        if self.config.stop_on_violation && self.invariant_checker.has_violations() {
            let violations = self.invariant_checker.violations();
            assert(crate::invariants::violations_view(violations@).len() == violations.len());
            let mut message = text_of("Invariant violation: Some(");
            assert(violations@[0]@ == crate::invariants::violations_view(violations@)[0]);
            push_violation(&mut message, &violations[0]);
            message.push_str(")");
            proof {
                assert(violation_stop(c, b) == Some(message@));
                assert(round(c, a, self.run_view(engine.state()), Some(message@)));
            }
            let ghost e = engine.state();
            self.env.disk = engine.into_disk();
            assert(round(c, a, self.run_view(e), Some(message@)));
            return Err(message);
        }
        proof {
            assert(violation_stop(c, b) is None);
        }
        Ok(engine)
    }

    /// Performs an operation on the machine.
    fn attempt(&mut self, engine: &mut LsmEngine, op: &Operation) -> (r: Result<(), String>)
        requires
            old(self).wf(),
            old(self).op_count < u64::MAX,
            old(engine).wf(),
            old(engine).spec_config() == old(self).config.engine,
        ensures
            final(self).wf(),
            final(self).config@ == old(self).config@,
            final(self).env.seed == old(self).env.seed,
            final(self).env.rng == old(self).env.rng,
            final(engine).wf(),
            final(engine).spec_config() == old(engine).spec_config(),
            attempted(
                old(self).config@,
                op@,
                old(self).run_view(old(engine).state()),
                final(self).run_view(final(engine).state()),
                text_of_refusal(r),
            ),
            ({
                let a = old(self).run_view(old(engine).state());
                let b = final(self).run_view(final(engine).state());
                &&& b.injector == a.injector
                &&& b.op_count == a.op_count + 1
                &&& b.crash_count == a.crash_count
            }),
    {
        let ghost a = self.run_view(engine.state());
        let wanted = match op {
            Operation::Put { key, value } => Some(add_up(key.len() as u64, value.len() as u64)),
            Operation::Delete { key } => Some(key.len() as u64),
            _ => None,
        };
        assert(wanted == bytes_wanted(op@));
        if let Some(n) = wanted {
            if !self.env.machine.write(n) {
                self.op_count += 1;
                let text = Error::Io(text_of("no space left on device")).message();
                assert(self.run_view(engine.state()) == one_more(
                    RunView { machine: machine_after(a.machine, n), ..a },
                ));
                return Err(text);
            }
            assert(self.run_view(engine.state()) == RunView {
                machine: machine_after(a.machine, n),
                ..a
            });
        }
        self.execute_op(engine, op)
    }

    proof fn lemma_run(&self, engine: EngineView, trace: Seq<RunView>, r: StressResultView)
        requires
            opens(
                self.env.disk.live(),
                self.env.disk.durable(),
                self.env.disk.taken(),
                self.config.engine.compaction.max_levels,
                Ok::<EngineView, ErrorView>(engine),
            ),
            run_through(self.config@, self.env.seed, trace, r),
            trace[0] == self.run_view(engine),
        ensures
            forall|e: EngineView|
                run_gives(
                    self.spec_config(),
                    self.spec_seed(),
                    #[trigger] self.run_view(e),
                    self.spec_env().disk.live(),
                    self.spec_env().disk.durable(),
                    self.spec_env().disk.taken(),
                    r,
                ),
    {
        assert forall|e: EngineView|
            run_gives(
                self.spec_config(),
                self.spec_seed(),
                #[trigger] self.run_view(e),
                self.spec_env().disk.live(),
                self.spec_env().disk.durable(),
                self.spec_env().disk.taken(),
                r,
            ) by {
            lemma_run_opened(
                self.config@,
                self.env.seed,
                self.run_view(e),
                self.env.disk.live(),
                self.env.disk.durable(),
                self.env.disk.taken(),
                engine,
                trace,
                r,
            );
        }
    }

    proof fn lemma_leaves(
        &self,
        b: StressDriver,
        engine: EngineView,
        trace: Seq<RunView>,
        last: EngineView,
    )
        requires
            opens(
                self.env.disk.live(),
                self.env.disk.durable(),
                self.env.disk.taken(),
                self.config@.engine.compaction.max_levels,
                Ok::<EngineView, ErrorView>(engine),
            ),
            stops(self.config@, trace, b.run_view(last)),
            trace[0] == self.run_view(engine),
            !going(self.config@, trace.last()) ==> b.env.disk.live() == last.live
                && b.env.disk.durable() == last.durable && b.env.disk.taken() == last.taken,
        ensures
            self.left_as(b),
    {
        let left = (b.env.disk.live(), b.env.disk.durable(), b.env.disk.taken());
        assert forall|e: EngineView|
            run_leaves(
                self.spec_config(),
                #[trigger] self.run_view(e),
                self.spec_env().disk.live(),
                self.spec_env().disk.durable(),
                self.spec_env().disk.taken(),
                b.run_view(e),
                left,
            ) by {
            reveal(run_leaves);
            assert(b.run_view(e) == RunView { engine: e, ..b.run_view(last) });
            assert(self.run_view(engine) == RunView { engine, ..self.run_view(e) });
            assert(leaves_with(
                self.config@,
                self.run_view(e),
                Ok::<EngineView, ErrorView>(engine),
                b.run_view(e),
                left,
            ));
        }
    }

    /// Tells whether a run that starts with this driver leaves another one.
    pub open spec fn left_as(&self, b: StressDriver) -> bool {
        forall|e: EngineView|
            run_leaves(
                self.spec_config(),
                #[trigger] self.run_view(e),
                self.spec_env().disk.live(),
                self.spec_env().disk.durable(),
                self.spec_env().disk.taken(),
                b.run_view(e),
                (
                    b.spec_env().disk.live(),
                    b.spec_env().disk.durable(),
                    b.spec_env().disk.taken(),
                ),
            )
    }

    /// Runs the stress test.
    pub fn run(&mut self) -> (r: StressResult)
        requires
            old(self).wf(),
            drawable(old(self).spec_config().workload),
        ensures
            forall|e: EngineView|
                run_gives(
                    old(self).spec_config(),
                    old(self).spec_seed(),
                    #[trigger] old(self).run_view(e),
                    old(self).spec_env().disk.live(),
                    old(self).spec_env().disk.durable(),
                    old(self).spec_env().disk.taken(),
                    r@,
                ),
            old(self).left_as(*final(self)),
            final(self).wf(),
            final(self).spec_config() == old(self).spec_config(),
            final(self).spec_seed() == old(self).spec_seed(),
    {
        let ghost c = self.config@;
        let ghost seed = self.env.seed;
        let ghost live = self.env.disk.live();
        let ghost durable = self.env.disk.durable();
        let ghost taken = self.env.disk.taken();
        let ghost levels = self.config.engine.compaction.max_levels;
        let ghost first = *self;
        let mut disk = Disk::new();
        std::mem::swap(&mut disk, &mut self.env.disk);
        let mut engine = match LsmEngine::open(disk, self.config.engine) {
            Ok(e) => e,
            Err(err) => {
                proof {
                    assert(opens(live, durable, taken, levels, Err::<EngineView, ErrorView>(err@)));
                }
                let r = StressResult {
                    passed: false,
                    seed: self.seed(),
                    operations: 0,
                    crashes: 0,
                    invariant_report: InvariantReport::new(),
                    operation_log: self.operation_log.copy(),
                    fault_history: Vec::new(),
                    machine_events: self.env.fault_events(),
                    failure: Some(failure_text("Failed to open database: ", &err)),
                };
                assert forall|e: EngineView|
                    run_gives(c, seed, #[trigger] first.run_view(e), live, durable, taken, r@) by {
                    lemma_run_not_opened(c, seed, first.run_view(e), live, durable, taken, err@);
                    assert(r@ == unopened_run(seed, first.run_view(e), err@));
                }
                assert(first.left_as(*self)) by {
                    reveal(run_leaves);
                    assert forall|e: EngineView|
                        run_leaves(
                            c,
                            #[trigger] first.run_view(e),
                            live,
                            durable,
                            taken,
                            self.run_view(e),
                            (self.env.disk.live(), self.env.disk.durable(), self.env.disk.taken()),
                        ) by {
                        assert(self.run_view(e) == first.run_view(e));
                        assert(opens(
                            live,
                            durable,
                            taken,
                            c.engine.compaction.max_levels,
                            Err::<EngineView, ErrorView>(err@),
                        ));
                        assert(leaves_with(
                            c,
                            first.run_view(e),
                            Err::<EngineView, ErrorView>(err@),
                            self.run_view(e),
                            (self.env.disk.live(), self.env.disk.durable(), self.env.disk.taken()),
                        ));
                    }
                }
                return r;
            },
        };
        let ghost start = engine.state();
        assert(opens(live, durable, taken, levels, Ok::<EngineView, ErrorView>(start)));
        let generator = WorkloadGenerator::new(self.config.workload.copy());
        let ghost mut trace: Seq<RunView> = seq![self.run_view(start)];
        assert(rounds(c, trace));
        while self.op_count < self.config.max_operations as u64 && self.crash_count
            < self.config.max_crashes as u64
            invariant
                self.wf(),
                self.config@ == c,
                self.env.seed == seed,
                engine.wf(),
                engine.spec_config() == self.config.engine,
                generator.spec_config() == c.workload,
                drawable(c.workload),
                trace.len() > 0,
                trace.last() == self.run_view(engine.state()),
                trace[0] == first.run_view(start),
                rounds(c, trace),
                c == first.config@,
                seed == first.env.seed,
                first == *old(self),
                live == first.env.disk.live(),
                durable == first.env.disk.durable(),
                taken == first.env.disk.taken(),
                levels == c.engine.compaction.max_levels,
                opens(live, durable, taken, levels, Ok::<EngineView, ErrorView>(start)),
            decreases self.config.max_operations as u64 - self.op_count,
        {
            let ghost a = self.run_view(engine.state());
            assert(going(c, a));
            match self.play_round(engine, &generator) {
                Ok(e) => {
                    engine = e;
                    proof {
                        let b = self.run_view(engine.state());
                        lemma_rounds_push(c, trace, b);
                        trace = trace.push(b);
                    }
                },
                Err(text) => {
                    let r = self.fail(text);
                    proof {
                        let e = choose|e: EngineView|
                            round(c, a, #[trigger] self.run_view(e), Some(text@));
                        assert(r@ == failed_run(seed, self.run_view(e), text@));
                        lemma_run_stopped(c, seed, trace, self.run_view(e), text@);
                        first.lemma_run(start, trace, r@);
                        assert(stops(c, trace, self.run_view(e)));
                        first.lemma_leaves(*self, start, trace, e);
                    }
                    return r;
                },
            }
        }
        let ghost last = self.run_view(engine.state());
        assert(!going(c, last));
        let final_report = verify_against(&self.model, &engine);
        if !final_report.all_passed() {
            let failures = final_report.failures();
            assert(failures.len() == final_report@.failed) by {
                assert(crate::invariants::result_refs_view(failures@).len() == failures.len());
            }
            let mut text = text_of("Final verification failed: ");
            push_count(&mut text, failures.len());
            text.push_str(" mismatches");
            let r = self.fail(text);
            proof {
                assert(r@ == failed_run(seed, self.run_view(engine.state()), text@));
                lemma_run_finished(c, seed, trace, final_report@);
                first.lemma_run(start, trace, r@);
            }
            self.env.disk = engine.into_disk();
            proof {
                assert(self.run_view(last.engine) == last);
                first.lemma_leaves(*self, start, trace, last.engine);
            }
            return r;
        }
        let r = StressResult {
            passed: true,
            seed: self.seed(),
            operations: self.op_count,
            crashes: self.crash_count,
            invariant_report: final_report,
            operation_log: self.operation_log.copy(),
            fault_history: copy_fault_slice(self.fault_injector.fault_history()),
            machine_events: self.env.fault_events(),
            failure: None,
        };
        self.env.disk = engine.into_disk();
        proof {
            assert(r@ == passed_run(seed, last, final_report@));
            lemma_run_finished(c, seed, trace, final_report@);
            first.lemma_run(start, trace, r@);
            assert(self.run_view(last.engine) == last);
            first.lemma_leaves(*self, start, trace, last.engine);
        }
        r
    }
}

/// One round counts one operation and at most one crash.
pub proof fn law_round_counts(c: StressView, a: RunView, b: RunView, stop: Option<Seq<char>>)
    requires
        round(c, a, b, stop),
        going(c, a),
    ensures
        b.op_count == a.op_count + 1,
        a.crash_count <= b.crash_count <= a.crash_count + 1,
{
    reveal(round);
    let op = drawn_op(c.workload, a.rng).0;
    let n = op_drawn(c, a);
    let (m, refusal) = choose|m: RunView, refusal: Option<Seq<char>>| #[trigger]
        attempted(c, op, n, m, refusal) && match refusal {
            Some(text) => b == m && stop == Some("Operation failed: "@ + text),
            None => followed(c, m, b, stop),
        };
    match bytes_wanted(op) {
        Some(k) => {
            if !no_room(n.machine, k) {
                let t = RunView { machine: machine_after(n.machine, k), ..n };
                lemma_performed_machine(c, op, t, m, refusal);
            }
        },
        None => {
            lemma_performed_machine(c, op, n, m, refusal);
        },
    }
    if refusal is None {
        lemma_followed_machine(c, m, b, stop);
    }
}

proof fn lemma_trace_counts(c: StressView, trace: Seq<RunView>, i: int)
    requires
        rounds(c, trace),
        0 <= i < trace.len(),
        within_limits(c, trace[0].op_count as nat, trace[0].crash_count as nat),
    ensures
        within_limits(c, trace[i].op_count as nat, trace[i].crash_count as nat),
    decreases i,
{
    if i > 0 {
        lemma_trace_counts(c, trace, i - 1);
        assert(goes_on(c, trace, i));
        law_round_counts(c, trace[i - 1], trace[i], None);
    }
}

/// Tells whether numbers of operations and crashes are not above the limits of a run.
pub open spec fn within_limits(c: StressView, operations: nat, crashes: nat) -> bool {
    operations <= c.max_operations && crashes <= c.max_crashes
}

/// A run that starts within its limits ends within them.
pub proof fn law_run_within_limits(
    c: StressView,
    seed: u64,
    start: RunView,
    live: crate::disk::Files,
    durable: crate::disk::Files,
    taken: Image,
    r: StressResultView,
)
    requires
        run_gives(c, seed, start, live, durable, taken, r),
        within_limits(c, start.op_count as nat, start.crash_count as nat),
    ensures
        within_limits(c, r.operations as nat, r.crashes as nat),
{
    reveal(run_gives);
    reveal(ends);
    let o = choose|o: Result<EngineView, ErrorView>| #[trigger]
        opens(live, durable, taken, c.engine.compaction.max_levels, o) && run_with(
            c,
            seed,
            start,
            o,
            r,
        );
    if o is Ok {
        let engine = o->Ok_0;
        let trace = choose|trace: Seq<RunView>| #[trigger]
            run_through(c, seed, trace, r) && trace[0] == (RunView { engine, ..start });
        let a = trace.last();
        lemma_trace_counts(c, trace, trace.len() - 1);
        if going(c, a) {
            let (b, text) = choose|b: RunView, text: Seq<char>| #[trigger]
                round(c, a, b, Some(text)) && r == failed_run(seed, b, text);
            law_round_counts(c, a, b, Some(text));
        }
    }
}

/// A run that passed has reached one of its limits, and every key that was written reads what
/// the model says.
pub proof fn law_passed_run(
    c: StressView,
    seed: u64,
    start: RunView,
    live: crate::disk::Files,
    durable: crate::disk::Files,
    taken: Image,
    r: StressResultView,
)
    requires
        run_gives(c, seed, start, live, durable, taken, r),
        r.passed,
    ensures
        r.operations >= c.max_operations || r.crashes >= c.max_crashes,
        r.failure is None,
        r.report.failed == 0,
        exists|a: RunView| #[trigger]
            verifies(a.engine, a.model, r.report) && a.op_count == r.operations && a.crash_count
                == r.crashes && a.log == r.log,
{
    reveal(run_gives);
    reveal(ends);
    let o = choose|o: Result<EngineView, ErrorView>| #[trigger]
        opens(live, durable, taken, c.engine.compaction.max_levels, o) && run_with(
            c,
            seed,
            start,
            o,
            r,
        );
    let engine = o->Ok_0;
    let trace = choose|trace: Seq<RunView>| #[trigger]
        run_through(c, seed, trace, r) && trace[0] == (RunView { engine, ..start });
    let a = trace.last();
    if going(c, a) {
        let (b, text) = choose|b: RunView, text: Seq<char>| #[trigger]
            round(c, a, b, Some(text)) && r == failed_run(seed, b, text);
    } else {
        let report = choose|report: ReportView| #[trigger]
            verifies(a.engine, a.model, report) && r == final_result(seed, a, report);
        assert(verifies(a.engine, a.model, r.report));
    }
}

/// A run that failed says why.
pub proof fn law_failed_run(
    c: StressView,
    seed: u64,
    start: RunView,
    live: crate::disk::Files,
    durable: crate::disk::Files,
    taken: Image,
    r: StressResultView,
)
    requires
        run_gives(c, seed, start, live, durable, taken, r),
        !r.passed,
    ensures
        r.failure is Some,
        r.seed == seed,
{
    reveal(run_gives);
    reveal(ends);
}

proof fn lemma_performed_machine(
    c: StressView,
    op: OperationView,
    a: RunView,
    b: RunView,
    refusal: Option<Seq<char>>,
)
    requires
        performed(c, op, a, b, refusal),
    ensures
        b.machine == a.machine,
        b.op_count == one_more(a).op_count,
        b.crash_count == a.crash_count,
{
    reveal(performed);
}

proof fn lemma_followed_machine(c: StressView, a: RunView, b: RunView, stop: Option<Seq<char>>)
    requires
        followed(c, a, b, stop),
    ensures
        b.machine == a.machine,
        b.op_count == a.op_count,
        b.crash_count == a.crash_count || b.crash_count == (a.crash_count + 1) as u64,
{
    reveal(followed);
    reveal(struck);
}

/// A round strikes the machine with what the next write draws, if the operation writes, and with
/// nothing else.
pub proof fn law_round_strikes(c: StressView, a: RunView, b: RunView, stop: Option<Seq<char>>)
    requires
        round(c, a, b, stop),
    ensures
        b.machine == match bytes_wanted(drawn_op(c.workload, a.rng).0) {
            Some(n) => machine_after(a.machine, n),
            None => a.machine,
        },
{
    reveal(round);
    let op = drawn_op(c.workload, a.rng).0;
    let n = op_drawn(c, a);
    let (m, refusal) = choose|m: RunView, refusal: Option<Seq<char>>| #[trigger]
        attempted(c, op, n, m, refusal) && match refusal {
            Some(text) => b == m && stop == Some("Operation failed: "@ + text),
            None => followed(c, m, b, stop),
        };
    match bytes_wanted(op) {
        Some(k) => {
            if !no_room(n.machine, k) {
                let t = RunView { machine: machine_after(n.machine, k), ..n };
                lemma_performed_machine(c, op, t, m, refusal);
            }
        },
        None => {
            lemma_performed_machine(c, op, n, m, refusal);
        },
    }
    if refusal is None {
        lemma_followed_machine(c, m, b, stop);
    }
}

/// A write for which the disk has no room stops a run, and leaves the database as it was.
pub proof fn law_full_disk_stops(
    c: StressView,
    a: RunView,
    b: RunView,
    stop: Option<Seq<char>>,
    n: u64,
)
    requires
        round(c, a, b, stop),
        bytes_wanted(drawn_op(c.workload, a.rng).0) == Some(n),
        no_room(a.machine, n),
    ensures
        stop == Some("Operation failed: "@ + full_text()),
        b.engine == a.engine,
        b.model == a.model,
        b.machine.events == a.machine.events.push(FaultEvent::DiskFull { wanted: n }),
{
    reveal(round);
    assert(a.machine.events + seq![FaultEvent::DiskFull { wanted: n }] =~= a.machine.events.push(
        FaultEvent::DiskFull { wanted: n },
    ));
}

proof fn lemma_quiet_trace(c: StressView, trace: Seq<RunView>, i: int)
    requires
        rounds(c, trace),
        0 <= i < trace.len(),
        is_quiet(trace[0].machine.faults),
    ensures
        trace[i].machine.faults == trace[0].machine.faults,
        trace[i].machine.events == trace[0].machine.events,
    decreases i,
{
    if i > 0 {
        lemma_quiet_trace(c, trace, i - 1);
        assert(goes_on(c, trace, i));
        lemma_quiet_round(c, trace[i - 1], trace[i], None);
    }
}

proof fn lemma_quiet_round(c: StressView, a: RunView, b: RunView, stop: Option<Seq<char>>)
    requires
        round(c, a, b, stop),
        is_quiet(a.machine.faults),
    ensures
        b.machine.faults == a.machine.faults,
        b.machine.events == a.machine.events,
{
    law_round_strikes(c, a, b, stop);
    if let Some(n) = bytes_wanted(drawn_op(c.workload, a.rng).0) {
        law_quiet_machine(a.machine, n);
        assert(a.machine.events + Seq::<FaultEvent>::empty() =~= a.machine.events);
    }
}

/// A run on a machine whose faults are disabled lists no fault of the machine, whatever it draws.
pub proof fn law_quiet_run(
    c: StressView,
    seed: u64,
    start: RunView,
    live: crate::disk::Files,
    durable: crate::disk::Files,
    taken: Image,
    r: StressResultView,
)
    requires
        run_gives(c, seed, start, live, durable, taken, r),
        is_quiet(start.machine.faults),
    ensures
        r.machine_events == start.machine.events,
{
    reveal(run_gives);
    let o = choose|o: Result<EngineView, ErrorView>| #[trigger]
        opens(live, durable, taken, c.engine.compaction.max_levels, o) && run_with(
            c,
            seed,
            start,
            o,
            r,
        );
    if o is Ok {
        let engine = o->Ok_0;
        let trace = choose|trace: Seq<RunView>| #[trigger]
            run_through(c, seed, trace, r) && trace[0] == (RunView { engine, ..start });
        let a = trace.last();
        lemma_quiet_trace(c, trace, trace.len() - 1);
        reveal(ends);
        if going(c, a) {
            let (b, text) = choose|b: RunView, text: Seq<char>| #[trigger]
                round(c, a, b, Some(text)) && r == failed_run(seed, b, text);
            lemma_quiet_round(c, a, b, Some(text));
        }
    }
}

/// Tells what a run from a seed gives on a machine.
pub open spec fn seed_gives(
    seed: u64,
    c: StressView,
    machine: MachineView,
    r: StressResultView,
) -> bool {
    draws_give(seed, from_seed(seed), c, machine, r)
}

/// Tells what a run gives on a machine, by what it draws.
pub open spec fn draws_give(
    seed: u64,
    draws: DrawsView,
    c: StressView,
    machine: MachineView,
    r: StressResultView,
) -> bool {
    forall|e: EngineView|
        run_gives(
            c,
            seed,
            #[trigger] fresh_run(draws, c, machine, e),
            crate::disk::Files::empty(),
            crate::disk::Files::empty(),
            all_taken(crate::disk::Files::empty()),
            r,
        )
}

/// Runs a stress test in a world.
pub fn run_in(env: SimEnv, config: StressConfig) -> (r: StressResult)
    requires
        env.wf(),
        drawable(config@.workload),
    ensures
        forall|seed: u64, draws: DrawsView, machine: MachineView| #[trigger]
            env.fresh_from(seed, draws, machine) ==> draws_give(
                seed,
                draws,
                config@,
                machine,
                r@,
            ),
{
    let ghost c = config@;
    let ghost world = env;
    let mut driver = StressDriver::new(env, config);
    let ghost d = driver;
    let r = driver.run();
    proof {
        assert forall|seed: u64, draws: DrawsView, machine: MachineView| #[trigger]
            world.fresh_from(seed, draws, machine) implies draws_give(
            seed,
            draws,
            c,
            machine,
            r@,
        ) by {
            assert forall|e: EngineView|
                run_gives(
                    c,
                    seed,
                    #[trigger] fresh_run(draws, c, machine, e),
                    crate::disk::Files::empty(),
                    crate::disk::Files::empty(),
                    all_taken(crate::disk::Files::empty()),
                    r@,
                ) by {
                assert(d.run_view(e) == fresh_run(draws, c, machine, e));
            }
        }
    }
    r
}

/// Runs a stress test with the given seed.
pub fn run_stress_test(seed: u64, config: StressConfig) -> (r: StressResult)
    requires
        drawable(config@.workload),
    ensures
        seed_gives(seed, config@, quiet_machine(), r@),
{
    run_in(SimEnv::new(seed), config)
}

/// Runs a stress test with each of the given seeds.
pub fn run_stress_tests(seeds: &Vec<u64>, config: StressConfig) -> (r: Vec<StressResult>)
    requires
        drawable(config@.workload),
    ensures
        r.len() == seeds.len(),
        forall|i: int|
            0 <= i < r.len() ==> seed_gives(
                seeds@[i],
                config@,
                quiet_machine(),
                (#[trigger] r@[i])@,
            ),
{
    let mut r: Vec<StressResult> = Vec::new();
    let mut i: usize = 0;
    while i < seeds.len()
        invariant
            i <= seeds.len(),
            r.len() == i,
            drawable(config@.workload),
            forall|k: int|
                0 <= k < i ==> seed_gives(
                    seeds@[k],
                    config@,
                    quiet_machine(),
                    (#[trigger] r@[k])@,
                ),
        decreases seeds.len() - i,
    {
        r.push(run_stress_test(seeds[i], config.copy()));
        i += 1;
    }
    r
}

/// Replays a specific seed with the given configuration.
pub fn replay_seed(seed: u64, config: StressConfig) -> (r: StressResult)
    requires
        drawable(config@.workload),
    ensures
        seed_gives(seed, config@, quiet_machine(), r@),
{
    run_stress_test(seed, config)
}

/// Generates a range of seeds for stress testing, which wraps round at the end of the numbers.
pub fn seed_range(base: u64, count: u64) -> (r: Vec<u64>)
    ensures
        r.len() == count,
        forall|i: int| 0 <= i < count ==> (#[trigger] r@[i]) as int == (base + i) % 0x1_0000_0000_0000_0000,
{
    let mut r: Vec<u64> = Vec::new();
    let mut i: u64 = 0;
    while i < count
        invariant
            i <= count,
            r.len() == i,
            forall|k: int|
                0 <= k < i ==> (#[trigger] r@[k]) as int == (base + k) % 0x1_0000_0000_0000_0000,
        decreases count - i,
    {
        r.push(base.wrapping_add(i));
        i += 1;
    }
    r
}

/// Verification against a model fails nowhere exactly where every key of the model reads the value
/// that the model lists.
pub proof fn law_verified_reads(s: EngineView, model: ModelView, report: ReportView)
    requires
        verifies(s, model, report),
        keys_ascend(model.entries),
    ensures
        report.failed == 0 <==> forall|i: int|
            0 <= i < model.entries.len() ==> reads_as(
                s,
                (#[trigger] model.entries[i]).0,
                model.entries[i].1,
            ),
{
    reveal(verifies);
    let e = model.entries;
    let actual = choose|actual: Seq<ValueView>|
        reads_all(s, keys_of(e), actual) && report == single_report(
            verification_of(#[trigger] observed_for(e, keys_of(e), actual)),
        );
    law_durable_reads(e, actual);
    assert forall|i: int| 0 <= i < e.len() implies (reads_as(
        s,
        (#[trigger] e[i]).0,
        e[i].1,
    ) <==> e[i].1 == actual[i]) by {
        assert(keys_of(e)[i] == e[i].0);
        assert(reads_as(s, keys_of(e)[i], actual[i]));
    }
    if report.failed == 0 {
        assert forall|i: int| 0 <= i < e.len() implies reads_as(
            s,
            (#[trigger] e[i]).0,
            e[i].1,
        ) by {
            assert(e[i].1 == actual[i]);
        }
    }
    if forall|i: int| 0 <= i < e.len() ==> reads_as(s, (#[trigger] e[i]).0, e[i].1) {
        assert forall|i: int| 0 <= i < e.len() implies (#[trigger] e[i]).1 == actual[i] by {
            assert(reads_as(s, e[i].0, e[i].1));
        }
    }
}

/// Tells whether a run became another by a write that went through: the model expects the value of
/// the key, and nothing else of other keys; the operation is in the log.
pub open spec fn write_expected(
    a: RunView,
    b: RunView,
    op: OperationView,
    key: Seq<u8>,
    value: ValueView,
    other: Seq<u8>,
) -> bool {
    &&& value_for(b.model.entries, key) == value
    &&& other != key ==> value_for(b.model.entries, other) == value_for(a.model.entries, other)
    &&& b.model.history.len() == a.model.history.len() + 1
    &&& b.log.ops.len() == a.log.ops.len() + 1
    &&& b.log.ops.last().op == op
    &&& b.log.ops.last().success
}

/// A put or a delete that is done changes what the model expects of its key, and of no other, and
/// is logged. One that the database refuses changes neither the model nor the log.
pub proof fn law_writes_expected(
    c: StressView,
    op: OperationView,
    a: RunView,
    b: RunView,
    refusal: Option<Seq<char>>,
    other: Seq<u8>,
)
    requires
        performed(c, op, a, b, refusal),
        keys_ascend(a.model.entries),
        op is Put || op is Delete,
    ensures
        keys_ascend(b.model.entries),
        op matches OperationView::Put { key, value } ==> {
            ||| write_expected(a, b, op, key, Some(value), other) && written(
                a.engine,
                b.engine,
                c.engine,
                key,
                Some(value),
                Ok::<(), Error>(()),
            )
            ||| b.model == a.model && b.log == a.log && refusal is Some
        },
        op matches OperationView::Delete { key } ==> {
            ||| write_expected(a, b, op, key, None, other) && written(
                a.engine,
                b.engine,
                c.engine,
                key,
                None,
                Ok::<(), Error>(()),
            )
            ||| b.model == a.model && b.log == a.log && refusal is Some
        },
        b.crash_count == a.crash_count,
        b.injector == a.injector,
{
    reveal(performed);
    let (key, value) = match op {
        OperationView::Put { key, value } => (key, Some(value)),
        _ => (op->Delete_key, None),
    };
    law_write_keeps_order(a.model.entries, key, value);
    law_model_reads_writes(a.model.entries, key, value, key);
    law_model_reads_writes(a.model.entries, key, value, other);
}

/// A get changes neither the database nor the model. Where it reads anything but what the model
/// lists for the key, nothing where the model lists nothing, a violation is recorded that names the
/// key, and none otherwise.
pub proof fn law_wrong_read_recorded(
    c: StressView,
    key: Seq<u8>,
    a: RunView,
    b: RunView,
    refusal: Option<Seq<char>>,
    i: int,
)
    requires
        performed(c, OperationView::Get { key }, a, b, refusal),
        keys_ascend(a.model.entries),
    ensures
        b.engine == a.engine,
        b.model == a.model,
        refusal is None ==> {
            let got = flatten(read_state(a.engine, key, a.engine.sequence)->Ok_0);
            let n = a.checker.violations.len();
            &&& read_state(a.engine, key, a.engine.sequence) is Ok
            &&& 0 <= i < a.model.entries.len() && a.model.entries[i].0 == key ==> (
            b.checker.violations.len() == n <==> got == a.model.entries[i].1)
            &&& (forall|j: int|
                0 <= j < a.model.entries.len() ==> (#[trigger] a.model.entries[j]).0 != key) ==> (
            b.checker.violations.len() == n <==> got is None)
            &&& b.checker.violations.len() != n ==> b.checker.violations.len() == n + 1
                && b.checker.violations[n as int].keys == seq![key]
            &&& b.log.ops.last().op == (OperationView::Get { key })
            &&& b.log.ops.last().get_result == Some(got)
        },
        refusal is Some ==> read_state(a.engine, key, a.engine.sequence) is Err,
{
    reveal(performed);
    law_entry_read(a.model.entries, key);
    let got = choose|got: Result<ValueView, ErrorView>| #[trigger]
        read_gives(a.engine, key, got) && match got {
            Err(e) => b == one_more(a) && refusal == Some(error_text(e)),
            Ok(v) => {
                &&& refusal is None
                &&& b == RunView {
                    log: log_after(one_more(a).log, OperationView::Get { key }, true, Some(v)),
                    checker: recorded(
                        one_more(a).checker,
                        one_more(a).op_count,
                        read_check(key, value_for(one_more(a).model.entries, key), v),
                    ),
                    ..one_more(a)
                }
            },
        };
    if got is Ok {
        law_read_check(key, value_for(a.model.entries, key), got->Ok_0);
    }
}

/// A flush or a compaction changes nothing but the database.
pub proof fn law_upkeep_changes_database_only(
    c: StressView,
    op: OperationView,
    a: RunView,
    b: RunView,
    refusal: Option<Seq<char>>,
)
    requires
        performed(c, op, a, b, refusal),
        op is Flush || op is Compact,
    ensures
        b == (RunView { engine: b.engine, op_count: b.op_count, ..a }),
        op is Compact ==> refusal is None,
{
    reveal(performed);
}

/// After a crash the database is opened from what was durable; the model and the log stay. Where
/// everything is verified the run goes on exactly where every key that was written reads what the
/// model says.
pub proof fn law_crash_verified(
    c: StressView,
    a: RunView,
    b: RunView,
    refusal: Option<Seq<char>>,
)
    requires
        struck(c, a, b, refusal),
        keys_ascend(a.model.entries),
        a.crash_count < u64::MAX,
    ensures
        b.crash_count == a.crash_count + 1,
        b.model == a.model,
        b.log == a.log,
        b.op_count == a.op_count,
        refusal is None ==> {
            let files = a.engine.durable;
            let log = recovered(log_segments(with_log(files)));
            &&& log is Ok
            &&& opened(b.engine, files, files, c.engine.compaction.max_levels, log->Ok_0)
            &&& b.injector == a.injector
        },
        c.full_verify_after_crash && refusal is None ==> forall|i: int|
            0 <= i < a.model.entries.len() ==> reads_as(
                b.engine,
                (#[trigger] a.model.entries[i]).0,
                a.model.entries[i].1,
            ),
        c.full_verify_after_crash && b.engine != a.engine && refusal is Some ==> exists|i: int|
            0 <= i < a.model.entries.len() && !reads_as(
                b.engine,
                (#[trigger] a.model.entries[i]).0,
                a.model.entries[i].1,
            ),
        !c.full_verify_after_crash && b.engine != a.engine ==> refusal is None,
{
    reveal(struck);
    let disk = a.engine.durable;
    let r = choose|r: Result<EngineView, ErrorView>| #[trigger]
        opens(disk, disk, all_taken(disk), c.engine.compaction.max_levels, r) && struck_with(
            c,
            a,
            r,
            b,
            refusal,
        );
    if let Ok(engine) = r {
        if c.full_verify_after_crash {
            let report = choose|report: ReportView| #[trigger]
                verifies(engine, a.model, report) && reopened_with(a, engine, report, b, refusal);
            law_verified_reads(engine, a.model, report);
        }
    }
}

proof fn lemma_performed_ascends(
    c: StressView,
    op: OperationView,
    a: RunView,
    b: RunView,
    refusal: Option<Seq<char>>,
)
    requires
        performed(c, op, a, b, refusal),
        keys_ascend(a.model.entries),
    ensures
        keys_ascend(b.model.entries),
{
    match op {
        OperationView::Put { .. } => {
            law_writes_expected(c, op, a, b, refusal, Seq::empty());
        },
        OperationView::Delete { .. } => {
            law_writes_expected(c, op, a, b, refusal, Seq::empty());
        },
        OperationView::Get { key } => {
            law_wrong_read_recorded(c, key, a, b, refusal, 0);
        },
        _ => {
            reveal(performed);
        },
    }
}

proof fn lemma_round_ascends(c: StressView, a: RunView, b: RunView, stop: Option<Seq<char>>)
    requires
        round(c, a, b, stop),
        keys_ascend(a.model.entries),
    ensures
        keys_ascend(b.model.entries),
{
    reveal(round);
    let op = drawn_op(c.workload, a.rng).0;
    let n = op_drawn(c, a);
    let (m, refusal) = choose|m: RunView, refusal: Option<Seq<char>>| #[trigger]
        attempted(c, op, n, m, refusal) && match refusal {
            Some(text) => b == m && stop == Some("Operation failed: "@ + text),
            None => followed(c, m, b, stop),
        };
    match bytes_wanted(op) {
        Some(k) => {
            if !no_room(n.machine, k) {
                let t = RunView { machine: machine_after(n.machine, k), ..n };
                lemma_performed_ascends(c, op, t, m, refusal);
            }
        },
        None => {
            lemma_performed_ascends(c, op, n, m, refusal);
        },
    }
    if refusal is None {
        reveal(followed);
        reveal(struck);
    }
}

proof fn lemma_trace_ascends(c: StressView, trace: Seq<RunView>, i: int)
    requires
        rounds(c, trace),
        0 <= i < trace.len(),
        keys_ascend(trace[0].model.entries),
    ensures
        keys_ascend(trace[i].model.entries),
    decreases i,
{
    if i > 0 {
        lemma_trace_ascends(c, trace, i - 1);
        assert(goes_on(c, trace, i));
        lemma_round_ascends(c, trace[i - 1], trace[i], None);
    }
}

/// At the end of a run that passed every key that was written reads what the model says.
pub proof fn law_passed_run_reads(
    c: StressView,
    seed: u64,
    start: RunView,
    live: crate::disk::Files,
    durable: crate::disk::Files,
    taken: Image,
    r: StressResultView,
)
    requires
        run_gives(c, seed, start, live, durable, taken, r),
        r.passed,
        keys_ascend(start.model.entries),
    ensures
        exists|a: RunView| #[trigger]
            model_holds(a) && a.op_count == r.operations && a.crash_count == r.crashes && a.log
                == r.log,
{
    reveal(run_gives);
    reveal(ends);
    let o = choose|o: Result<EngineView, ErrorView>| #[trigger]
        opens(live, durable, taken, c.engine.compaction.max_levels, o) && run_with(
            c,
            seed,
            start,
            o,
            r,
        );
    let engine = o->Ok_0;
    let trace = choose|trace: Seq<RunView>| #[trigger]
        run_through(c, seed, trace, r) && trace[0] == (RunView { engine, ..start });
    let a = trace.last();
    lemma_trace_ascends(c, trace, trace.len() - 1);
    if going(c, a) {
        let (b, text) = choose|b: RunView, text: Seq<char>| #[trigger]
            round(c, a, b, Some(text)) && r == failed_run(seed, b, text);
    } else {
        let report = choose|report: ReportView| #[trigger]
            verifies(a.engine, a.model, report) && r == final_result(seed, a, report);
        law_verified_reads(a.engine, a.model, report);
        assert(model_holds(a));
    }
}

/// Tells whether every key of the model of a run reads what the model says.
pub open spec fn model_holds(a: RunView) -> bool {
    forall|i: int|
        0 <= i < a.model.entries.len() ==> reads_as(
            a.engine,
            (#[trigger] a.model.entries[i]).0,
            a.model.entries[i].1,
        )
}

/// A violation stops a run exactly where it is to stop on violations.
pub proof fn law_violation_stops(c: StressView, a: RunView)
    ensures
        violation_stop(c, a) is Some <==> c.stop_on_violation && a.checker.violations.len() > 0,
{
}

} // verus!
