//! Deterministic workloads: sequences of database operations drawn from a seed.

use crate::codec::copy_bytes;
use crate::memtable::{opt_view, ValueView};
use crate::model::copy_value;
use crate::rng::{after_draw, after_draws, drawn, drawn_bytes, Draws, DrawsView};
use crate::text::{
    bytes_of, decimal, lossy, lossy_text, padded_decimal, push_count, push_decimal, push_padded,
    text_of,
};
use vstd::prelude::*;
use vstd::utf8::encode_utf8;

verus! {

/// Configuration for workload generation.
#[derive(Clone, Debug)]
pub struct WorkloadConfig {
    /// Weight of put operations.
    pub put_weight: u32,
    /// Weight of get operations.
    pub get_weight: u32,
    /// Weight of delete operations.
    pub delete_weight: u32,
    /// Weight of internal operations.
    pub internal_weight: u32,
    /// Number of distinct keys in the key space.
    pub key_space_size: u64,
    /// Maximum value size in bytes.
    pub max_value_size: usize,
    /// Minimum value size in bytes.
    pub min_value_size: usize,
    /// Key prefix for generated keys.
    pub key_prefix: String,
}

/// A configuration as a mathematical value.
pub struct WorkloadView {
    pub put_weight: u32,
    pub get_weight: u32,
    pub delete_weight: u32,
    pub internal_weight: u32,
    pub key_space_size: u64,
    pub max_value_size: usize,
    pub min_value_size: usize,
    pub key_prefix: Seq<char>,
}

impl View for WorkloadConfig {
    type V = WorkloadView;

    open spec fn view(&self) -> WorkloadView {
        WorkloadView {
            put_weight: self.put_weight,
            get_weight: self.get_weight,
            delete_weight: self.delete_weight,
            internal_weight: self.internal_weight,
            key_space_size: self.key_space_size,
            max_value_size: self.max_value_size,
            min_value_size: self.min_value_size,
            key_prefix: self.key_prefix@,
        }
    }
}

/// The configuration with given weights and all else as usual.
pub open spec fn usual_workload(put: u32, get: u32, delete: u32, internal: u32) -> WorkloadView {
    WorkloadView {
        put_weight: put,
        get_weight: get,
        delete_weight: delete,
        internal_weight: internal,
        key_space_size: 100,
        max_value_size: 1024,
        min_value_size: 10,
        key_prefix: "k"@,
    }
}

/// The sum of the weights.
pub open spec fn total_weight_of(c: WorkloadView) -> nat {
    (c.put_weight + c.get_weight + c.delete_weight + c.internal_weight) as nat
}

/// Tells whether operations can be drawn: a weight, a key and a size to draw, and sums that fit.
pub open spec fn drawable(c: WorkloadView) -> bool {
    &&& 0 < total_weight_of(c) <= u32::MAX
    &&& c.key_space_size > 0
    &&& c.min_value_size <= c.max_value_size
    &&& c.max_value_size - c.min_value_size < u64::MAX
}

fn weighted(put: u32, get: u32, delete: u32, internal: u32) -> (r: WorkloadConfig)
    ensures
        r@ == usual_workload(put, get, delete, internal),
{
    WorkloadConfig {
        put_weight: put,
        get_weight: get,
        delete_weight: delete,
        internal_weight: internal,
        key_space_size: 100,
        max_value_size: 1024,
        min_value_size: 10,
        key_prefix: text_of("k"),
    }
}

impl Default for WorkloadConfig {
    fn default() -> (r: Self)
        ensures
            r@ == usual_workload(40, 40, 10, 10),
    {
        weighted(40, 40, 10, 10)
    }
}

impl WorkloadConfig {
    /// Creates a write-heavy workload.
    pub fn write_heavy() -> (r: Self)
        ensures
            r@ == usual_workload(80, 10, 10, 0),
    {
        weighted(80, 10, 10, 0)
    }

    /// Creates a read-heavy workload.
    pub fn read_heavy() -> (r: Self)
        ensures
            r@ == usual_workload(20, 70, 10, 0),
    {
        weighted(20, 70, 10, 0)
    }

    /// Creates a mixed workload with frequent internal operations.
    pub fn stress() -> (r: Self)
        ensures
            r@ == usual_workload(35, 35, 15, 15),
    {
        weighted(35, 35, 15, 15)
    }

    /// The sum of the weights.
    pub fn total_weight(&self) -> (r: u32)
        requires
            total_weight_of(self@) <= u32::MAX,
        ensures
            r == total_weight_of(self@),
    {
        self.put_weight + self.get_weight + self.delete_weight + self.internal_weight
    }

    /// Copies the configuration.
    pub fn copy(&self) -> (r: Self)
        ensures
            r@ == self@,
    {
        WorkloadConfig {
            put_weight: self.put_weight,
            get_weight: self.get_weight,
            delete_weight: self.delete_weight,
            internal_weight: self.internal_weight,
            key_space_size: self.key_space_size,
            max_value_size: self.max_value_size,
            min_value_size: self.min_value_size,
            key_prefix: text_of(self.key_prefix.as_str()),
        }
    }
}

/// A generated database operation.
#[derive(Clone, Debug, PartialEq, Eq)]
pub enum Operation {
    /// Put a key-value pair.
    Put { key: Vec<u8>, value: Vec<u8> },
    /// Get a key.
    Get { key: Vec<u8> },
    /// Delete a key.
    Delete { key: Vec<u8> },
    /// Flush the memtable to a table.
    Flush,
    /// Trigger compaction.
    Compact,
    /// Simulate a crash.
    Crash,
}

/// An operation as a mathematical value.
pub enum OperationView {
    Put { key: Seq<u8>, value: Seq<u8> },
    Get { key: Seq<u8> },
    Delete { key: Seq<u8> },
    Flush,
    Compact,
    Crash,
}

impl View for Operation {
    type V = OperationView;

    open spec fn view(&self) -> OperationView {
        match self {
            Operation::Put { key, value } => OperationView::Put { key: key@, value: value@ },
            Operation::Get { key } => OperationView::Get { key: key@ },
            Operation::Delete { key } => OperationView::Delete { key: key@ },
            Operation::Flush => OperationView::Flush,
            Operation::Compact => OperationView::Compact,
            Operation::Crash => OperationView::Crash,
        }
    }
}

/// Operations as mathematical values.
pub open spec fn operations_view(s: Seq<Operation>) -> Seq<OperationView> {
    s.map_values(|o: Operation| o@)
}

/// Tells whether an operation changes what keys read.
pub open spec fn op_writes(o: OperationView) -> bool {
    o is Put || o is Delete
}

/// The key of an operation.
pub open spec fn op_key(o: OperationView) -> Option<Seq<u8>> {
    match o {
        OperationView::Put { key, .. } => Some(key),
        OperationView::Get { key } => Some(key),
        OperationView::Delete { key } => Some(key),
        _ => None,
    }
}

/// The text of an operation.
pub open spec fn op_text(o: OperationView) -> Seq<char> {
    match o {
        OperationView::Put { key, value } => "PUT "@ + lossy_text(key) + " = "@ + decimal(
            value.len(),
        ) + " bytes"@,
        OperationView::Get { key } => "GET "@ + lossy_text(key),
        OperationView::Delete { key } => "DEL "@ + lossy_text(key),
        OperationView::Flush => "FLUSH"@,
        OperationView::Compact => "COMPACT"@,
        OperationView::Crash => "CRASH"@,
    }
}

impl Operation {
    /// Returns true if this operation modifies the database.
    pub fn is_write(&self) -> (r: bool)
        ensures
            r == op_writes(self@),
    {
        match self {
            Operation::Put { .. } => true,
            Operation::Delete { .. } => true,
            _ => false,
        }
    }

    /// Returns the key involved, if any.
    pub fn key(&self) -> (r: Option<&Vec<u8>>)
        ensures
            match r {
                Some(k) => op_key(self@) == Some(k@),
                None => op_key(self@) is None,
            },
    {
        match self {
            Operation::Put { key, .. } => Some(key),
            Operation::Get { key } => Some(key),
            Operation::Delete { key } => Some(key),
            _ => None,
        }
    }

    /// Returns a short description of the operation.
    pub fn describe(&self) -> (r: String)
        ensures
            r@ == op_text(self@),
    {
        match self {
            Operation::Put { key, value } => {
                let mut r = text_of("PUT ");
                r.push_str(lossy(key.as_slice()).as_str());
                r.push_str(" = ");
                push_count(&mut r, value.len());
                r.push_str(" bytes");
                r
            },
            Operation::Get { key } => {
                let mut r = text_of("GET ");
                r.push_str(lossy(key.as_slice()).as_str());
                r
            },
            Operation::Delete { key } => {
                let mut r = text_of("DEL ");
                r.push_str(lossy(key.as_slice()).as_str());
                r
            },
            Operation::Flush => text_of("FLUSH"),
            Operation::Compact => text_of("COMPACT"),
            Operation::Crash => text_of("CRASH"),
        }
    }

    /// Copies the operation.
    pub fn copy(&self) -> (r: Self)
        ensures
            r@ == self@,
    {
        match self {
            Operation::Put { key, value } => Operation::Put {
                key: copy_bytes(key.as_slice()),
                value: copy_bytes(value.as_slice()),
            },
            Operation::Get { key } => Operation::Get { key: copy_bytes(key.as_slice()) },
            Operation::Delete { key } => Operation::Delete { key: copy_bytes(key.as_slice()) },
            Operation::Flush => Operation::Flush,
            Operation::Compact => Operation::Compact,
            Operation::Crash => Operation::Crash,
        }
    }
}

/// Copies operations.
pub fn copy_operations(s: &[Operation]) -> (r: Vec<Operation>)
    ensures
        operations_view(r@) == operations_view(s@),
{
    let mut r: Vec<Operation> = Vec::new();
    let mut i: usize = 0;
    while i < s.len()
        invariant
            i <= s.len(),
            operations_view(r@) == operations_view(s@).take(i as int),
        decreases s.len() - i,
    {
        let ghost before = r@;
        r.push(s[i].copy());
        assert(operations_view(r@) =~= operations_view(before).push(s@[i as int]@));
        assert(operations_view(s@).take(i + 1) =~= operations_view(s@).take(i as int).push(
            s@[i as int]@,
        ));
        i += 1;
    }
    assert(operations_view(s@).take(i as int) =~= operations_view(s@));
    r
}

/// The bytes of a key of the key space.
pub open spec fn space_key(prefix: Seq<char>, n: u64) -> Seq<u8> {
    encode_utf8(prefix + padded_decimal(n as nat, 5))
}

/// What drawing a key from a state gives, and the state after.
pub open spec fn drawn_key(c: WorkloadView, s: DrawsView) -> (Seq<u8>, DrawsView) {
    (space_key(c.key_prefix, drawn(s) % c.key_space_size), after_draw(s))
}

/// The size of the value that is drawn from a state.
pub open spec fn drawn_size(c: WorkloadView, s: DrawsView) -> nat {
    (c.min_value_size + drawn(s) as int % (c.max_value_size - c.min_value_size + 1)) as nat
}

/// What drawing a value from a state gives, and the state after.
pub open spec fn drawn_value(c: WorkloadView, s: DrawsView) -> (Seq<u8>, DrawsView) {
    let t = after_draw(s);
    (drawn_bytes(t, drawn_size(c, s)), after_draws(t, drawn_size(c, s)))
}

/// What drawing an operation from a state gives, and the state after.
pub open spec fn drawn_op(c: WorkloadView, s: DrawsView) -> (OperationView, DrawsView) {
    let roll = drawn(s) as int % total_weight_of(c) as int;
    let t = after_draw(s);
    let (key, u) = drawn_key(c, t);
    if roll < c.put_weight {
        let (value, w) = drawn_value(c, u);
        (OperationView::Put { key, value }, w)
    } else if roll < c.put_weight + c.get_weight {
        (OperationView::Get { key }, u)
    } else if roll < c.put_weight + c.get_weight + c.delete_weight {
        (OperationView::Delete { key }, u)
    } else {
        (
            if drawn(t) % 2 == 0 {
                OperationView::Flush
            } else {
                OperationView::Compact
            },
            after_draw(t),
        )
    }
}

/// What drawing operations from a state gives, and the state after.
pub open spec fn drawn_ops(c: WorkloadView, s: DrawsView, n: nat) -> (Seq<OperationView>, DrawsView)
    decreases n,
{
    if n == 0 {
        (Seq::empty(), s)
    } else {
        let (ops, t) = drawn_ops(c, s, (n - 1) as nat);
        let (op, u) = drawn_op(c, t);
        (ops.push(op), u)
    }
}

/// The bytes of a value made for a key.
pub open spec fn marked_value(key: Seq<u8>, cycle: u64, n: u64) -> Seq<u8> {
    encode_utf8("v_"@ + lossy_text(key) + "_"@ + decimal(cycle as nat) + "_"@ + decimal(n as nat))
}

/// Generates deterministic workloads.
pub struct WorkloadGenerator {
    config: WorkloadConfig,
}

impl WorkloadGenerator {
    /// The configuration of the generator.
    pub closed spec fn spec_config(&self) -> WorkloadView {
        self.config@
    }

    /// Creates a new workload generator.
    pub fn new(config: WorkloadConfig) -> (r: Self)
        ensures
            r.spec_config() == config@,
    {
        WorkloadGenerator { config }
    }

    /// Generates a single random operation.
    pub fn next_op(&self, rng: &mut Draws) -> (r: Operation)
        requires
            drawable(self.spec_config()),
        ensures
            (r@, final(rng).spec_state()) == drawn_op(self.spec_config(), old(rng).spec_state()),
    {
        let total = self.config.total_weight() as u64;
        let roll = rng.next_below(total) as u32;
        let put_end = self.config.put_weight;
        let get_end = put_end + self.config.get_weight;
        let delete_end = get_end + self.config.delete_weight;
        if roll < put_end {
            let key = self.random_key(rng);
            let value = self.random_value(rng);
            Operation::Put { key, value }
        } else if roll < get_end {
            let key = self.random_key(rng);
            Operation::Get { key }
        } else if roll < delete_end {
            let key = self.random_key(rng);
            Operation::Delete { key }
        } else if rng.next() % 2 == 0 {
            Operation::Flush
        } else {
            Operation::Compact
        }
    }

    /// Generates a batch of random operations.
    pub fn generate_batch(&self, rng: &mut Draws, count: usize) -> (r: Vec<Operation>)
        requires
            drawable(self.spec_config()),
        ensures
            (operations_view(r@), final(rng).spec_state()) == drawn_ops(
                self.spec_config(),
                old(rng).spec_state(),
                count as nat,
            ),
    {
        let ghost s = rng.spec_state();
        let ghost c = self.spec_config();
        let mut r: Vec<Operation> = Vec::new();
        let mut i: usize = 0;
        assert(operations_view(r@) =~= Seq::<OperationView>::empty());
        while i < count
            invariant
                i <= count,
                c == self.spec_config(),
                drawable(c),
                (operations_view(r@), rng.spec_state()) == drawn_ops(c, s, i as nat),
            decreases count - i,
        {
            let ghost before = r@;
            let op = self.next_op(rng);
            r.push(op);
            assert(operations_view(r@) =~= operations_view(before).push(op@));
            i += 1;
        }
        r
    }

    fn key_text(&self, n: u64) -> (r: Vec<u8>)
        ensures
            r@ == space_key(self.spec_config().key_prefix, n),
    {
        let mut text = text_of(self.config.key_prefix.as_str());
        push_padded(&mut text, n, 5);
        bytes_of(text.as_str())
    }

    /// Generates a random key from the key space.
    pub fn random_key(&self, rng: &mut Draws) -> (r: Vec<u8>)
        requires
            self.spec_config().key_space_size > 0,
        ensures
            (r@, final(rng).spec_state()) == drawn_key(self.spec_config(), old(rng).spec_state()),
    {
        let n = rng.next_below(self.config.key_space_size);
        self.key_text(n)
    }

    /// Generates a specific key by index.
    pub fn key_at(&self, index: u64) -> (r: Vec<u8>)
        requires
            self.spec_config().key_space_size > 0,
        ensures
            r@ == space_key(
                self.spec_config().key_prefix,
                index % self.spec_config().key_space_size,
            ),
    {
        self.key_text(index % self.config.key_space_size)
    }

    /// Generates a random value.
    pub fn random_value(&self, rng: &mut Draws) -> (r: Vec<u8>)
        requires
            self.spec_config().min_value_size <= self.spec_config().max_value_size,
            self.spec_config().max_value_size - self.spec_config().min_value_size < u64::MAX,
        ensures
            (r@, final(rng).spec_state()) == drawn_value(
                self.spec_config(),
                old(rng).spec_state(),
            ),
    {
        let size_range = self.config.max_value_size - self.config.min_value_size;
        let extra = rng.next_below(size_range as u64 + 1);
        let size = self.config.min_value_size + (extra as usize);
        rng.next_bytes(size)
    }

    /// Generates a value that names its key and a cycle.
    pub fn value_for_key(&self, rng: &mut Draws, key: &[u8], cycle: u64) -> (r: Vec<u8>)
        ensures
            r@ == marked_value(key@, cycle, drawn(old(rng).spec_state()) % 10000),
            final(rng).spec_state() == after_draw(old(rng).spec_state()),
    {
        let n = rng.next_below(10000);
        let mut text = text_of("v_");
        text.push_str(lossy(key).as_str());
        text.push_str("_");
        push_decimal(&mut text, cycle);
        text.push_str("_");
        push_decimal(&mut text, n);
        bytes_of(text.as_str())
    }
}

/// Every operation that is drawn keeps to the configuration: its key is one of the key space,
/// its value has a size in range, and a kind of operation without weight is never drawn.
pub proof fn law_ops_keep_to_config(c: WorkloadView, s: DrawsView)
    requires
        drawable(c),
    ensures
        match drawn_op(c, s).0 {
            OperationView::Put { key, value } => c.put_weight > 0 && in_space(c, key)
                && c.min_value_size <= value.len() <= c.max_value_size,
            OperationView::Get { key } => c.get_weight > 0 && in_space(c, key),
            OperationView::Delete { key } => c.delete_weight > 0 && in_space(c, key),
            OperationView::Flush => c.internal_weight > 0,
            OperationView::Compact => c.internal_weight > 0,
            OperationView::Crash => false,
        },
{
    let x = drawn(s) as int;
    let t = after_draw(s);
    let n = drawn(t) % c.key_space_size;
    let u = after_draw(t);
    assert(n < c.key_space_size);
    assert(drawn_key(c, t).0 == space_key(c.key_prefix, n));
    let total = total_weight_of(c) as int;
    assert(0 <= x % total < total) by (nonlinear_arith)
        requires
            total > 0,
    ;
    let range = c.max_value_size - c.min_value_size + 1;
    let y = drawn(u) as int;
    assert(0 <= y % range < range) by (nonlinear_arith)
        requires
            range > 0,
    ;
}

/// Tells whether a key is one of the key space.
pub open spec fn in_space(c: WorkloadView, key: Seq<u8>) -> bool {
    exists|n: u64| n < c.key_space_size && key == #[trigger] space_key(c.key_prefix, n)
}

/// A recorded operation with its result.
#[derive(Clone, Debug)]
pub struct RecordedOp {
    /// The operation that was performed.
    pub op: Operation,
    /// The sequence number when performed.
    pub seq: u64,
    /// Whether the operation succeeded.
    pub success: bool,
    /// The result of a get.
    pub get_result: Option<Option<Vec<u8>>>,
}

/// A recorded operation as a mathematical value.
pub struct RecordedView {
    pub op: OperationView,
    pub seq: u64,
    pub success: bool,
    pub get_result: Option<ValueView>,
}

impl View for RecordedOp {
    type V = RecordedView;

    open spec fn view(&self) -> RecordedView {
        RecordedView {
            op: self.op@,
            seq: self.seq,
            success: self.success,
            get_result: match self.get_result {
                Some(v) => Some(opt_view(v)),
                None => None,
            },
        }
    }
}

impl RecordedOp {
    /// Copies the record.
    pub fn copy(&self) -> (r: Self)
        ensures
            r@ == self@,
    {
        RecordedOp {
            op: self.op.copy(),
            seq: self.seq,
            success: self.success,
            get_result: match &self.get_result {
                Some(v) => Some(copy_value(v)),
                None => None,
            },
        }
    }
}

/// Records as mathematical values.
pub open spec fn records_view(s: Seq<RecordedOp>) -> Seq<RecordedView> {
    s.map_values(|o: RecordedOp| o@)
}

/// Tracks a sequence of operations for replay.
#[derive(Clone, Debug)]
pub struct OperationLog {
    ops: Vec<RecordedOp>,
    seq: u64,
}

/// A log of operations as a mathematical value.
pub struct LogView {
    pub ops: Seq<RecordedView>,
    pub seq: u64,
}

impl View for OperationLog {
    type V = LogView;

    closed spec fn view(&self) -> LogView {
        LogView { ops: records_view(self.ops@), seq: self.seq }
    }
}

/// The log after one record more.
pub open spec fn log_after(
    l: LogView,
    op: OperationView,
    success: bool,
    get_result: Option<ValueView>,
) -> LogView {
    LogView {
        ops: l.ops.push(RecordedView { op, seq: l.seq, success, get_result }),
        seq: (l.seq + 1) as u64,
    }
}

/// The log without records.
pub open spec fn empty_log() -> LogView {
    LogView { ops: Seq::empty(), seq: 0 }
}

impl Default for OperationLog {
    fn default() -> (r: Self)
        ensures
            r@ == empty_log(),
    {
        OperationLog::new()
    }
}

/// The successful writes among records.
pub open spec fn successful_writes(s: Seq<RecordedView>) -> Seq<RecordedView> {
    s.filter(|o: RecordedView| op_writes(o.op) && o.success)
}

/// Borrowed records as mathematical values.
pub open spec fn record_refs_view(s: Seq<&RecordedOp>) -> Seq<RecordedView> {
    s.map_values(|o: &RecordedOp| o@)
}

impl OperationLog {
    /// Creates a new empty operation log.
    pub fn new() -> (r: Self)
        ensures
            r@ == empty_log(),
    {
        let r = OperationLog { ops: Vec::new(), seq: 0 };
        assert(r@.ops =~= Seq::<RecordedView>::empty());
        r
    }

    fn record(&mut self, op: Operation, success: bool, get_result: Option<Option<Vec<u8>>>)
        requires
            old(self)@.seq < u64::MAX,
        ensures
            final(self)@ == log_after(
                old(self)@,
                op@,
                success,
                match get_result {
                    Some(v) => Some(opt_view(v)),
                    None => None,
                },
            ),
    {
        let ghost before = self@;
        let rec = RecordedOp { op, seq: self.seq, success, get_result };
        self.ops.push(rec);
        self.seq += 1;
        assert(self@.ops =~= before.ops.push(rec@));
    }

    /// Records a successful write operation.
    pub fn record_write(&mut self, op: Operation)
        requires
            old(self)@.seq < u64::MAX,
        ensures
            final(self)@ == log_after(old(self)@, op@, true, None),
    {
        self.record(op, true, None)
    }

    /// Records a get operation with its result.
    pub fn record_get(&mut self, key: Vec<u8>, result: Option<Vec<u8>>)
        requires
            old(self)@.seq < u64::MAX,
        ensures
            final(self)@ == log_after(
                old(self)@,
                OperationView::Get { key: key@ },
                true,
                Some(opt_view(result)),
            ),
    {
        self.record(Operation::Get { key }, true, Some(result))
    }

    /// Records a failed operation.
    pub fn record_failure(&mut self, op: Operation)
        requires
            old(self)@.seq < u64::MAX,
        ensures
            final(self)@ == log_after(old(self)@, op@, false, None),
    {
        self.record(op, false, None)
    }

    /// Returns all recorded operations.
    pub fn ops(&self) -> (r: &[RecordedOp])
        ensures
            records_view(r@) == self@.ops,
    {
        self.ops.as_slice()
    }

    /// Returns the number of operations.
    pub fn len(&self) -> (r: usize)
        ensures
            r == self@.ops.len(),
    {
        self.ops.len()
    }

    /// Returns true if no operations have been recorded.
    pub fn is_empty(&self) -> (r: bool)
        ensures
            r == (self@.ops.len() == 0),
    {
        self.ops.len() == 0
    }

    /// Returns the successful writes only.
    pub fn writes(&self) -> (r: Vec<&RecordedOp>)
        ensures
            record_refs_view(r@) == successful_writes(self@.ops),
    {
        let ghost s = self@.ops;
        let ghost p = |o: RecordedView| op_writes(o.op) && o.success;
        let mut r: Vec<&RecordedOp> = Vec::new();
        let mut i: usize = 0;
        proof {
            assert(s.take(0).filter(p) =~= Seq::<RecordedView>::empty()) by {
                reveal(Seq::filter);
            }
            assert(record_refs_view(r@) =~= Seq::<RecordedView>::empty());
        }
        while i < self.ops.len()
            invariant
                i <= self.ops.len(),
                s == records_view(self.ops@),
                p == |o: RecordedView| op_writes(o.op) && o.success,
                record_refs_view(r@) == s.take(i as int).filter(p),
            decreases self.ops.len() - i,
        {
            proof {
                crate::model::lemma_filter_step(s, i as int, p);
            }
            let ghost before = r@;
            if self.ops[i].op.is_write() && self.ops[i].success {
                r.push(&self.ops[i]);
                assert(record_refs_view(r@) =~= record_refs_view(before).push(s[i as int]));
            }
            i += 1;
        }
        assert(s.take(i as int) =~= s);
        r
    }

    /// Clears the log.
    pub fn clear(&mut self)
        ensures
            final(self)@ == empty_log(),
    {
        self.ops = Vec::new();
        self.seq = 0;
        assert(self@.ops =~= Seq::<RecordedView>::empty());
    }

    /// Copies the log.
    pub fn copy(&self) -> (r: Self)
        ensures
            r@ == self@,
    {
        let mut ops: Vec<RecordedOp> = Vec::new();
        let mut i: usize = 0;
        let ghost s = self@.ops;
        while i < self.ops.len()
            invariant
                i <= self.ops.len(),
                s == records_view(self.ops@),
                records_view(ops@) == s.take(i as int),
            decreases self.ops.len() - i,
        {
            let ghost before = ops@;
            ops.push(self.ops[i].copy());
            assert(records_view(ops@) =~= records_view(before).push(s[i as int]));
            assert(s.take(i + 1) =~= s.take(i as int).push(s[i as int]));
            i += 1;
        }
        assert(s.take(i as int) =~= s);
        OperationLog { ops, seq: self.seq }
    }
}

/// A batch of operations to execute together.
#[derive(Clone, Debug)]
pub struct OperationBatch {
    ops: Vec<Operation>,
}

impl View for OperationBatch {
    type V = Seq<OperationView>;

    closed spec fn view(&self) -> Seq<OperationView> {
        operations_view(self.ops@)
    }
}

impl Default for OperationBatch {
    fn default() -> (r: Self)
        ensures
            r@ == Seq::<OperationView>::empty(),
    {
        OperationBatch::new()
    }
}

impl OperationBatch {
    /// Creates a new empty batch.
    pub fn new() -> (r: Self)
        ensures
            r@ == Seq::<OperationView>::empty(),
    {
        let r = OperationBatch { ops: Vec::new() };
        assert(r@ =~= Seq::<OperationView>::empty());
        r
    }

    /// Adds a put operation.
    pub fn put(&mut self, key: Vec<u8>, value: Vec<u8>)
        ensures
            final(self)@ == old(self)@.push(OperationView::Put { key: key@, value: value@ }),
    {
        let ghost before = self@;
        self.ops.push(Operation::Put { key, value });
        assert(self@ =~= before.push(OperationView::Put { key: key@, value: value@ }));
    }

    /// Adds a delete operation.
    pub fn delete(&mut self, key: Vec<u8>)
        ensures
            final(self)@ == old(self)@.push(OperationView::Delete { key: key@ }),
    {
        let ghost before = self@;
        self.ops.push(Operation::Delete { key });
        assert(self@ =~= before.push(OperationView::Delete { key: key@ }));
    }

    /// Returns the operations in this batch.
    pub fn ops(&self) -> (r: &[Operation])
        ensures
            operations_view(r@) == self@,
    {
        self.ops.as_slice()
    }

    /// Returns the number of operations.
    pub fn len(&self) -> (r: usize)
        ensures
            r == self@.len(),
    {
        self.ops.len()
    }

    /// Returns true if the batch is empty.
    pub fn is_empty(&self) -> (r: bool)
        ensures
            r == (self@.len() == 0),
    {
        self.ops.len() == 0
    }
}

/// The writes of a log are the puts and deletes that succeeded, all of them and no others, in the
/// order in which they came.
pub proof fn law_writes_listed(s: Seq<RecordedView>, r: RecordedView)
    ensures
        successful_writes(s).contains(r) <==> s.contains(r) && r.success && (r.op is Put || r.op
            is Delete),
        successful_writes(s.push(r)) == successful_writes(s) + if r.success && (r.op is Put || r.op
            is Delete) {
            seq![r]
        } else {
            Seq::empty()
        },
{
    let p = |o: RecordedView| op_writes(o.op) && o.success;
    crate::model::lemma_filter_has(s, p, r);
    crate::model::lemma_filter_push(s, r, p);
    assert(successful_writes(s) =~= successful_writes(s) + Seq::<RecordedView>::empty());
    assert(successful_writes(s).push(r) =~= successful_writes(s) + seq![r]);
}

/// A log numbers what it records, from zero on.
pub proof fn law_log_numbers(
    l: LogView,
    op: OperationView,
    success: bool,
    get_result: Option<ValueView>,
)
    requires
        l.seq == l.ops.len(),
        l.seq < u64::MAX,
        forall|i: int| 0 <= i < l.ops.len() ==> (#[trigger] l.ops[i]).seq == i,
    ensures
        ({
            let m = log_after(l, op, success, get_result);
            &&& m.seq == m.ops.len()
            &&& forall|i: int| 0 <= i < m.ops.len() ==> (#[trigger] m.ops[i]).seq == i
            &&& m.ops.drop_last() == l.ops
            &&& m.ops.last().op == op && m.ops.last().success == success
                && m.ops.last().get_result == get_result
        }),
{
    let m = log_after(l, op, success, get_result);
    assert(m.ops.drop_last() =~= l.ops);
    assert forall|i: int| 0 <= i < m.ops.len() implies (#[trigger] m.ops[i]).seq == i by {
        if i < l.ops.len() {
            assert(m.ops[i] == l.ops[i]);
        }
    }
}

/// A batch has as many operations as were asked for. A larger one begins with the smaller, and goes
/// on as one drawn after it.
pub proof fn law_batch_continues(c: WorkloadView, s: DrawsView, n: nat, m: nat)
    ensures
        drawn_ops(c, s, n).0.len() == n,
        drawn_ops(c, s, n + m).0 == drawn_ops(c, s, n).0 + drawn_ops(
            c,
            drawn_ops(c, s, n).1,
            m,
        ).0,
        drawn_ops(c, s, n + m).1 == drawn_ops(c, drawn_ops(c, s, n).1, m).1,
    decreases n + m,
{
    if m > 0 {
        law_batch_continues(c, s, n, (m - 1) as nat);
        let t = drawn_ops(c, s, n).1;
        let (a, u) = drawn_ops(c, t, (m - 1) as nat);
        let (b, w) = drawn_ops(c, s, (n + m - 1) as nat);
        assert(n + m - 1 == n + (m - 1));
        assert(b.push(drawn_op(c, w).0) =~= drawn_ops(c, s, n).0 + a.push(drawn_op(c, u).0));
    } else {
        if n > 0 {
            law_batch_continues(c, s, (n - 1) as nat, 0);
        }
        assert(drawn_ops(c, s, n).0 =~= drawn_ops(c, s, n).0 + Seq::<OperationView>::empty());
    }
}

/// Which operation is drawn: of as many numbers as all weights together, as many lead to each sort
/// as its weight says, puts first, then gets, then deletes, then flushes and compactions.
pub proof fn law_weights_decide(c: WorkloadView, s: DrawsView)
    requires
        drawable(c),
    ensures
        ({
            let total = c.put_weight + c.get_weight + c.delete_weight + c.internal_weight;
            let roll = drawn(s) as int % total;
            let op = drawn_op(c, s).0;
            &&& op is Put <==> roll < c.put_weight
            &&& op is Get <==> c.put_weight <= roll < c.put_weight + c.get_weight
            &&& op is Delete <==> c.put_weight + c.get_weight <= roll < total - c.internal_weight
            &&& op is Flush || op is Compact <==> total - c.internal_weight <= roll
            &&& !(op is Crash)
        }),
{
}

} // verus!
