//! A run of transactions as a state machine: which transactions run, in which order they read,
//! write and commit, when the database crashes, and what is concluded from the outcomes.
//!
//! A run asks for one action after the other, and each reply moves it on; performing the
//! actions against a transactional database is up to its caller.

use crate::codec::copy_bytes;
use crate::driver::{byte_items, opt_text, push_byte_items};
use crate::memtable::{opt_view, ValueView};
use crate::model::{
    copy_value, entry_for, keys_ascend, law_model_reads_writes, law_write_keeps_order, lemma_place,
    pairs_view, place_of, same_value, set_entry, value_for, with_write, ModelEntry,
};
use crate::rng::{xorshift, SimpleRng};
use crate::serialization::{
    graph_of, has_cycle, simple_cycle, txn_ops_view, violation_text, CompletedTransaction,
    SerializationChecker, TxnOpView, TxnOperation, TxnView,
};
use crate::text::{bytes_of, text_of};
use crate::txn_stress::{
    choose_op, drawn_choice, key_bytes, numbered_key, ChoiceView, TxnChoice, TxnStressConfig,
    TxnStressResult, TxnStressWithCrashesResult, BATCH_SIZE,
};
use vstd::prelude::*;
use vstd::utf8::encode_utf8;

verus! {

/// What a run asks for.
#[derive(Debug)]
pub enum TxnAction {
    /// Open the database.
    Open,
    /// Write a first value to a key in a transaction of its own, and commit it.
    InitKey { key: Vec<u8>, value: Vec<u8> },
    /// Drop the database, lose what is not durable, and open the database again.
    CrashAndReopen,
    /// Read a key in a transaction that changes nothing.
    VerifyRead { key: Vec<u8> },
    /// Begin transactions; they are numbered from zero until the next batch.
    BeginBatch { count: usize },
    /// Read a key in a transaction of the batch.
    Read { txn: usize, key: Vec<u8> },
    /// Write a value to a key in a transaction of the batch.
    Write { txn: usize, key: Vec<u8>, value: Vec<u8> },
    /// Commit a transaction of the batch.
    Commit { txn: usize },
    /// Nothing more; the result is there.
    Finish,
}

/// What a run asks for as a mathematical value.
pub enum ActionView {
    Open,
    InitKey { key: Seq<u8>, value: Seq<u8> },
    CrashAndReopen,
    VerifyRead { key: Seq<u8> },
    BeginBatch { count: usize },
    Read { txn: usize, key: Seq<u8> },
    Write { txn: usize, key: Seq<u8>, value: Seq<u8> },
    Commit { txn: usize },
    Finish,
}

impl View for TxnAction {
    type V = ActionView;

    open spec fn view(&self) -> ActionView {
        match self {
            TxnAction::Open => ActionView::Open,
            TxnAction::InitKey { key, value } => ActionView::InitKey { key: key@, value: value@ },
            TxnAction::CrashAndReopen => ActionView::CrashAndReopen,
            TxnAction::VerifyRead { key } => ActionView::VerifyRead { key: key@ },
            TxnAction::BeginBatch { count } => ActionView::BeginBatch { count: *count },
            TxnAction::Read { txn, key } => ActionView::Read { txn: *txn, key: key@ },
            TxnAction::Write { txn, key, value } => ActionView::Write {
                txn: *txn,
                key: key@,
                value: value@,
            },
            TxnAction::Commit { txn } => ActionView::Commit { txn: *txn },
            TxnAction::Finish => ActionView::Finish,
        }
    }
}

/// How the first write of a key went.
#[derive(Debug)]
pub enum InitOutcome {
    /// It committed.
    Committed,
    /// The write failed.
    PutFailed(String),
    /// The commit was aborted.
    Aborted,
    /// The commit failed.
    CommitFailed(String),
}

/// How a commit went.
#[derive(Debug)]
pub enum CommitOutcome {
    /// It committed at a timestamp.
    Committed { commit_ts: u64 },
    /// It was aborted because of a conflict.
    Aborted,
    /// It failed.
    Failed(String),
}

/// The reply to an action.
#[derive(Debug)]
pub enum TxnReply {
    /// The database opened, or the text of the error.
    Opened(Result<(), String>),
    /// How the first write of a key went.
    InitDone(InitOutcome),
    /// The database opened again, or the text of the error.
    Reopened(Result<(), String>),
    /// What a key reads, or the text of the error.
    VerifyDone(Result<Option<Vec<u8>>, String>),
    /// The IDs and begin timestamps of the transactions begun.
    Began(Vec<(u64, u64)>),
    /// What a key reads, or nothing where reading failed.
    ReadDone(Option<Option<Vec<u8>>>),
    /// Whether a write was taken.
    WriteDone(bool),
    /// How a commit went.
    CommitDone(CommitOutcome),
}

/// Where a run stands.
#[derive(Clone, Copy, Debug, PartialEq, Eq, Structural)]
pub enum Phase {
    /// The database is being opened.
    Open,
    /// The first value of a key is being written.
    Init { key: usize },
    /// The database crashed before the batch from a transaction on.
    Reopen { start: usize },
    /// A committed value is being verified before the batch from a transaction on.
    Verify { start: usize, item: usize },
    /// The batch from a transaction on is being begun.
    Begin { start: usize },
    /// A transaction of the batch reads in a round.
    Reading { start: usize, round: usize, txn: usize },
    /// A transaction of the batch writes in a round.
    Writing { start: usize, round: usize, txn: usize },
    /// A transaction of the batch is being committed.
    Commit { start: usize, txn: usize },
    /// A committed value is being verified at the end.
    FinalVerify { item: usize },
    /// The run is over.
    Finished,
}

/// A transaction of the current batch.
#[derive(Debug)]
pub struct BatchTxn {
    /// Its ID.
    pub txn_id: u64,
    /// Its begin timestamp.
    pub begin_ts: u64,
    /// What it read and wrote, as far as that was taken.
    pub operations: Vec<TxnOperation>,
    /// What it wrote.
    pub writes: Vec<(Vec<u8>, Vec<u8>)>,
}

/// A transaction of the current batch as a mathematical value.
pub struct BatchTxnView {
    pub txn_id: u64,
    pub begin_ts: u64,
    pub operations: Seq<TxnOpView>,
    pub writes: Seq<(Seq<u8>, Seq<u8>)>,
}

/// Writes as mathematical values.
pub open spec fn writes_view(s: Seq<(Vec<u8>, Vec<u8>)>) -> Seq<(Seq<u8>, Seq<u8>)> {
    s.map_values(|p: (Vec<u8>, Vec<u8>)| (p.0@, p.1@))
}

impl View for BatchTxn {
    type V = BatchTxnView;

    open spec fn view(&self) -> BatchTxnView {
        BatchTxnView {
            txn_id: self.txn_id,
            begin_ts: self.begin_ts,
            operations: txn_ops_view(self.operations@),
            writes: writes_view(self.writes@),
        }
    }
}

/// Transactions as mathematical values.
pub open spec fn batch_view(s: Seq<BatchTxn>) -> Seq<BatchTxnView> {
    s.map_values(|b: BatchTxn| b@)
}

/// What a run does besides its transactions.
#[derive(Clone, Copy, Debug)]
pub struct TxnRunMode {
    /// Whether the history is checked for serializability at the end.
    pub check_history: bool,
    /// Whether committed values are verified after each crash and at the end.
    pub verify_values: bool,
    /// The largest number of crashes.
    pub max_crashes: u64,
    /// The draws below which the database crashes before a batch.
    pub crash_below: u128,
}

/// The state of a run.
pub struct TxnRunView {
    pub config: TxnStressConfig,
    pub mode: TxnRunMode,
    pub seed: u64,
    /// The state of the generator.
    pub rng: u64,
    pub phase: Phase,
    /// The transactions of the current batch.
    pub batch: Seq<BatchTxnView>,
    /// The key and value of the operation that is being performed.
    pub pending: Option<(Seq<u8>, Seq<u8>)>,
    pub total: u64,
    pub committed: u64,
    pub aborted: u64,
    pub crashes: u64,
    /// The committed values, ascending by key.
    pub values: Seq<ModelEntry>,
    /// The transactions recorded.
    pub history: Seq<TxnView>,
    /// What went wrong.
    pub failure: Option<Seq<char>>,
}

/// The number of transactions of the batch from a transaction on.
pub open spec fn batch_count(num_transactions: usize, start: int) -> int {
    if num_transactions - start < BATCH_SIZE {
        num_transactions - start
    } else {
        BATCH_SIZE as int
    }
}

/// The run that is over with a failure.
pub open spec fn run_failed(v: TxnRunView, text: Seq<char>) -> (TxnRunView, ActionView) {
    (TxnRunView { phase: Phase::Finished, failure: Some(text), ..v }, ActionView::Finish)
}

/// The run that is over without a failure.
pub open spec fn run_over(v: TxnRunView) -> (TxnRunView, ActionView) {
    (TxnRunView { phase: Phase::Finished, failure: None, ..v }, ActionView::Finish)
}

/// The run at the verification of a committed value at the end, or over where all are verified.
pub open spec fn at_final_item(v: TxnRunView, item: int) -> (TxnRunView, ActionView) {
    if v.mode.verify_values && item < v.values.len() {
        (
            TxnRunView { phase: Phase::FinalVerify { item: item as usize }, ..v },
            ActionView::VerifyRead { key: v.values[item].0 },
        )
    } else {
        run_over(v)
    }
}

/// The run at the beginning of a batch.
pub open spec fn at_begin(v: TxnRunView, start: int) -> (TxnRunView, ActionView) {
    (
        TxnRunView { phase: Phase::Begin { start: start as usize }, ..v },
        ActionView::BeginBatch {
            count: batch_count(v.config.num_transactions, start) as usize,
        },
    )
}

/// The run before the batch from a transaction on: a crash may strike first, and where no
/// transaction is left the end has come.
pub open spec fn at_batch(v: TxnRunView, start: int) -> (TxnRunView, ActionView) {
    if start >= v.config.num_transactions {
        at_final_item(v, 0)
    } else if v.crashes < v.mode.max_crashes {
        let t = xorshift(v.rng);
        let n = TxnRunView { rng: t, ..v };
        if (t as int) < v.mode.crash_below {
            (
                TxnRunView {
                    phase: Phase::Reopen { start: start as usize },
                    crashes: (v.crashes + 1) as u64,
                    ..n
                },
                ActionView::CrashAndReopen,
            )
        } else {
            at_begin(n, start)
        }
    } else {
        at_begin(v, start)
    }
}

/// The run at the verification of a committed value after a crash, or at the batch where all
/// are verified.
pub open spec fn at_item(v: TxnRunView, start: int, item: int) -> (TxnRunView, ActionView) {
    if v.mode.verify_values && item < v.values.len() {
        (
            TxnRunView {
                phase: Phase::Verify { start: start as usize, item: item as usize },
                ..v
            },
            ActionView::VerifyRead { key: v.values[item].0 },
        )
    } else {
        at_begin(v, start)
    }
}

/// The run at the commit of a transaction of the batch, or past the batch.
pub open spec fn at_commit(v: TxnRunView, start: int, txn: int) -> (TxnRunView, ActionView) {
    if txn < v.batch.len() {
        (
            TxnRunView {
                phase: Phase::Commit { start: start as usize, txn: txn as usize },
                pending: None,
                ..v
            },
            ActionView::Commit { txn: txn as usize },
        )
    } else {
        at_batch(v, start + v.batch.len())
    }
}

/// The run at an operation of a transaction of the batch.
pub open spec fn at_op(v: TxnRunView, start: int, round: int, txn: int) -> (TxnRunView, ActionView) {
    let (choice, s) = drawn_choice(
        v.rng,
        (start + txn) as nat,
        round as nat,
        v.config.num_keys,
    );
    let (st, ro, tx) = (start as usize, round as usize, txn as usize);
    match choice {
        ChoiceView::Read { key } => (
            TxnRunView {
                rng: s,
                phase: Phase::Reading { start: st, round: ro, txn: tx },
                pending: Some((key, Seq::<u8>::empty())),
                ..v
            },
            ActionView::Read { txn: tx, key },
        ),
        ChoiceView::Write { key, value } => (
            TxnRunView {
                rng: s,
                phase: Phase::Writing { start: st, round: ro, txn: tx },
                pending: Some((key, value)),
                ..v
            },
            ActionView::Write { txn: tx, key, value },
        ),
    }
}

/// The run past an operation: at the next transaction of the round, at the next round, or at
/// the commits.
pub open spec fn after_op(v: TxnRunView, start: int, round: int, txn: int) -> (
    TxnRunView,
    ActionView,
) {
    if txn + 1 < v.batch.len() {
        at_op(v, start, round, txn + 1)
    } else if round + 1 < v.config.ops_per_txn {
        at_op(v, start, round + 1, 0)
    } else {
        at_commit(v, start, 0)
    }
}

/// The run at the first write of a key, or at the first batch where all keys are written.
pub open spec fn at_key(v: TxnRunView, key: int) -> (TxnRunView, ActionView) {
    if key < v.config.num_keys {
        (
            TxnRunView { phase: Phase::Init { key: key as usize }, ..v },
            ActionView::InitKey { key: numbered_key(key as nat), value: encode_utf8("0"@) },
        )
    } else {
        at_batch(v, 0)
    }
}

/// The committed values with those that a transaction wrote.
pub open spec fn with_values(e: Seq<ModelEntry>, writes: Seq<(Seq<u8>, Seq<u8>)>) -> Seq<ModelEntry>
    decreases writes.len(),
{
    if writes.len() == 0 {
        e
    } else {
        let w = writes.last();
        with_write(with_values(e, writes.drop_last()), w.0, Some(w.1))
    }
}

/// The recorded form of a transaction of a batch.
pub open spec fn completed(b: BatchTxnView, committed: bool, commit_ts: u64) -> TxnView {
    TxnView {
        txn_id: b.txn_id,
        begin_ts: b.begin_ts,
        commit_ts,
        committed,
        operations: b.operations,
    }
}

/// The run with the outcome of the commit of a transaction noted.
pub open spec fn commit_noted(v: TxnRunView, txn: int, o: CommitOutcome) -> TxnRunView {
    let b = v.batch[txn];
    let n = TxnRunView { total: (v.total + 1) as u64, ..v };
    match o {
        CommitOutcome::Committed { commit_ts } => TxnRunView {
            committed: (v.committed + 1) as u64,
            values: with_values(v.values, b.writes),
            history: v.history.push(completed(b, true, commit_ts)),
            ..n
        },
        CommitOutcome::Aborted => TxnRunView {
            aborted: (v.aborted + 1) as u64,
            history: v.history.push(completed(b, false, 0)),
            ..n
        },
        CommitOutcome::Failed(_) => n,
    }
}

/// The batch with an operation of a transaction noted.
pub open spec fn op_noted(batch: Seq<BatchTxnView>, txn: int, op: TxnOpView) -> Seq<BatchTxnView> {
    batch.update(
        txn,
        BatchTxnView { operations: batch[txn].operations.push(op), ..batch[txn] },
    )
}

/// The batch with a write of a transaction noted.
pub open spec fn write_noted(batch: Seq<BatchTxnView>, txn: int, key: Seq<u8>, value: Seq<u8>) -> Seq<
    BatchTxnView,
> {
    batch.update(
        txn,
        BatchTxnView { writes: batch[txn].writes.push((key, value)), ..batch[txn] },
    )
}

/// What is wrong with what a committed key reads, if anything.
pub open spec fn value_wrong(
    label: Seq<char>,
    missing: Seq<char>,
    failed: Seq<char>,
    key: Seq<u8>,
    expected: ValueView,
    got: Result<ValueView, Seq<char>>,
) -> Option<Seq<char>> {
    match got {
        Err(text) => Some(failed + text),
        Ok(v) => if v == expected {
            None
        } else {
            match v {
                Some(actual) => Some(
                    label + "["@ + byte_items(key) + "] expected ["@ + byte_items(expected->0)
                        + "], got ["@ + byte_items(actual) + "]"@,
                ),
                None => Some(label + "["@ + byte_items(key) + "] "@ + missing),
            }
        },
    }
}

/// A reply to a verification as a mathematical value.
pub open spec fn got_view(r: Result<Option<Vec<u8>>, String>) -> Result<ValueView, Seq<char>> {
    match r {
        Ok(v) => Ok(opt_view(v)),
        Err(e) => Err(e@),
    }
}

/// What is wrong with a committed key after a crash.
pub open spec fn durability_wrong(
    key: Seq<u8>,
    expected: ValueView,
    got: Result<ValueView, Seq<char>>,
) -> Option<Seq<char>> {
    value_wrong(
        "Durability violation: key "@,
        "missing after crash"@,
        "Read error after crash: "@,
        key,
        expected,
        got,
    )
}

/// What is wrong with a committed key at the end.
pub open spec fn final_wrong(
    key: Seq<u8>,
    expected: ValueView,
    got: Result<ValueView, Seq<char>>,
) -> Option<Seq<char>> {
    value_wrong(
        "Final verification failed: key "@,
        "missing"@,
        "Final read error: "@,
        key,
        expected,
        got,
    )
}

/// The transactions of a batch when it has begun.
pub open spec fn begun(ids: Seq<(u64, u64)>) -> Seq<BatchTxnView> {
    ids.map_values(
        |p: (u64, u64)|
            BatchTxnView {
                txn_id: p.0,
                begin_ts: p.1,
                operations: Seq::empty(),
                writes: Seq::empty(),
            },
    )
}

/// Tells whether a reply answers what a run asks for.
pub open spec fn answers_phase(v: TxnRunView, reply: TxnReply) -> bool {
    match v.phase {
        Phase::Open => reply is Opened,
        Phase::Init { .. } => reply is InitDone,
        Phase::Reopen { .. } => reply is Reopened,
        Phase::Verify { .. } => reply is VerifyDone,
        Phase::Begin { start } => reply is Began && reply->Began_0@.len() == batch_count(
            v.config.num_transactions,
            start as int,
        ),
        Phase::Reading { .. } => reply is ReadDone,
        Phase::Writing { .. } => reply is WriteDone,
        Phase::Commit { .. } => reply is CommitDone,
        Phase::FinalVerify { .. } => reply is VerifyDone,
        Phase::Finished => false,
    }
}

/// Where a reply moves a run, and what the run asks for next.
pub open spec fn moved(v: TxnRunView, reply: TxnReply) -> (TxnRunView, ActionView) {
    match (v.phase, reply) {
        (Phase::Open, TxnReply::Opened(r)) => match r {
            Ok(_) => at_key(v, 0),
            Err(e) => run_failed(v, "Failed to open database: "@ + e@),
        },
        (Phase::Init { key }, TxnReply::InitDone(o)) => match o {
            InitOutcome::Committed => at_key(
                TxnRunView {
                    values: with_write(
                        v.values,
                        numbered_key(key as nat),
                        Some(encode_utf8("0"@)),
                    ),
                    ..v
                },
                key + 1,
            ),
            InitOutcome::PutFailed(e) => run_failed(v, "Failed to initialize key: "@ + e@),
            InitOutcome::Aborted => run_failed(v, "Unexpected SSI abort during init"@),
            InitOutcome::CommitFailed(e) => run_failed(v, "Failed to commit init: "@ + e@),
        },
        (Phase::Reopen { start }, TxnReply::Reopened(r)) => match r {
            Ok(_) => at_item(v, start as int, 0),
            Err(e) => run_failed(v, "Failed to reopen after crash: "@ + e@),
        },
        (Phase::Verify { start, item }, TxnReply::VerifyDone(r)) => {
            let e = v.values[item as int];
            match durability_wrong(e.0, e.1, got_view(r)) {
                Some(text) => run_failed(v, text),
                None => at_item(v, start as int, item + 1),
            }
        },
        (Phase::Begin { start }, TxnReply::Began(ids)) => {
            let n = TxnRunView { batch: begun(ids@), ..v };
            if v.config.ops_per_txn > 0 {
                at_op(n, start as int, 0, 0)
            } else {
                at_commit(n, start as int, 0)
            }
        },
        (Phase::Reading { start, round, txn }, TxnReply::ReadDone(r)) => {
            let key = (v.pending->0).0;
            let n = match r {
                Some(value) => TxnRunView {
                    batch: op_noted(
                        v.batch,
                        txn as int,
                        TxnOpView::Read { key, value: opt_view(value) },
                    ),
                    ..v
                },
                None => v,
            };
            after_op(n, start as int, round as int, txn as int)
        },
        (Phase::Writing { start, round, txn }, TxnReply::WriteDone(taken)) => {
            let (key, value) = v.pending->0;
            let b = write_noted(v.batch, txn as int, key, value);
            let n = TxnRunView {
                batch: if taken {
                    op_noted(b, txn as int, TxnOpView::Write { key, value: Some(value) })
                } else {
                    b
                },
                ..v
            };
            after_op(n, start as int, round as int, txn as int)
        },
        (Phase::Commit { start, txn }, TxnReply::CommitDone(o)) => {
            let n = commit_noted(v, txn as int, o);
            match o {
                CommitOutcome::Failed(e) => run_failed(n, "Commit error: "@ + e@),
                _ => at_commit(n, start as int, txn + 1),
            }
        },
        (Phase::FinalVerify { item }, TxnReply::VerifyDone(r)) => {
            let e = v.values[item as int];
            match final_wrong(e.0, e.1, got_view(r)) {
                Some(text) => run_failed(v, text),
                None => at_final_item(v, item + 1),
            }
        },
        _ => (v, ActionView::Finish),
    }
}

/// Tells whether a run stands where a reply moves it; where the history is checked, a run that
/// is over without a failure fails after all if its history has a cycle.
pub open spec fn concluded(want: TxnRunView, have: TxnRunView) -> bool {
    if want.phase == Phase::Finished && want.failure is None && want.mode.check_history
        && has_cycle(graph_of(want.history)) {
        exists|w: Seq<u64>| #[trigger]
            simple_cycle(graph_of(want.history), w) && have == (TxnRunView {
                failure: Some(violation_text(w)),
                ..want
            })
    } else {
        have == want
    }
}

/// Tells whether a configuration can run: there is a transaction, and a key for each operation.
pub open spec fn can_run(c: TxnStressConfig) -> bool {
    c.num_transactions > 0 && (c.num_keys > 0 || c.ops_per_txn == 0)
}

/// The state of a run before its first action.
pub open spec fn run_start(seed: u64, config: TxnStressConfig, mode: TxnRunMode) -> TxnRunView {
    TxnRunView {
        config,
        mode,
        seed,
        rng: seed,
        phase: Phase::Open,
        batch: Seq::empty(),
        pending: None,
        total: 0,
        committed: 0,
        aborted: 0,
        crashes: 0,
        values: Seq::empty(),
        history: Seq::empty(),
        failure: None,
    }
}

/// Tells whether a phase fits the rest of a state.
pub open spec fn phase_fits(v: TxnRunView) -> bool {
    let n = v.config.num_transactions;
    match v.phase {
        Phase::Open => v.total == 0,
        Phase::Init { key } => key < v.config.num_keys && v.total == 0,
        Phase::Reopen { start } => start < n && v.total == start,
        Phase::Verify { start, item } => start < n && v.total == start && item < v.values.len(),
        Phase::Begin { start } => start < n && v.total == start,
        Phase::Reading { start, round, txn } => start < n && v.total == start && v.batch.len()
            == batch_count(n, start as int) && txn < v.batch.len() && round
            < v.config.ops_per_txn && v.pending is Some,
        Phase::Writing { start, round, txn } => start < n && v.total == start && v.batch.len()
            == batch_count(n, start as int) && txn < v.batch.len() && round
            < v.config.ops_per_txn && v.pending is Some,
        Phase::Commit { start, txn } => start < n && v.batch.len() == batch_count(
            n,
            start as int,
        ) && txn < v.batch.len() && v.total == start + txn,
        Phase::FinalVerify { item } => item < v.values.len() && v.total == n,
        Phase::Finished => true,
    }
}

/// Tells whether committed values are in order, each with a value.
#[verifier::opaque]
pub open spec fn values_fit(e: Seq<ModelEntry>) -> bool {
    &&& keys_ascend(e)
    &&& forall|i: int| 0 <= i < e.len() ==> (#[trigger] e[i]).1 is Some
}

/// What every state of a run keeps to.
pub open spec fn run_wf(v: TxnRunView) -> bool {
    &&& can_run(v.config)
    &&& values_fit(v.values)
    &&& v.crashes <= v.mode.max_crashes
    &&& v.total <= v.config.num_transactions
    &&& v.committed + v.aborted <= v.total
    &&& v.phase != Phase::Finished ==> v.failure is None
    &&& v.failure is None ==> v.committed + v.aborted == v.total
    &&& v.phase == Phase::Finished && v.failure is None ==> v.total == v.config.num_transactions
    &&& phase_fits(v)
}

/// A pair of byte strings as a mathematical value.
pub open spec fn pair_view(p: Option<(Vec<u8>, Vec<u8>)>) -> Option<(Seq<u8>, Seq<u8>)> {
    match p {
        Some(p) => Some((p.0@, p.1@)),
        None => None,
    }
}

proof fn lemma_values_kept(e: Seq<ModelEntry>, writes: Seq<(Seq<u8>, Seq<u8>)>)
    requires
        values_fit(e),
    ensures
        values_fit(with_values(e, writes)),
    decreases writes.len(),
{
    if writes.len() > 0 {
        lemma_values_kept(e, writes.drop_last());
        let w = writes.last();
        lemma_value_kept(with_values(e, writes.drop_last()), w.0, w.1);
    }
}

proof fn lemma_value_kept(e: Seq<ModelEntry>, key: Seq<u8>, value: Seq<u8>)
    requires
        values_fit(e),
    ensures
        values_fit(with_write(e, key, Some(value))),
{
    reveal(values_fit);
    law_write_keeps_order(e, key, Some(value));
    let n = with_write(e, key, Some(value));
    let p = place_of(e, key) as int;
    lemma_place(e, key);
    assert forall|i: int| 0 <= i < n.len() implies (#[trigger] n[i]).1 is Some by {
        if p < e.len() && e[p].0 == key {
            if i != p {
                assert(n[i] == e[i]);
            }
        } else if i < p {
            assert(n[i] == e[i]);
        } else if i > p {
            assert(n[i] == e[i - 1]);
        }
    }
}

/// What every state keeps to, whatever its phase, while nothing went wrong.
spec fn run_core(v: TxnRunView) -> bool {
    &&& can_run(v.config)
    &&& values_fit(v.values)
    &&& v.values.len() <= usize::MAX
    &&& v.crashes <= v.mode.max_crashes
    &&& v.total <= v.config.num_transactions
    &&& v.failure is None
    &&& v.committed + v.aborted == v.total
}

proof fn lemma_final_keeps(v: TxnRunView, item: int)
    requires
        run_core(v),
        0 <= item,
        v.total == v.config.num_transactions,
    ensures
        run_wf(at_final_item(v, item).0),
{
}

proof fn lemma_begin_keeps(v: TxnRunView, start: int)
    requires
        run_core(v),
        0 <= start < v.config.num_transactions,
        v.total == start,
    ensures
        run_wf(at_begin(v, start).0),
{
}

proof fn lemma_batch_keeps(v: TxnRunView, start: int)
    requires
        run_core(v),
        0 <= start <= v.config.num_transactions,
        v.total == start,
    ensures
        run_wf(at_batch(v, start).0),
{
    if start >= v.config.num_transactions {
        lemma_final_keeps(v, 0);
    } else if v.crashes < v.mode.max_crashes {
        let n = TxnRunView { rng: xorshift(v.rng), ..v };
        lemma_begin_keeps(n, start);
    } else {
        lemma_begin_keeps(v, start);
    }
}

proof fn lemma_item_keeps(v: TxnRunView, start: int, item: int)
    requires
        run_core(v),
        0 <= item,
        0 <= start < v.config.num_transactions,
        v.total == start,
    ensures
        run_wf(at_item(v, start, item).0),
{
    lemma_begin_keeps(v, start);
}

proof fn lemma_commit_keeps(v: TxnRunView, start: int, txn: int)
    requires
        run_core(v),
        0 <= start < v.config.num_transactions,
        v.batch.len() == batch_count(v.config.num_transactions, start),
        0 <= txn <= v.batch.len(),
        v.total == start + txn,
    ensures
        run_wf(at_commit(v, start, txn).0),
{
    if txn >= v.batch.len() {
        lemma_batch_keeps(v, start + v.batch.len());
    }
}

proof fn lemma_op_keeps(v: TxnRunView, start: int, round: int, txn: int)
    requires
        run_core(v),
        0 <= start < v.config.num_transactions,
        v.batch.len() == batch_count(v.config.num_transactions, start),
        0 <= txn < v.batch.len(),
        0 <= round < v.config.ops_per_txn,
        v.total == start,
    ensures
        run_wf(at_op(v, start, round, txn).0),
{
}

proof fn lemma_after_op_keeps(v: TxnRunView, start: int, round: int, txn: int)
    requires
        run_core(v),
        0 <= start < v.config.num_transactions,
        v.batch.len() == batch_count(v.config.num_transactions, start),
        0 <= txn < v.batch.len(),
        0 <= round < v.config.ops_per_txn,
        v.total == start,
    ensures
        run_wf(after_op(v, start, round, txn).0),
{
    if txn + 1 < v.batch.len() {
        lemma_op_keeps(v, start, round, txn + 1);
    } else if round + 1 < v.config.ops_per_txn {
        lemma_op_keeps(v, start, round + 1, 0);
    } else {
        lemma_commit_keeps(v, start, 0);
    }
}

proof fn lemma_key_keeps(v: TxnRunView, key: int)
    requires
        run_core(v),
        0 <= key <= v.config.num_keys,
        v.total == 0,
    ensures
        run_wf(at_key(v, key).0),
{
    if key >= v.config.num_keys {
        lemma_batch_keeps(v, 0);
    }
}

/// Every reply keeps a run to what its states keep to: the committed values stay in order, no
/// more transactions are counted than there are, each of them committed or aborted unless the
/// run failed, and no more crashes strike than may; and a run that is over without a failure
/// has run all its transactions.
pub proof fn law_run_keeps(v: TxnRunView, reply: TxnReply)
    requires
        run_wf(v),
        answers_phase(v, reply),
        v.values.len() <= usize::MAX,
        moved(v, reply).0.values.len() <= usize::MAX,
    ensures
        run_wf(moved(v, reply).0),
{
    assert(run_core(v));
    match (v.phase, reply) {
        (Phase::Open, TxnReply::Opened(_)) => {
            lemma_key_keeps(v, 0);
        },
        (Phase::Init { key }, TxnReply::InitDone(_)) => {
            let values = with_write(v.values, numbered_key(key as nat), Some(encode_utf8("0"@)));
            lemma_value_kept(v.values, numbered_key(key as nat), encode_utf8("0"@));
            if values.len() <= usize::MAX {
                lemma_key_keeps(TxnRunView { values, ..v }, key + 1);
            }
            lemma_key_same_values(TxnRunView { values, ..v }, key + 1);
        },
        (Phase::Reopen { start }, TxnReply::Reopened(_)) => {
            lemma_item_keeps(v, start as int, 0);
        },
        (Phase::Verify { start, item }, TxnReply::VerifyDone(_)) => {
            lemma_item_keeps(v, start as int, item + 1);
        },
        (Phase::Begin { start }, TxnReply::Began(ids)) => {
            let n = TxnRunView { batch: begun(ids@), ..v };
            if v.config.ops_per_txn > 0 {
                lemma_op_keeps(n, start as int, 0, 0);
            } else {
                lemma_commit_keeps(n, start as int, 0);
            }
        },
        (Phase::Reading { start, round, txn }, TxnReply::ReadDone(r)) => {
            let key = (v.pending->0).0;
            let n = match r {
                Some(value) => TxnRunView {
                    batch: op_noted(
                        v.batch,
                        txn as int,
                        TxnOpView::Read { key, value: opt_view(value) },
                    ),
                    ..v
                },
                None => v,
            };
            lemma_after_op_keeps(n, start as int, round as int, txn as int);
        },
        (Phase::Writing { start, round, txn }, TxnReply::WriteDone(taken)) => {
            let (key, value) = v.pending->0;
            let b = write_noted(v.batch, txn as int, key, value);
            let n = TxnRunView {
                batch: if taken {
                    op_noted(b, txn as int, TxnOpView::Write { key, value: Some(value) })
                } else {
                    b
                },
                ..v
            };
            lemma_after_op_keeps(n, start as int, round as int, txn as int);
        },
        (Phase::Commit { start, txn }, TxnReply::CommitDone(o)) => {
            lemma_values_kept(v.values, v.batch[txn as int].writes);
            let n = commit_noted(v, txn as int, o);
            lemma_commit_same_values(n, start as int, txn + 1);
            if !(o is Failed) {
                lemma_commit_keeps(n, start as int, txn + 1);
            }
        },
        (Phase::FinalVerify { item }, TxnReply::VerifyDone(_)) => {
            lemma_final_keeps(v, item + 1);
        },
        _ => {},
    }
}

proof fn lemma_key_same_values(v: TxnRunView, key: int)
    ensures
        at_key(v, key).0.values == v.values,
{
}

proof fn lemma_commit_same_values(v: TxnRunView, start: int, txn: int)
    ensures
        at_commit(v, start, txn).0.values == v.values,
{
}

fn copy_txn_ops(s: &Vec<TxnOperation>) -> (r: Vec<TxnOperation>)
    ensures
        txn_ops_view(r@) == txn_ops_view(s@),
{
    let mut r: Vec<TxnOperation> = Vec::new();
    let mut i: usize = 0;
    while i < s.len()
        invariant
            i <= s.len(),
            r.len() == i,
            forall|k: int| 0 <= k < i ==> (#[trigger] r@[k])@ == s@[k]@,
        decreases s.len() - i,
    {
        let o = match &s[i] {
            TxnOperation::Read { key, value } => TxnOperation::Read {
                key: copy_bytes(key.as_slice()),
                value: copy_value(value),
            },
            TxnOperation::Write { key, value } => TxnOperation::Write {
                key: copy_bytes(key.as_slice()),
                value: copy_value(value),
            },
        };
        r.push(o);
        i += 1;
    }
    assert(txn_ops_view(r@) =~= txn_ops_view(s@));
    r
}

fn check_value(
    label: &str,
    missing: &str,
    failed: &str,
    key: &Vec<u8>,
    expected: &Option<Vec<u8>>,
    got: &Result<Option<Vec<u8>>, String>,
) -> (r: Option<String>)
    requires
        expected is Some,
    ensures
        opt_text(r) == value_wrong(
            label@,
            missing@,
            failed@,
            key@,
            opt_view(*expected),
            got_view(*got),
        ),
{
    match got {
        Err(e) => {
            let mut s = text_of(failed);
            s.push_str(e.as_str());
            Some(s)
        },
        Ok(v) => {
            if same_value(v, expected) {
                return None;
            }
            let mut s = text_of(label);
            s.push_str("[");
            push_byte_items(&mut s, key.as_slice());
            match (v, expected) {
                (Some(actual), Some(want)) => {
                    s.push_str("] expected [");
                    push_byte_items(&mut s, want.as_slice());
                    s.push_str("], got [");
                    push_byte_items(&mut s, actual.as_slice());
                    s.push_str("]");
                },
                _ => {
                    s.push_str("] ");
                    s.push_str(missing);
                },
            }
            Some(s)
        },
    }
}

/// A run of transactions.
pub struct TxnRun {
    config: TxnStressConfig,
    mode: TxnRunMode,
    seed: u64,
    rng: SimpleRng,
    phase: Phase,
    batch: Vec<BatchTxn>,
    pending: Option<(Vec<u8>, Vec<u8>)>,
    total: u64,
    committed: u64,
    aborted: u64,
    crashes: u64,
    values: Vec<(Vec<u8>, Option<Vec<u8>>)>,
    checker: SerializationChecker,
    failure: Option<String>,
}

impl View for TxnRun {
    type V = TxnRunView;

    closed spec fn view(&self) -> TxnRunView {
        TxnRunView {
            config: self.config,
            mode: self.mode,
            seed: self.seed,
            rng: self.rng.spec_state(),
            phase: self.phase,
            batch: batch_view(self.batch@),
            pending: pair_view(self.pending),
            total: self.total,
            committed: self.committed,
            aborted: self.aborted,
            crashes: self.crashes,
            values: pairs_view(self.values@),
            history: self.checker.spec_transactions(),
            failure: opt_text(self.failure),
        }
    }
}

impl TxnRun {
    /// Starts a run; the first action is to open the database.
    pub fn new(seed: u64, config: TxnStressConfig, mode: TxnRunMode) -> (r: (Self, TxnAction))
        requires
            can_run(config),
        ensures
            r.0@ == run_start(seed, config, mode),
            run_wf(r.0@),
            r.1@ == ActionView::Open,
    {
        let run = TxnRun {
            config,
            mode,
            seed,
            rng: SimpleRng::new(seed),
            phase: Phase::Open,
            batch: Vec::new(),
            pending: None,
            total: 0,
            committed: 0,
            aborted: 0,
            crashes: 0,
            values: Vec::new(),
            checker: SerializationChecker::new(),
            failure: None,
        };
        proof {
            reveal(values_fit);
            assert(run@.batch =~= Seq::<BatchTxnView>::empty());
            assert(run@.values =~= Seq::<ModelEntry>::empty());
        }
        (run, TxnAction::Open)
    }

    fn fail(&mut self, text: String) -> (r: TxnAction)
        ensures
            (final(self)@, r@) == run_failed(old(self)@, text@),
    {
        self.phase = Phase::Finished;
        self.failure = Some(text);
        TxnAction::Finish
    }

    fn fail_with(&mut self, label: &str, text: &String) -> (r: TxnAction)
        ensures
            (final(self)@, r@) == run_failed(old(self)@, label@ + text@),
    {
        let mut s = text_of(label);
        s.push_str(text.as_str());
        self.fail(s)
    }

    fn go_final_item(&mut self, item: usize) -> (r: TxnAction)
        ensures
            (final(self)@, r@) == at_final_item(old(self)@, item as int),
    {
        if self.mode.verify_values && item < self.values.len() {
            self.phase = Phase::FinalVerify { item };
            TxnAction::VerifyRead { key: copy_bytes(self.values[item].0.as_slice()) }
        } else {
            self.phase = Phase::Finished;
            self.failure = None;
            TxnAction::Finish
        }
    }

    fn go_begin(&mut self, start: usize) -> (r: TxnAction)
        requires
            start < old(self)@.config.num_transactions,
        ensures
            (final(self)@, r@) == at_begin(old(self)@, start as int),
    {
        self.phase = Phase::Begin { start };
        let left: usize = self.config.num_transactions - start;
        let count: usize = if left < BATCH_SIZE {
            left
        } else {
            BATCH_SIZE
        };
        TxnAction::BeginBatch { count }
    }

    fn go_batch(&mut self, start: usize) -> (r: TxnAction)
        ensures
            (final(self)@, r@) == at_batch(old(self)@, start as int),
    {
        if start >= self.config.num_transactions {
            return self.go_final_item(0);
        }
        if self.crashes < self.mode.max_crashes {
            let t = self.rng.next();
            if (t as u128) < self.mode.crash_below {
                self.phase = Phase::Reopen { start };
                self.crashes = self.crashes + 1;
                return TxnAction::CrashAndReopen;
            }
        }
        self.go_begin(start)
    }

    fn go_item(&mut self, start: usize, item: usize) -> (r: TxnAction)
        requires
            start < old(self)@.config.num_transactions,
        ensures
            (final(self)@, r@) == at_item(old(self)@, start as int, item as int),
    {
        if self.mode.verify_values && item < self.values.len() {
            self.phase = Phase::Verify { start, item };
            TxnAction::VerifyRead { key: copy_bytes(self.values[item].0.as_slice()) }
        } else {
            self.go_begin(start)
        }
    }

    fn go_commit(&mut self, start: usize, txn: usize) -> (r: TxnAction)
        requires
            start + old(self)@.batch.len() <= usize::MAX,
        ensures
            (final(self)@, r@) == at_commit(old(self)@, start as int, txn as int),
    {
        if txn < self.batch.len() {
            self.phase = Phase::Commit { start, txn };
            self.pending = None;
            TxnAction::Commit { txn }
        } else {
            self.go_batch(start + self.batch.len())
        }
    }

    fn go_op(&mut self, start: usize, round: usize, txn: usize) -> (r: TxnAction)
        requires
            old(self)@.config.num_keys > 0,
            start + txn <= usize::MAX,
        ensures
            (final(self)@, r@) == at_op(old(self)@, start as int, round as int, txn as int),
    {
        match choose_op(&mut self.rng, start + txn, round, self.config.num_keys) {
            TxnChoice::Read { key } => {
                let empty: Vec<u8> = Vec::new();
                self.phase = Phase::Reading { start, round, txn };
                self.pending = Some((copy_bytes(key.as_slice()), empty));
                TxnAction::Read { txn, key }
            },
            TxnChoice::Write { key, value } => {
                self.phase = Phase::Writing { start, round, txn };
                self.pending = Some((copy_bytes(key.as_slice()), copy_bytes(value.as_slice())));
                TxnAction::Write { txn, key, value }
            },
        }
    }

    fn go_after_op(&mut self, start: usize, round: usize, txn: usize) -> (r: TxnAction)
        requires
            old(self)@.config.num_keys > 0,
            start + old(self)@.batch.len() <= usize::MAX,
            txn < old(self)@.batch.len(),
            round < usize::MAX,
        ensures
            (final(self)@, r@) == after_op(old(self)@, start as int, round as int, txn as int),
    {
        if txn + 1 < self.batch.len() {
            self.go_op(start, round, txn + 1)
        } else if round + 1 < self.config.ops_per_txn {
            self.go_op(start, round + 1, 0)
        } else {
            self.go_commit(start, 0)
        }
    }

    fn go_key(&mut self, key: usize) -> (r: TxnAction)
        ensures
            (final(self)@, r@) == at_key(old(self)@, key as int),
    {
        if key < self.config.num_keys {
            self.phase = Phase::Init { key };
            TxnAction::InitKey { key: key_bytes(key), value: bytes_of("0") }
        } else {
            self.go_batch(0)
        }
    }

    fn note_op(&mut self, txn: usize, op: TxnOperation)
        requires
            txn < old(self)@.batch.len(),
        ensures
            final(self)@ == (TxnRunView {
                batch: op_noted(old(self)@.batch, txn as int, op@),
                ..old(self)@
            }),
    {
        let ghost before = self@;
        let b = &mut self.batch[txn];
        let ghost ops = b.operations@;
        b.operations.push(op);
        proof {
            assert(txn_ops_view(ops.push(op)) =~= txn_ops_view(ops).push(op@));
            assert(self@.batch =~= op_noted(before.batch, txn as int, op@));
        }
    }

    fn note_write(&mut self, txn: usize, key: Vec<u8>, value: Vec<u8>)
        requires
            txn < old(self)@.batch.len(),
        ensures
            final(self)@ == (TxnRunView {
                batch: write_noted(old(self)@.batch, txn as int, key@, value@),
                ..old(self)@
            }),
    {
        let ghost before = self@;
        let b = &mut self.batch[txn];
        let ghost writes = b.writes@;
        b.writes.push((key, value));
        proof {
            assert(writes_view(writes.push((key, value))) =~= writes_view(writes).push(
                (key@, value@),
            ));
            assert(self@.batch =~= write_noted(before.batch, txn as int, key@, value@));
        }
    }

    fn begin_batch(&mut self, ids: &Vec<(u64, u64)>)
        ensures
            final(self)@ == (TxnRunView { batch: begun(ids@), ..old(self)@ }),
    {
        let mut batch: Vec<BatchTxn> = Vec::new();
        let mut i: usize = 0;
        while i < ids.len()
            invariant
                i <= ids.len(),
                batch_view(batch@) =~= begun(ids@.take(i as int)),
            decreases ids.len() - i,
        {
            let ghost before = batch@;
            let b = BatchTxn {
                txn_id: ids[i].0,
                begin_ts: ids[i].1,
                operations: Vec::new(),
                writes: Vec::new(),
            };
            proof {
                assert(b@.operations =~= Seq::<TxnOpView>::empty());
                assert(b@.writes =~= Seq::<(Seq<u8>, Seq<u8>)>::empty());
                assert(ids@.take(i + 1) =~= ids@.take(i as int).push(ids@[i as int]));
            }
            batch.push(b);
            assert(batch_view(batch@) =~= batch_view(before).push(b@));
            i += 1;
        }
        assert(ids@.take(ids@.len() as int) =~= ids@);
        self.batch = batch;
    }

    fn keep_values(&mut self, txn: usize)
        requires
            txn < old(self)@.batch.len(),
            values_fit(old(self)@.values),
        ensures
            final(self)@ == (TxnRunView {
                values: with_values(old(self)@.values, old(self)@.batch[txn as int].writes),
                ..old(self)@
            }),
    {
        let ghost before = self@;
        let ghost writes = before.batch[txn as int].writes;
        let ghost ws = self.batch@[txn as int].writes@;
        let mut i: usize = 0;
        proof {
            assert(writes.take(0) =~= Seq::<(Seq<u8>, Seq<u8>)>::empty());
            reveal(values_fit);
        }
        while i < self.batch[txn].writes.len()
            invariant
                txn < self.batch.len(),
                ws == self.batch@[txn as int].writes@,
                writes == writes_view(ws),
                i <= writes.len(),
                keys_ascend(self@.values),
                self@ == (TxnRunView {
                    values: with_values(before.values, writes.take(i as int)),
                    ..before
                }),
            decreases writes.len() - i,
        {
            proof {
                assert(writes.take(i + 1).drop_last() =~= writes.take(i as int));
                assert(writes.take(i + 1).last() == writes[i as int]);
            }
            let value = copy_bytes(self.batch[txn].writes[i].1.as_slice());
            set_entry(&mut self.values, self.batch[txn].writes[i].0.as_slice(), Some(value));
            i += 1;
        }
        assert(writes.take(writes.len() as int) =~= writes);
    }

    fn note_commit(&mut self, txn: usize, o: &CommitOutcome)
        requires
            txn < old(self)@.batch.len(),
            values_fit(old(self)@.values),
            old(self)@.total < u64::MAX,
            old(self)@.committed < u64::MAX,
            old(self)@.aborted < u64::MAX,
        ensures
            final(self)@ == commit_noted(old(self)@, txn as int, *o),
    {
        self.total = self.total + 1;
        match o {
            CommitOutcome::Committed { commit_ts } => {
                self.committed = self.committed + 1;
                self.keep_values(txn);
                self.record(txn, true, *commit_ts);
            },
            CommitOutcome::Aborted => {
                self.aborted = self.aborted + 1;
                self.record(txn, false, 0);
            },
            CommitOutcome::Failed(_) => {},
        }
    }

    fn record(&mut self, txn: usize, committed: bool, commit_ts: u64)
        requires
            txn < old(self)@.batch.len(),
        ensures
            final(self)@ == (TxnRunView {
                history: old(self)@.history.push(
                    completed(old(self)@.batch[txn as int], committed, commit_ts),
                ),
                ..old(self)@
            }),
    {
        let b = &self.batch[txn];
        let c = CompletedTransaction {
            txn_id: b.txn_id,
            begin_ts: b.begin_ts,
            commit_ts,
            committed,
            operations: copy_txn_ops(&b.operations),
        };
        self.checker.record_transaction(c);
    }

    fn conclude(&mut self)
        ensures
            concluded(old(self)@, final(self)@),
    {
        if self.phase == Phase::Finished && self.failure.is_none() && self.mode.check_history {
            self.checker.build_dependency_graph();
            if let Err(violation) = self.checker.check_serializability() {
                self.failure = Some(violation.describe());
            }
        }
    }

    fn take(&mut self, reply: TxnReply) -> (r: TxnAction)
        requires
            run_wf(old(self)@),
            answers_phase(old(self)@, reply),
        ensures
            (final(self)@, r@) == moved(old(self)@, reply),
    {
        assert(self@.values.len() == self.values.len());
        match (self.phase, reply) {
            (Phase::Open, TxnReply::Opened(r)) => match r {
                Ok(_) => self.go_key(0),
                Err(e) => self.fail_with("Failed to open database: ", &e),
            },
            (Phase::Init { key }, TxnReply::InitDone(o)) => match o {
                InitOutcome::Committed => {
                    let name = key_bytes(key);
                    assert(keys_ascend(pairs_view(self.values@))) by {
                        reveal(values_fit);
                    }
                    set_entry(&mut self.values, name.as_slice(), Some(bytes_of("0")));
                    self.go_key(key + 1)
                },
                InitOutcome::PutFailed(e) => self.fail_with("Failed to initialize key: ", &e),
                InitOutcome::Aborted => self.fail(text_of("Unexpected SSI abort during init")),
                InitOutcome::CommitFailed(e) => self.fail_with("Failed to commit init: ", &e),
            },
            (Phase::Reopen { start }, TxnReply::Reopened(r)) => match r {
                Ok(_) => self.go_item(start, 0),
                Err(e) => self.fail_with("Failed to reopen after crash: ", &e),
            },
            (Phase::Verify { start, item }, TxnReply::VerifyDone(r)) => {
                let wrong = self.check_item(
                    "Durability violation: key ",
                    "missing after crash",
                    "Read error after crash: ",
                    item,
                    &r,
                );
                match wrong {
                    Some(text) => self.fail(text),
                    None => self.go_item(start, item + 1),
                }
            },
            (Phase::Begin { start }, TxnReply::Began(ids)) => {
                self.begin_batch(&ids);
                if self.config.ops_per_txn > 0 {
                    self.go_op(start, 0, 0)
                } else {
                    self.go_commit(start, 0)
                }
            },
            (Phase::Reading { start, round, txn }, TxnReply::ReadDone(r)) => {
                if let Some(value) = r {
                    if let Some(p) = &self.pending {
                        let key = copy_bytes(p.0.as_slice());
                        self.note_op(txn, TxnOperation::Read { key, value });
                    }
                }
                self.go_after_op(start, round, txn)
            },
            (Phase::Writing { start, round, txn }, TxnReply::WriteDone(taken)) => {
                if let Some(p) = &self.pending {
                    let key = copy_bytes(p.0.as_slice());
                    let value = copy_bytes(p.1.as_slice());
                    let op = TxnOperation::Write {
                        key: copy_bytes(p.0.as_slice()),
                        value: Some(copy_bytes(p.1.as_slice())),
                    };
                    self.note_write(txn, key, value);
                    if taken {
                        self.note_op(txn, op);
                    }
                }
                self.go_after_op(start, round, txn)
            },
            (Phase::Commit { start, txn }, TxnReply::CommitDone(o)) => {
                self.note_commit(txn, &o);
                match o {
                    CommitOutcome::Failed(e) => self.fail_with("Commit error: ", &e),
                    _ => self.go_commit(start, txn + 1),
                }
            },
            (Phase::FinalVerify { item }, TxnReply::VerifyDone(r)) => {
                let wrong = self.check_item(
                    "Final verification failed: key ",
                    "missing",
                    "Final read error: ",
                    item,
                    &r,
                );
                match wrong {
                    Some(text) => self.fail(text),
                    None => self.go_final_item(item + 1),
                }
            },
            _ => TxnAction::Finish,
        }
    }

    fn check_item(
        &self,
        label: &str,
        missing: &str,
        failed: &str,
        item: usize,
        got: &Result<Option<Vec<u8>>, String>,
    ) -> (r: Option<String>)
        requires
            item < self@.values.len(),
            values_fit(self@.values),
        ensures
            opt_text(r) == value_wrong(
                label@,
                missing@,
                failed@,
                self@.values[item as int].0,
                self@.values[item as int].1,
                got_view(*got),
            ),
    {
        assert(self@.values[item as int].1 is Some) by {
            reveal(values_fit);
        }
        let e = &self.values[item];
        check_value(label, missing, failed, &e.0, &e.1, got)
    }

    /// Takes the reply to the action asked for last and says what is asked for next.
    pub fn step(&mut self, reply: TxnReply) -> (r: TxnAction)
        requires
            run_wf(old(self)@),
            answers_phase(old(self)@, reply),
        ensures
            r@ == moved(old(self)@, reply).1,
            concluded(moved(old(self)@, reply).0, final(self)@),
            run_wf(final(self)@),
    {
        let ghost before = self@;
        assert(before.values.len() == self.values.len());
        let r = self.take(reply);
        proof {
            assert(self@.values.len() == self.values.len());
            law_run_keeps(before, reply);
        }
        self.conclude();
        r
    }

    /// Tells whether the run is over.
    pub fn is_finished(&self) -> (r: bool)
        ensures
            r == (self@.phase == Phase::Finished),
    {
        match self.phase {
            Phase::Finished => true,
            _ => false,
        }
    }

    /// Returns the result of a run that is over.
    pub fn result(&self) -> (r: TxnStressResult)
        requires
            self@.phase == Phase::Finished,
        ensures
            r.passed == (self@.failure is None),
            r.seed == self@.seed,
            r.total_txns == self@.total,
            r.committed_txns == self@.committed,
            r.aborted_txns == self@.aborted,
            opt_text(r.failure) == self@.failure,
    {
        TxnStressResult {
            passed: self.failure.is_none(),
            seed: self.seed,
            total_txns: self.total,
            committed_txns: self.committed,
            aborted_txns: self.aborted,
            failure: match &self.failure {
                Some(f) => Some(text_of(f.as_str())),
                None => None,
            },
        }
    }

    /// Returns the result of a run with crashes that is over.
    pub fn crash_result(&self) -> (r: TxnStressWithCrashesResult)
        requires
            self@.phase == Phase::Finished,
        ensures
            r.passed == (self@.failure is None),
            r.seed == self@.seed,
            r.total_txns == self@.total,
            r.committed_txns == self@.committed,
            r.aborted_txns == self@.aborted,
            r.crashes == self@.crashes,
            opt_text(r.failure) == self@.failure,
    {
        TxnStressWithCrashesResult {
            passed: self.failure.is_none(),
            seed: self.seed,
            total_txns: self.total,
            committed_txns: self.committed,
            aborted_txns: self.aborted,
            crashes: self.crashes,
            failure: match &self.failure {
                Some(f) => Some(text_of(f.as_str())),
                None => None,
            },
        }
    }
}

/// The part of a run that a state is in, counted from its end.
pub open spec fn part_left(v: TxnRunView) -> nat {
    match v.phase {
        Phase::Open => 4,
        Phase::Init { .. } => 3,
        Phase::FinalVerify { .. } => 1,
        Phase::Finished => 0,
        _ => 2,
    }
}

/// What is left of that part: keys, transactions or values.
pub open spec fn left_in_part(v: TxnRunView) -> int {
    match v.phase {
        Phase::Init { key } => v.config.num_keys - key,
        Phase::Reopen { start } => v.config.num_transactions - start,
        Phase::Verify { start, .. } => v.config.num_transactions - start,
        Phase::Begin { start } => v.config.num_transactions - start,
        Phase::Reading { start, .. } => v.config.num_transactions - start,
        Phase::Writing { start, .. } => v.config.num_transactions - start,
        Phase::Commit { start, .. } => v.config.num_transactions - start,
        Phase::FinalVerify { item } => v.values.len() - item,
        _ => 0,
    }
}

/// What is left of a batch.
pub open spec fn batch_left(v: TxnRunView) -> nat {
    match v.phase {
        Phase::Reopen { .. } => 4,
        Phase::Verify { .. } => 3,
        Phase::Begin { .. } => 2,
        Phase::Reading { .. } => 1,
        Phase::Writing { .. } => 1,
        _ => 0,
    }
}

/// What is left of that: values, rounds or commits.
pub open spec fn left_in_batch(v: TxnRunView) -> int {
    match v.phase {
        Phase::Verify { item, .. } => v.values.len() - item,
        Phase::Reading { round, .. } => v.config.ops_per_txn - round,
        Phase::Writing { round, .. } => v.config.ops_per_txn - round,
        Phase::Commit { txn, .. } => v.batch.len() - txn,
        _ => 0,
    }
}

/// What is left of a round.
pub open spec fn left_in_round(v: TxnRunView) -> int {
    match v.phase {
        Phase::Reading { txn, .. } => v.batch.len() - txn,
        Phase::Writing { txn, .. } => v.batch.len() - txn,
        _ => 0,
    }
}

/// Tells whether a state is nearer to the end than another.
pub open spec fn nearer(a: TxnRunView, b: TxnRunView) -> bool {
    decreases_to!(part_left(a), left_in_part(a), batch_left(a), left_in_batch(a), left_in_round(a)
        => part_left(b), left_in_part(b), batch_left(b), left_in_batch(b), left_in_round(b))
}

proof fn lemma_batch_place(v: TxnRunView, start: int)
    requires
        0 <= start,
    ensures
        part_left(at_batch(v, start).0) <= 1 || (part_left(at_batch(v, start).0) == 2
            && left_in_part(at_batch(v, start).0) == v.config.num_transactions - start),
{
}

proof fn lemma_commit_place(v: TxnRunView, start: int, txn: int)
    requires
        0 <= start <= usize::MAX,
        0 < v.batch.len() <= usize::MAX,
        0 <= txn,
    ensures
        at_commit(v, start, txn).0.config == v.config,
        part_left(at_commit(v, start, txn).0) <= 1 || (part_left(at_commit(v, start, txn).0) == 2
            && if txn < v.batch.len() {
            &&& left_in_part(at_commit(v, start, txn).0) == v.config.num_transactions - start
            &&& batch_left(at_commit(v, start, txn).0) == 0
            &&& left_in_batch(at_commit(v, start, txn).0) == v.batch.len() - txn
        } else {
            0 <= left_in_part(at_commit(v, start, txn).0) < v.config.num_transactions - start
        }),
{
    if txn >= v.batch.len() {
        lemma_batch_place(v, start + v.batch.len());
    }
}

proof fn lemma_op_place(v: TxnRunView, start: int, round: int, txn: int)
    requires
        0 <= start <= usize::MAX,
        0 <= round < v.config.ops_per_txn,
        0 <= txn < v.batch.len() <= usize::MAX,
    ensures
        part_left(at_op(v, start, round, txn).0) == 2,
        left_in_part(at_op(v, start, round, txn).0) == v.config.num_transactions - start,
        batch_left(at_op(v, start, round, txn).0) == 1,
        left_in_batch(at_op(v, start, round, txn).0) == v.config.ops_per_txn - round,
        left_in_round(at_op(v, start, round, txn).0) == v.batch.len() - txn,
{
}

proof fn lemma_after_op_ends(v: TxnRunView, n: TxnRunView, start: usize, round: usize, txn: usize)
    requires
        run_wf(v),
        v.phase == (Phase::Reading { start, round, txn }) || v.phase == (Phase::Writing {
            start,
            round,
            txn,
        }),
        n.config == v.config,
        n.batch.len() == v.batch.len(),
    ensures
        nearer(v, after_op(n, start as int, round as int, txn as int).0),
{
    if txn + 1 < n.batch.len() {
        lemma_op_place(n, start as int, round as int, txn + 1);
    } else if round + 1 < n.config.ops_per_txn {
        lemma_op_place(n, start as int, round + 1, 0);
    } else {
        lemma_commit_place(n, start as int, 0);
    }
}

proof fn lemma_set_up_ends(v: TxnRunView, reply: TxnReply)
    requires
        run_wf(v),
        answers_phase(v, reply),
        v.phase is Open || v.phase is Init,
    ensures
        nearer(v, moved(v, reply).0),
{
    match (v.phase, reply) {
        (Phase::Open, TxnReply::Opened(_)) => {
            lemma_batch_place(v, 0);
        },
        (Phase::Init { key }, TxnReply::InitDone(_)) => {
            let values = with_write(v.values, numbered_key(key as nat), Some(encode_utf8("0"@)));
            lemma_batch_place(TxnRunView { values, ..v }, 0);
        },
        _ => {},
    }
}

proof fn lemma_verify_ends(v: TxnRunView, reply: TxnReply)
    requires
        run_wf(v),
        answers_phase(v, reply),
        v.values.len() <= usize::MAX,
        v.phase is Reopen || v.phase is Verify || v.phase is FinalVerify,
    ensures
        nearer(v, moved(v, reply).0),
{
}

proof fn lemma_begin_ends(v: TxnRunView, reply: TxnReply)
    requires
        run_wf(v),
        answers_phase(v, reply),
        v.phase is Begin,
    ensures
        nearer(v, moved(v, reply).0),
{
    match (v.phase, reply) {
        (Phase::Begin { start }, TxnReply::Began(ids)) => {
            let n = TxnRunView { batch: begun(ids@), ..v };
            if v.config.ops_per_txn > 0 {
                lemma_op_place(n, start as int, 0, 0);
            } else {
                lemma_commit_place(n, start as int, 0);
            }
        },
        _ => {},
    }
}

proof fn lemma_op_ends(v: TxnRunView, reply: TxnReply)
    requires
        run_wf(v),
        answers_phase(v, reply),
        v.phase is Reading || v.phase is Writing,
    ensures
        nearer(v, moved(v, reply).0),
{
    match (v.phase, reply) {
        (Phase::Reading { start, round, txn }, TxnReply::ReadDone(r)) => {
            let key = (v.pending->0).0;
            let n = match r {
                Some(value) => TxnRunView {
                    batch: op_noted(
                        v.batch,
                        txn as int,
                        TxnOpView::Read { key, value: opt_view(value) },
                    ),
                    ..v
                },
                None => v,
            };
            lemma_after_op_ends(v, n, start, round, txn);
        },
        (Phase::Writing { start, round, txn }, TxnReply::WriteDone(taken)) => {
            let (key, value) = v.pending->0;
            let b = write_noted(v.batch, txn as int, key, value);
            let n = TxnRunView {
                batch: if taken {
                    op_noted(b, txn as int, TxnOpView::Write { key, value: Some(value) })
                } else {
                    b
                },
                ..v
            };
            lemma_after_op_ends(v, n, start, round, txn);
        },
        _ => {},
    }
}

proof fn lemma_commit_ends(v: TxnRunView, reply: TxnReply)
    requires
        run_wf(v),
        answers_phase(v, reply),
        v.phase is Commit,
    ensures
        nearer(v, moved(v, reply).0),
{
    match (v.phase, reply) {
        (Phase::Commit { start, txn }, TxnReply::CommitDone(o)) => {
            let n = commit_noted(v, txn as int, o);
            lemma_commit_place(n, start as int, txn + 1);
        },
        _ => {},
    }
}

/// Every reply brings a run nearer to its end, so that a run ends whatever the replies are.
pub proof fn law_run_ends(v: TxnRunView, reply: TxnReply)
    requires
        run_wf(v),
        answers_phase(v, reply),
        v.values.len() <= usize::MAX,
    ensures
        nearer(v, moved(v, reply).0),
{
    match v.phase {
        Phase::Open | Phase::Init { .. } => lemma_set_up_ends(v, reply),
        Phase::Begin { .. } => lemma_begin_ends(v, reply),
        Phase::Reading { .. } | Phase::Writing { .. } => lemma_op_ends(v, reply),
        Phase::Commit { .. } => lemma_commit_ends(v, reply),
        Phase::Finished => {},
        _ => lemma_verify_ends(v, reply),
    }
}

/// A run that checks its history and is over without a failure has a history without a cycle.
pub proof fn law_passed_history_acyclic(want: TxnRunView, have: TxnRunView)
    requires
        concluded(want, have),
        have.mode.check_history,
        have.phase == Phase::Finished,
        have.failure is None,
    ensures
        !has_cycle(graph_of(have.history)),
{
}

/// Where a reply moves a run.
#[verifier::opaque]
pub open spec fn next_state(v: TxnRunView, reply: TxnReply) -> TxnRunView {
    moved(v, reply).0
}

/// The state that a run is in after replies.
pub open spec fn run_after(v: TxnRunView, replies: Seq<TxnReply>) -> TxnRunView
    decreases replies.len(),
{
    if replies.len() == 0 {
        v
    } else {
        next_state(run_after(v, replies.drop_last()), replies.last())
    }
}

/// Tells whether every reply answers what the run asks for when it comes.
pub open spec fn all_answer(v: TxnRunView, replies: Seq<TxnReply>) -> bool {
    forall|i: int|
        #![trigger replies[i]]
        0 <= i < replies.len() ==> answers_phase(run_after(v, replies.take(i)), replies[i])
            && run_after(v, replies.take(i)).values.len() <= usize::MAX
}

/// Tells whether a reply gave back a committed value.
pub open spec fn gave_back(e: ModelEntry, reply: TxnReply) -> bool {
    reply is VerifyDone && got_view(reply->VerifyDone_0) == Ok::<ValueView, Seq<char>>(e.1)
}

/// Tells whether a reply in a run gave a committed value back in the verification at the end.
pub open spec fn verified_by(
    v: TxnRunView,
    replies: Seq<TxnReply>,
    j: int,
    item: int,
    e: ModelEntry,
) -> bool {
    &&& 0 <= j < replies.len()
    &&& run_after(v, replies.take(j)).phase == (Phase::FinalVerify { item: item as usize })
    &&& gave_back(e, replies[j])
}

/// Tells whether a committed value of a run was given back in the verification at the end.
pub open spec fn item_verified(v: TxnRunView, replies: Seq<TxnReply>, item: int) -> bool {
    exists|j: int| #[trigger]
        verified_by(v, replies, j, item, run_after(v, replies).values[item])
}

/// Tells whether the first of the committed values were given back.
#[verifier::opaque]
spec fn first_verified(v: TxnRunView, replies: Seq<TxnReply>, n: int) -> bool {
    forall|i: int| 0 <= i < n ==> #[trigger] item_verified(v, replies, i)
}

spec fn enters_final(v: TxnRunView) -> bool {
    &&& v.phase is FinalVerify ==> v.mode.verify_values && v.phase->FinalVerify_item == 0
    &&& v.phase == Phase::Finished && v.failure is None && v.mode.verify_values ==> v.values.len()
        == 0
}

proof fn lemma_batch_enters(v: TxnRunView, start: int)
    ensures
        enters_final(at_batch(v, start).0),
        at_batch(v, start).0.mode == v.mode,
{
}

proof fn lemma_commit_enters(v: TxnRunView, start: int, txn: int)
    ensures
        enters_final(at_commit(v, start, txn).0),
        at_commit(v, start, txn).0.mode == v.mode,
{
    lemma_batch_enters(v, start + v.batch.len());
}

proof fn lemma_after_op_enters(v: TxnRunView, start: int, round: int, txn: int)
    ensures
        enters_final(after_op(v, start, round, txn).0),
        after_op(v, start, round, txn).0.mode == v.mode,
{
    lemma_commit_enters(v, start, 0);
}

proof fn lemma_enters(v: TxnRunView, reply: TxnReply)
    requires
        answers_phase(v, reply),
        !(v.phase is FinalVerify),
    ensures
        enters_final(moved(v, reply).0),
        moved(v, reply).0.mode == v.mode,
{
    match (v.phase, reply) {
        (Phase::Open, TxnReply::Opened(_)) => {
            lemma_batch_enters(v, 0);
        },
        (Phase::Init { key }, TxnReply::InitDone(_)) => {
            let values = with_write(v.values, numbered_key(key as nat), Some(encode_utf8("0"@)));
            lemma_batch_enters(TxnRunView { values, ..v }, 0);
        },
        (Phase::Begin { start }, TxnReply::Began(ids)) => {
            lemma_commit_enters(TxnRunView { batch: begun(ids@), ..v }, start as int, 0);
        },
        (Phase::Reading { start, round, txn }, TxnReply::ReadDone(r)) => {
            let key = (v.pending->0).0;
            let n = match r {
                Some(value) => TxnRunView {
                    batch: op_noted(
                        v.batch,
                        txn as int,
                        TxnOpView::Read { key, value: opt_view(value) },
                    ),
                    ..v
                },
                None => v,
            };
            lemma_after_op_enters(n, start as int, round as int, txn as int);
        },
        (Phase::Writing { start, round, txn }, TxnReply::WriteDone(taken)) => {
            let (key, value) = v.pending->0;
            let b = write_noted(v.batch, txn as int, key, value);
            let n = TxnRunView {
                batch: if taken {
                    op_noted(b, txn as int, TxnOpView::Write { key, value: Some(value) })
                } else {
                    b
                },
                ..v
            };
            lemma_after_op_enters(n, start as int, round as int, txn as int);
        },
        (Phase::Commit { start, txn }, TxnReply::CommitDone(o)) => {
            lemma_commit_enters(commit_noted(v, txn as int, o), start as int, txn + 1);
        },
        _ => {},
    }
}

proof fn lemma_final_step(v: TxnRunView, reply: TxnReply)
    requires
        run_wf(v),
        answers_phase(v, reply),
        v.phase is FinalVerify,
        v.mode.verify_values,
    ensures
        next_state(v, reply).mode == v.mode,
        next_state(v, reply).values == v.values,
        next_state(v, reply).failure is None ==> {
            let item = v.phase->FinalVerify_item as int;
            &&& gave_back(v.values[item], reply)
            &&& if item + 1 < v.values.len() {
                next_state(v, reply).phase == (Phase::FinalVerify { item: (item + 1) as usize })
            } else {
                next_state(v, reply).phase == Phase::Finished
            }
        },
        next_state(v, reply).failure is Some ==> next_state(v, reply).phase == Phase::Finished,
{
    reveal(next_state);
}

proof fn lemma_state_kept(v: TxnRunView, reply: TxnReply)
    requires
        run_wf(v),
        answers_phase(v, reply),
        v.values.len() <= usize::MAX,
        next_state(v, reply).values.len() <= usize::MAX,
    ensures
        run_wf(next_state(v, reply)),
        !(v.phase is FinalVerify) ==> enters_final(next_state(v, reply)) && next_state(
            v,
            reply,
        ).mode == v.mode,
{
    reveal(next_state);
    law_run_keeps(v, reply);
    if !(v.phase is FinalVerify) {
        lemma_enters(v, reply);
    }
}

proof fn lemma_still_verified(v: TxnRunView, replies: Seq<TxnReply>)
    requires
        replies.len() > 0,
        run_after(v, replies.drop_last()).phase is FinalVerify,
        run_after(v, replies.drop_last()).phase->FinalVerify_item < run_after(
            v,
            replies.drop_last(),
        ).values.len(),
        run_after(v, replies).values == run_after(v, replies.drop_last()).values,
        gave_back(
            run_after(v, replies).values[run_after(
                v,
                replies.drop_last(),
            ).phase->FinalVerify_item as int],
            replies.last(),
        ),
        first_verified(
            v,
            replies.drop_last(),
            run_after(v, replies.drop_last()).phase->FinalVerify_item as int,
        ),
    ensures
        first_verified(
            v,
            replies,
            run_after(v, replies.drop_last()).phase->FinalVerify_item + 1,
        ),
{
    let front = replies.drop_last();
    let u = run_after(v, front);
    let w = run_after(v, replies);
    let item = u.phase->FinalVerify_item as int;
    assert(replies.take(replies.len() - 1) =~= front);
    reveal(first_verified);
    assert forall|i: int| 0 <= i < item + 1 implies #[trigger] item_verified(v, replies, i) by {
        if i < item {
            assert(item_verified(v, front, i));
            assert(u.values[i] == w.values[i]);
            let j = choose|j: int| #[trigger] verified_by(v, front, j, i, u.values[i]);
            assert(front.take(j) =~= replies.take(j));
            assert(verified_by(v, replies, j, i, w.values[i]));
        } else {
            assert(verified_by(v, replies, replies.len() - 1, i, w.values[i]));
        }
    }
}

proof fn lemma_verified_so_far(v: TxnRunView, replies: Seq<TxnReply>)
    requires
        run_wf(v),
        v.phase == Phase::Open,
        all_answer(v, replies),
        run_after(v, replies).values.len() <= usize::MAX,
    ensures
        run_wf(run_after(v, replies)),
        run_after(v, replies).mode == v.mode,
        run_after(v, replies).phase is FinalVerify ==> v.mode.verify_values && first_verified(
            v,
            replies,
            run_after(v, replies).phase->FinalVerify_item as int,
        ),
        run_after(v, replies).phase == Phase::Finished && run_after(v, replies).failure is None
            && v.mode.verify_values ==> first_verified(
            v,
            replies,
            run_after(v, replies).values.len() as int,
        ),
    decreases replies.len(),
{
    if replies.len() == 0 {
        assert(run_after(v, replies) == v);
    } else {
        let front = replies.drop_last();
        let reply = replies.last();
        let u = run_after(v, front);
        let w = run_after(v, replies);
        assert(replies.take(replies.len() - 1) =~= front);
        assert(replies[replies.len() - 1] == reply);
        assert forall|i: int| #![trigger front[i]] 0 <= i < front.len() implies answers_phase(
            run_after(v, front.take(i)),
            front[i],
        ) && run_after(v, front.take(i)).values.len() <= usize::MAX by {
            assert(front.take(i) =~= replies.take(i));
            assert(front[i] == replies[i]);
        }
        lemma_verified_so_far(v, front);
        assert(w == next_state(u, reply));
        lemma_state_kept(u, reply);
        if u.phase is FinalVerify {
            lemma_final_step(u, reply);
            if w.failure is None {
                lemma_still_verified(v, replies);
            }
        } else {
            reveal(first_verified);
        }
    }
}

/// In a run that verifies committed values and is over without a failure, every value that was
/// committed last to a key was given back in the verification at the end.
pub proof fn law_committed_values_given_back(
    seed: u64,
    config: TxnStressConfig,
    mode: TxnRunMode,
    replies: Seq<TxnReply>,
    item: int,
)
    requires
        can_run(config),
        mode.verify_values,
        all_answer(run_start(seed, config, mode), replies),
        run_after(run_start(seed, config, mode), replies).values.len() <= usize::MAX,
        run_after(run_start(seed, config, mode), replies).phase == Phase::Finished,
        run_after(run_start(seed, config, mode), replies).failure is None,
        0 <= item < run_after(run_start(seed, config, mode), replies).values.len(),
    ensures
        item_verified(run_start(seed, config, mode), replies, item),
{
    let v = run_start(seed, config, mode);
    assert(run_wf(v)) by {
        reveal(values_fit);
    }
    lemma_verified_so_far(v, replies);
    reveal(first_verified);
}

/// Tells whether no later write of a transaction is of the same key.
pub open spec fn written_last(ws: Seq<(Seq<u8>, Seq<u8>)>, i: int) -> bool {
    forall|j: int| i < j < ws.len() ==> (#[trigger] ws[j]).0 != ws[i].0
}

/// Once a transaction has committed, the value that is expected of each key that it wrote is the
/// one that it wrote last, and no other key is affected.
pub proof fn law_committed_values(
    e: Seq<ModelEntry>,
    ws: Seq<(Seq<u8>, Seq<u8>)>,
    other: Seq<u8>,
)
    requires
        keys_ascend(e),
    ensures
        keys_ascend(with_values(e, ws)),
        forall|i: int|
            0 <= i < ws.len() && written_last(ws, i) ==> value_for(
                with_values(e, ws),
                (#[trigger] ws[i]).0,
            ) == Some(ws[i].1),
        (forall|i: int| 0 <= i < ws.len() ==> (#[trigger] ws[i]).0 != other) ==> entry_for(
            with_values(e, ws),
            other,
        ) == entry_for(e, other),
    decreases ws.len(),
{
    if ws.len() > 0 {
        let t = ws.drop_last();
        let w = ws.last();
        let n = ws.len() - 1;
        let m = with_values(e, t);
        assert(ws[n] == w);
        law_committed_values(e, t, other);
        law_write_keeps_order(m, w.0, Some(w.1));
        law_model_reads_writes(m, w.0, Some(w.1), other);
        assert forall|i: int| 0 <= i < ws.len() && written_last(ws, i) implies value_for(
            with_values(e, ws),
            (#[trigger] ws[i]).0,
        ) == Some(ws[i].1) by {
            law_model_reads_writes(m, w.0, Some(w.1), ws[i].0);
            if i < n {
                assert(t[i] == ws[i]);
                assert(ws[n].0 != ws[i].0);
                assert(written_last(t, i)) by {
                    assert forall|j: int| i < j < t.len() implies (#[trigger] t[j]).0 != t[i].0 by {
                        assert(t[j] == ws[j]);
                    }
                }
                assert(value_for(m, t[i].0) == Some(t[i].1));
            }
        }
        if forall|i: int| 0 <= i < ws.len() ==> (#[trigger] ws[i]).0 != other {
            assert(ws[n].0 != other);
            assert forall|i: int| 0 <= i < t.len() implies (#[trigger] t[i]).0 != other by {
                assert(t[i] == ws[i]);
            }
        }
    }
}

/// A value that is read back is accepted exactly where it is the one that was committed: after a
/// crash, and at the end. Anything else, nothing and an error included, ends the run with a
/// failure.
pub proof fn law_wrong_value_fails(v: TxnRunView, got: Result<Option<Vec<u8>>, String>)
    requires
        match v.phase {
            Phase::Verify { item, .. } => item < v.values.len(),
            Phase::FinalVerify { item } => item < v.values.len(),
            _ => false,
        },
        v.failure is None,
    ensures
        ({
            let item = match v.phase {
                Phase::Verify { item, .. } => item,
                _ => v.phase->FinalVerify_item,
            };
            let e = v.values[item as int];
            let (w, a) = moved(v, TxnReply::VerifyDone(got));
            &&& (got is Ok && opt_view(got->Ok_0) == e.1) <==> w.failure is None
            &&& w.failure is Some ==> w.phase == Phase::Finished && a == ActionView::Finish
            &&& w.values == v.values
            &&& w.history == v.history
            &&& w.committed == v.committed
        }),
{
}

/// After a crash every committed value is asked for, one after another, before the next batch
/// begins; at the end too, before the run is over.
pub proof fn law_values_asked_for(v: TxnRunView, got: Result<Option<Vec<u8>>, String>)
    requires
        v.mode.verify_values,
        v.failure is None,
        v.values.len() <= usize::MAX,
    ensures
        v.phase is Reopen && v.values.len() > 0 ==> {
            let (w, a) = moved(v, TxnReply::Reopened(Ok::<(), String>(())));
            &&& w.phase == (Phase::Verify { start: v.phase->Reopen_start, item: 0 })
            &&& a == ActionView::VerifyRead { key: v.values[0].0 }
        },
        v.phase is Verify && v.phase->Verify_item + 1 < v.values.len() ==> {
            let (w, a) = moved(v, TxnReply::VerifyDone(got));
            w.failure is None ==> w.phase == (Phase::Verify {
                start: v.phase->Verify_start,
                item: (v.phase->Verify_item + 1) as usize,
            }) && a == ActionView::VerifyRead { key: v.values[v.phase->Verify_item + 1].0 }
        },
        v.phase is FinalVerify && v.phase->FinalVerify_item + 1 < v.values.len() ==> {
            let (w, a) = moved(v, TxnReply::VerifyDone(got));
            w.failure is None ==> w.phase == (Phase::FinalVerify {
                item: (v.phase->FinalVerify_item + 1) as usize,
            }) && a == ActionView::VerifyRead { key: v.values[v.phase->FinalVerify_item + 1].0 }
        },
{
}

/// Tells whether all but the phase, what is pending, the generator and the crashes stayed.
pub open spec fn only_moved_on(v: TxnRunView, w: TxnRunView) -> bool {
    &&& w.config == v.config
    &&& w.mode == v.mode
    &&& w.seed == v.seed
    &&& w.batch == v.batch
    &&& w.values == v.values
    &&& w.history == v.history
    &&& w.total == v.total
    &&& w.committed == v.committed
    &&& w.aborted == v.aborted
}

proof fn lemma_moves_on(v: TxnRunView, start: int, round: int, txn: int)
    ensures
        only_moved_on(v, at_commit(v, start, txn).0),
        only_moved_on(v, after_op(v, start, round, txn).0),
        only_moved_on(v, at_op(v, start, round, txn).0),
        only_moved_on(v, at_batch(v, start).0),
        only_moved_on(v, at_key(v, txn).0),
{
}

/// What a transaction of the batch did is recorded where it was taken: a read with what it found, a
/// write with its value, behind what it did before. No other transaction is affected.
pub proof fn law_ops_recorded(v: TxnRunView, reply: TxnReply, other: int)
    requires
        run_wf(v),
        answers_phase(v, reply),
        v.phase is Reading || v.phase is Writing,
        0 <= other < v.batch.len(),
    ensures
        ({
            let w = moved(v, reply).0;
            let txn: int = match v.phase {
                Phase::Reading { txn, .. } => txn as int,
                _ => v.phase->Writing_txn as int,
            };
            let (key, value) = v.pending->0;
            &&& w.batch.len() == v.batch.len()
            &&& other != txn ==> w.batch[other] == v.batch[other]
            &&& w.batch[txn].txn_id == v.batch[txn].txn_id
            &&& w.batch[txn].begin_ts == v.batch[txn].begin_ts
            &&& w.batch[txn].operations == v.batch[txn].operations + match reply {
                TxnReply::ReadDone(Some(found)) => seq![
                    TxnOpView::Read { key, value: opt_view(found) },
                ],
                TxnReply::WriteDone(true) => seq![TxnOpView::Write { key, value: Some(value) }],
                _ => Seq::empty(),
            }
            &&& v.phase is Writing ==> w.batch[txn].writes == v.batch[txn].writes + seq![
                (key, value),
            ]
            &&& v.phase is Reading ==> w.batch[txn].writes == v.batch[txn].writes
            &&& w.values == v.values
            &&& w.history == v.history
        }),
{
    let (key, value) = v.pending->0;
    match (v.phase, reply) {
        (Phase::Reading { start, round, txn }, TxnReply::ReadDone(r)) => {
            let b = match r {
                Some(found) => op_noted(
                    v.batch,
                    txn as int,
                    TxnOpView::Read { key, value: opt_view(found) },
                ),
                None => v.batch,
            };
            lemma_moves_on(
                TxnRunView { batch: b, ..v },
                start as int,
                round as int,
                txn as int,
            );
            assert(b[txn as int].operations =~= v.batch[txn as int].operations + match reply {
                TxnReply::ReadDone(Some(found)) => seq![
                    TxnOpView::Read { key, value: opt_view(found) },
                ],
                _ => Seq::empty(),
            });
        },
        (Phase::Writing { start, round, txn }, TxnReply::WriteDone(taken)) => {
            let a = write_noted(v.batch, txn as int, key, value);
            let b = if taken {
                op_noted(a, txn as int, TxnOpView::Write { key, value: Some(value) })
            } else {
                a
            };
            lemma_moves_on(
                TxnRunView { batch: b, ..v },
                start as int,
                round as int,
                txn as int,
            );
            assert(b[txn as int].operations =~= v.batch[txn as int].operations + match reply {
                TxnReply::WriteDone(true) => seq![TxnOpView::Write { key, value: Some(value) }],
                _ => Seq::empty(),
            });
            assert(b[txn as int].writes =~= v.batch[txn as int].writes + seq![(key, value)]);
        },
        _ => {},
    }
}

/// A commit is counted once. One that went through is in the history as committed, with its
/// timestamps and all that it did, and only then are its values expected; one that was aborted is
/// there as not committed; one that failed ends the run.
pub proof fn law_commits_recorded(v: TxnRunView, o: CommitOutcome)
    requires
        run_wf(v),
        v.phase is Commit,
    ensures
        ({
            let txn = v.phase->Commit_txn as int;
            let b = v.batch[txn];
            let w = moved(v, TxnReply::CommitDone(o)).0;
            &&& w.total == v.total + 1
            &&& w.committed == v.committed + if o is Committed {
                1int
            } else {
                0
            }
            &&& w.aborted == v.aborted + if o is Aborted {
                1int
            } else {
                0
            }
            &&& o is Failed <==> w.failure is Some
            &&& o is Failed ==> w.history == v.history && w.phase == Phase::Finished
            &&& !(o is Failed) ==> {
                let t = w.history.last();
                &&& w.history.len() == v.history.len() + 1
                &&& w.history.drop_last() == v.history
                &&& t.txn_id == b.txn_id && t.begin_ts == b.begin_ts && t.operations
                    == b.operations
                &&& t.committed == (o is Committed)
                &&& o is Committed ==> t.commit_ts == o->Committed_commit_ts
            }
            &&& o is Committed ==> w.values == with_values(v.values, b.writes)
            &&& !(o is Committed) ==> w.values == v.values
        }),
{
    let txn = v.phase->Commit_txn as int;
    let n = commit_noted(v, txn, o);
    lemma_moves_on(n, v.phase->Commit_start as int, 0, txn + 1);
    if !(o is Failed) {
        assert(n.history.drop_last() =~= v.history);
    }
}

/// The database crashes before a batch only while there are crashes left, and each is counted.
pub proof fn law_crashes_counted(v: TxnRunView, start: int)
    requires
        v.crashes < u64::MAX,
    ensures
        ({
            let (w, a) = at_batch(v, start);
            &&& a == ActionView::CrashAndReopen ==> v.crashes < v.mode.max_crashes && w.crashes
                == v.crashes + 1 && start < v.config.num_transactions
            &&& a != ActionView::CrashAndReopen ==> w.crashes == v.crashes
        }),
{
}

/// Every key is written once before the first batch, and that value is expected of it from then on.
pub proof fn law_keys_begin_written(v: TxnRunView)
    requires
        run_wf(v),
        v.phase is Init,
    ensures
        ({
            let key = v.phase->Init_key;
            let w = moved(v, TxnReply::InitDone(InitOutcome::Committed)).0;
            &&& entry_for(w.values, numbered_key(key as nat)) == Some(Some(encode_utf8("0"@)))
            &&& key + 1 < v.config.num_keys ==> w.phase == (Phase::Init { key: (key + 1) as usize })
            &&& key + 1 < v.config.num_keys ==> moved(
                v,
                TxnReply::InitDone(InitOutcome::Committed),
            ).1 == (ActionView::InitKey {
                key: numbered_key((key + 1) as nat),
                value: encode_utf8("0"@),
            })
            &&& key + 1 >= v.config.num_keys ==> !(w.phase is Init)
        }),
{
    reveal(values_fit);
    let key = v.phase->Init_key;
    let k = numbered_key(key as nat);
    law_model_reads_writes(v.values, k, Some(encode_utf8("0"@)), k);
    let n = TxnRunView { values: with_write(v.values, k, Some(encode_utf8("0"@))), ..v };
    lemma_moves_on(n, 0, 0, key + 1);
}

} // verus!
