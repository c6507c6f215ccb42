//! Rebuilding the memtable from the log.
//!
//! Writes and batches take effect as they come. What a transaction writes takes effect when it
//! commits, under its commit timestamp; a transaction that never commits leaves nothing. Records
//! that cannot be decoded are passed over.

use crate::error::{corruption, Error, ErrorView};
use crate::memtable::{opt_view, size_after, Memtable, Versions};
use crate::payload::{decode_wal_payload, law_payload_round_trip, payload_bytes, payload_fits,
    payload_of_bytes, writes_view, PayloadView, WalPayload, WriteView};
use crate::wal::{log_records, records_from, WalReader};
use vstd::prelude::*;

verus! {

/// Keys and values that a transaction wrote.
pub type TxnWrites = Seq<(Seq<u8>, Seq<u8>)>;

/// What replaying the log has come to.
pub struct ReplayView {
    /// The versions in the memtable.
    pub versions: Versions,
    /// The size that the memtable counts.
    pub size: usize,
    /// What open transactions have written.
    pub pending: Map<u64, TxnWrites>,
    /// The largest sequence number.
    pub max_seq: u64,
    /// The largest transaction number.
    pub max_txn_id: u64,
    /// The largest commit timestamp.
    pub max_commit_ts: u64,
}

/// The larger of two numbers.
pub open spec fn larger(a: u64, b: u64) -> u64 {
    if a >= b {
        a
    } else {
        b
    }
}

/// Before the first record.
pub open spec fn replay_start() -> ReplayView {
    ReplayView {
        versions: Map::empty(),
        size: 0,
        pending: Map::empty(),
        max_seq: 0,
        max_txn_id: 0,
        max_commit_ts: 0,
    }
}

/// After a write that takes effect at once.
pub open spec fn replay_write(s: ReplayView, w: WriteView) -> ReplayView {
    ReplayView {
        versions: s.versions.insert((w.0, w.2), w.1),
        size: size_after(s.size, w.0.len(), w.1),
        max_seq: larger(s.max_seq, w.2),
        max_commit_ts: larger(s.max_commit_ts, w.2),
        ..s
    }
}

/// After writes that take effect at once.
pub open spec fn replay_writes(s: ReplayView, ws: Seq<WriteView>) -> ReplayView
    decreases ws.len(),
{
    if ws.len() == 0 {
        s
    } else {
        replay_write(replay_writes(s, ws.drop_last()), ws.last())
    }
}

/// The writes of a transaction under its commit timestamp.
pub open spec fn committed(ws: TxnWrites, ts: u64) -> Seq<WriteView> {
    ws.map_values(|w: (Seq<u8>, Seq<u8>)| (w.0, Some(w.1), ts))
}

/// After a record.
pub open spec fn replay_payload(s: ReplayView, p: PayloadView) -> ReplayView {
    match p {
        PayloadView::Kv(w) => replay_write(s, w),
        PayloadView::Batch(ws) => replay_writes(s, ws),
        PayloadView::TxnBegin(id) => ReplayView {
            pending: s.pending.insert(id, Seq::empty()),
            max_txn_id: larger(s.max_txn_id, id),
            ..s
        },
        PayloadView::TxnWrite(id, k, v) => if s.pending.contains_key(id) {
            ReplayView { pending: s.pending.insert(id, s.pending[id].push((k, v))), ..s }
        } else {
            s
        },
        PayloadView::TxnCommit(id, ts) => {
            let t = ReplayView {
                max_txn_id: larger(s.max_txn_id, id),
                max_commit_ts: larger(s.max_commit_ts, ts),
                max_seq: larger(s.max_seq, ts),
                ..s
            };
            if s.pending.contains_key(id) {
                replay_writes(
                    ReplayView { pending: s.pending.remove(id), ..t },
                    committed(s.pending[id], ts),
                )
            } else {
                t
            }
        },
        PayloadView::TxnAbort(id) => ReplayView { pending: s.pending.remove(id), ..s },
    }
}

/// After the bytes of a record.
pub open spec fn replay_record(s: ReplayView, d: Seq<u8>) -> ReplayView {
    match payload_of_bytes(d) {
        Some(p) => replay_payload(s, p),
        None => s,
    }
}

/// After the bytes of records.
pub open spec fn replayed(records: Seq<Seq<u8>>) -> ReplayView
    decreases records.len(),
{
    if records.len() == 0 {
        replay_start()
    } else {
        replay_record(replayed(records.drop_last()), records.last())
    }
}

/// The largest number that stands as a sequence number in a record.
pub open spec fn largest_stamp(p: PayloadView) -> u64 {
    match p {
        PayloadView::Kv(w) => w.2,
        PayloadView::Batch(ws) => largest_write(ws),
        PayloadView::TxnCommit(_, ts) => ts,
        _ => 0,
    }
}

/// The largest sequence number of writes.
pub open spec fn largest_write(ws: Seq<WriteView>) -> u64
    decreases ws.len(),
{
    if ws.len() == 0 {
        0
    } else {
        larger(largest_write(ws.drop_last()), ws.last().2)
    }
}

/// Tells whether the bytes of a record hold a sequence number that leaves none after it.
pub open spec fn out_of_range(d: Seq<u8>) -> bool {
    payload_of_bytes(d) matches Some(p) && largest_stamp(p) == u64::MAX
}

/// Tells whether one of the records holds a sequence number that leaves none after it.
pub open spec fn some_out_of_range(records: Seq<Seq<u8>>) -> bool {
    exists|i: int| 0 <= i < records.len() && out_of_range(#[trigger] records[i])
}

/// What replaying a log comes to.
pub open spec fn recovered(segs: Seq<Seq<u8>>) -> Result<ReplayView, ErrorView> {
    let (records, fault) = log_records(segs);
    if some_out_of_range(records) {
        Err(ErrorView::Corruption("sequence number out of range"@))
    } else if fault is Some {
        Err(fault->0)
    } else {
        Ok(replayed(records))
    }
}

struct PendingTxn {
    id: u64,
    writes: Vec<(Vec<u8>, Vec<u8>)>,
}

spec fn txn_view(ws: Seq<(Vec<u8>, Vec<u8>)>) -> TxnWrites {
    ws.map_values(|w: (Vec<u8>, Vec<u8>)| (w.0@, w.1@))
}

/// Replays records into a memtable.
pub struct Replayer {
    memtable: Memtable,
    pending: Vec<PendingTxn>,
    max_seq: u64,
    max_txn_id: u64,
    max_commit_ts: u64,
}

impl Replayer {
    spec fn has(&self, id: u64) -> bool {
        exists|i: int| 0 <= i < self.pending@.len() && (#[trigger] self.pending@[i]).id == id
    }

    spec fn place(&self, id: u64) -> int {
        choose|i: int| 0 <= i < self.pending@.len() && (#[trigger] self.pending@[i]).id == id
    }

    spec fn pending_view(&self) -> Map<u64, TxnWrites> {
        Map::new(|id: u64| self.has(id), |id: u64| txn_view(self.pending@[self.place(id)].writes@))
    }

    /// Tells whether each open transaction is listed once.
    pub closed spec fn wf(&self) -> bool {
        forall|i: int, j: int|
            0 <= i < j < self.pending@.len() ==> (#[trigger] self.pending@[i]).id != (
            #[trigger] self.pending@[j]).id
    }

    /// What replaying has come to.
    pub closed spec fn state(&self) -> ReplayView {
        ReplayView {
            versions: self.memtable@,
            size: self.memtable.spec_size(),
            pending: self.pending_view(),
            max_seq: self.max_seq,
            max_txn_id: self.max_txn_id,
            max_commit_ts: self.max_commit_ts,
        }
    }

    /// The size at which the memtable is full.
    pub closed spec fn max_size(&self) -> usize {
        self.memtable.spec_max_size()
    }

    proof fn lemma_place(&self, id: u64, i: int)
        requires
            self.wf(),
            0 <= i < self.pending@.len(),
            self.pending@[i].id == id,
        ensures
            self.has(id),
            self.place(id) == i,
            self.pending_view().contains_key(id),
            self.pending_view()[id] == txn_view(self.pending@[i].writes@),
    {
        assert(self.has(id));
        let p = self.place(id);
        if p < i {
            assert(self.pending@[p].id != self.pending@[i].id);
        } else if i < p {
            assert(self.pending@[i].id != self.pending@[p].id);
        }
    }

    /// Starts with an empty memtable.
    pub fn new(memtable: Memtable) -> (r: Replayer)
        requires
            memtable@ == Versions::empty(),
            memtable.spec_size() == 0,
        ensures
            r.wf(),
            r.state() == replay_start(),
            r.max_size() == memtable.spec_max_size(),
    {
        let r = Replayer {
            memtable,
            pending: Vec::new(),
            max_seq: 0,
            max_txn_id: 0,
            max_commit_ts: 0,
        };
        assert(r.pending_view() =~= Map::<u64, TxnWrites>::empty());
        r
    }

    fn find(&self, id: u64) -> (r: Option<usize>)
        requires
            self.wf(),
        ensures
            match r {
                Some(i) => i < self.pending@.len() && self.pending@[i as int].id == id,
                None => !self.has(id),
            },
    {
        let mut i: usize = 0;
        while i < self.pending.len()
            invariant
                i <= self.pending@.len(),
                forall|k: int| 0 <= k < i ==> (#[trigger] self.pending@[k]).id != id,
            decreases self.pending@.len() - i,
        {
            if self.pending[i].id == id {
                return Some(i);
            }
            i += 1;
        }
        None
    }

    fn remove_pending(&mut self, id: u64) -> (r: Option<Vec<(Vec<u8>, Vec<u8>)>>)
        requires
            old(self).wf(),
        ensures
            final(self).wf(),
            final(self).pending_view() == old(self).pending_view().remove(id),
            match r {
                Some(ws) => old(self).pending_view().contains_key(id) && txn_view(ws@) == old(
                    self,
                ).pending_view()[id],
                None => !old(self).pending_view().contains_key(id),
            },
            final(self).memtable == old(self).memtable,
            final(self).max_seq == old(self).max_seq,
            final(self).max_txn_id == old(self).max_txn_id,
            final(self).max_commit_ts == old(self).max_commit_ts,
    {
        let ghost before = *self;
        match self.find(id) {
            Some(i) => {
                proof {
                    before.lemma_place(id, i as int);
                }
                let txn = self.pending.remove(i);
                proof {
                    let n = before.pending@.len() as int;
                    assert forall|k: int| 0 <= k < self.pending@.len() implies
                        #[trigger] self.pending@[k] == before.pending@[if k < i {
                        k
                    } else {
                        k + 1
                    }] by {}
                    assert(self.wf());
                    let want = before.pending_view().remove(id);
                    assert forall|x: u64| #[trigger] self.has(x) == (before.has(x) && x != id) by {
                        if self.has(x) {
                            let p = self.place(x);
                            let q = if p < i {
                                p
                            } else {
                                p + 1
                            };
                            assert(before.pending@[q].id == x);
                            before.lemma_place(x, q);
                        }
                        if before.has(x) && x != id {
                            let q = before.place(x);
                            let p = if q < i {
                                q
                            } else {
                                q - 1
                            };
                            assert(self.pending@[p].id == x);
                        }
                    }
                    assert forall|x: u64| self.has(x) implies #[trigger] self.pending_view()[x]
                        == want[x] by {
                        let p = self.place(x);
                        let q = if p < i {
                            p
                        } else {
                            p + 1
                        };
                        before.lemma_place(x, q);
                        self.lemma_place(x, p);
                    }
                    assert(self.pending_view() =~= want);
                }
                Some(txn.writes)
            },
            None => {
                assert(before.pending_view().remove(id) =~= before.pending_view());
                None
            },
        }
    }

    fn add_pending(&mut self, id: u64, writes: Vec<(Vec<u8>, Vec<u8>)>)
        requires
            old(self).wf(),
            !old(self).pending_view().contains_key(id),
        ensures
            final(self).wf(),
            final(self).pending_view() == old(self).pending_view().insert(
                id,
                txn_view(writes@),
            ),
            final(self).memtable == old(self).memtable,
            final(self).max_seq == old(self).max_seq,
            final(self).max_txn_id == old(self).max_txn_id,
            final(self).max_commit_ts == old(self).max_commit_ts,
    {
        let ghost before = *self;
        self.pending.push(PendingTxn { id, writes });
        proof {
            let n = before.pending@.len() as int;
            assert forall|k: int| 0 <= k < n implies #[trigger] self.pending@[k]
                == before.pending@[k] by {}
            assert(!before.has(id));
            assert forall|i: int, j: int| 0 <= i < j < self.pending@.len() implies (
            #[trigger] self.pending@[i]).id != (#[trigger] self.pending@[j]).id by {
                assert(before.pending@[i] == self.pending@[i]);
                if j < n {
                    assert(before.pending@[j] == self.pending@[j]);
                }
            }
            let want = before.pending_view().insert(id, txn_view(writes@));
            self.lemma_place(id, n);
            assert forall|x: u64| #[trigger] self.has(x) == (before.has(x) || x == id) by {
                if self.has(x) && x != id {
                    let p = self.place(x);
                    assert(before.pending@[p].id == x);
                }
                if before.has(x) {
                    let p = before.place(x);
                    assert(self.pending@[p].id == x);
                }
            }
            assert forall|x: u64| self.has(x) implies #[trigger] self.pending_view()[x]
                == want[x] by {
                if x != id {
                    let p = self.place(x);
                    before.lemma_place(x, p);
                    self.lemma_place(x, p);
                }
            }
            assert(self.pending_view() =~= want);
        }
    }

    fn apply_write(&mut self, key: Vec<u8>, value: Option<Vec<u8>>, seq: u64)
        requires
            old(self).wf(),
            seq < u64::MAX,
        ensures
            final(self).wf(),
            final(self).state() == replay_write(old(self).state(), (key@, opt_view(value), seq)),
            final(self).max_size() == old(self).max_size(),
    {
        let ghost before = *self;
        if seq > self.max_seq {
            self.max_seq = seq;
        }
        if seq > self.max_commit_ts {
            self.max_commit_ts = seq;
        }
        match value {
            Some(v) => self.memtable.put_with_seq(key, v, seq),
            None => self.memtable.delete_with_seq(key, seq),
        }
        proof {
            assert(self.pending_view() =~= before.pending_view());
        }
    }

    fn apply_batch(&mut self, writes: Vec<(Vec<u8>, Option<Vec<u8>>, u64)>)
        requires
            old(self).wf(),
            largest_write(writes_view(writes@)) < u64::MAX,
        ensures
            final(self).wf(),
            final(self).state() == replay_writes(old(self).state(), writes_view(writes@)),
            final(self).max_size() == old(self).max_size(),
    {
        let ghost all = writes_view(writes@);
        let ghost start = self.state();
        let mut i: usize = 0;
        assert(all.take(0) =~= Seq::<WriteView>::empty());
        while i < writes.len()
            invariant
                i <= writes@.len(),
                self.wf(),
                all == writes_view(writes@),
                largest_write(all) < u64::MAX,
                self.state() == replay_writes(start, all.take(i as int)),
                self.max_size() == old(self).max_size(),
            decreases writes@.len() - i,
        {
            let (key, value, seq) = &writes[i];
            proof {
                assert(all[i as int] == (key@, opt_view(*value), *seq));
                assert(all.take(i + 1).drop_last() =~= all.take(i as int));
                lemma_largest_write(all, i as int);
            }
            let v = match value {
                Some(v) => Some(crate::codec::copy_bytes(v)),
                None => None,
            };
            self.apply_write(crate::codec::copy_bytes(key), v, *seq);
            i += 1;
        }
        assert(all.take(i as int) =~= all);
    }

    fn apply_committed(&mut self, writes: Vec<(Vec<u8>, Vec<u8>)>, ts: u64)
        requires
            old(self).wf(),
            ts < u64::MAX,
        ensures
            final(self).wf(),
            final(self).state() == replay_writes(
                old(self).state(),
                committed(txn_view(writes@), ts),
            ),
            final(self).max_size() == old(self).max_size(),
    {
        let ghost all = committed(txn_view(writes@), ts);
        let ghost start = self.state();
        let mut i: usize = 0;
        assert(all.take(0) =~= Seq::<WriteView>::empty());
        while i < writes.len()
            invariant
                i <= writes@.len(),
                self.wf(),
                all == committed(txn_view(writes@), ts),
                ts < u64::MAX,
                self.state() == replay_writes(start, all.take(i as int)),
                self.max_size() == old(self).max_size(),
            decreases writes@.len() - i,
        {
            let (key, value) = &writes[i];
            proof {
                assert(txn_view(writes@)[i as int] == (key@, value@));
                assert(all[i as int] == (key@, Some(value@), ts));
                assert(all.take(i + 1).drop_last() =~= all.take(i as int));
            }
            self.apply_write(
                crate::codec::copy_bytes(key),
                Some(crate::codec::copy_bytes(value)),
                ts,
            );
            i += 1;
        }
        assert(all.take(i as int) =~= all);
    }

    /// Replays what a record says.
    pub fn apply(&mut self, payload: WalPayload)
        requires
            old(self).wf(),
            largest_stamp(payload@) < u64::MAX,
        ensures
            final(self).wf(),
            final(self).state() == replay_payload(old(self).state(), payload@),
            final(self).max_size() == old(self).max_size(),
    {
        let ghost before = *self;
        match payload {
            WalPayload::Kv { key, value, seq } => {
                self.apply_write(key, value, seq);
            },
            WalPayload::Batch { writes } => {
                self.apply_batch(writes);
            },
            WalPayload::TxnBegin { txn_id } => {
                if txn_id > self.max_txn_id {
                    self.max_txn_id = txn_id;
                }
                assert(self.pending_view() =~= before.pending_view());
                let gone = self.remove_pending(txn_id);
                let none: Vec<(Vec<u8>, Vec<u8>)> = Vec::new();
                assert(txn_view(none@) =~= Seq::<(Seq<u8>, Seq<u8>)>::empty());
                self.add_pending(txn_id, none);
                assert(self.pending_view() =~= before.pending_view().insert(
                    txn_id,
                    Seq::<(Seq<u8>, Seq<u8>)>::empty(),
                ));
            },
            WalPayload::TxnWrite { txn_id, key, value } => {
                if let Some(ws) = self.remove_pending(txn_id) {
                    let mut writes = ws;
                    let ghost was = txn_view(writes@);
                    let ghost w = (key@, value@);
                    writes.push((key, value));
                    assert(txn_view(writes@) =~= was.push(w));
                    self.add_pending(txn_id, writes);
                    assert(self.pending_view() =~= before.pending_view().insert(
                        txn_id,
                        was.push(w),
                    ));
                } else {
                    assert(self.pending_view() =~= before.pending_view());
                }
            },
            WalPayload::TxnCommit { txn_id, commit_ts } => {
                if txn_id > self.max_txn_id {
                    self.max_txn_id = txn_id;
                }
                if commit_ts > self.max_commit_ts {
                    self.max_commit_ts = commit_ts;
                }
                if commit_ts > self.max_seq {
                    self.max_seq = commit_ts;
                }
                assert(self.pending_view() =~= before.pending_view());
                if let Some(writes) = self.remove_pending(txn_id) {
                    self.apply_committed(writes, commit_ts);
                } else {
                    assert(self.pending_view() =~= before.pending_view());
                }
            },
            WalPayload::TxnAbort { txn_id } => {
                let gone = self.remove_pending(txn_id);
            },
        }
    }

    /// Gives the memtable, the largest sequence number, the largest transaction number and the
    /// largest commit timestamp.
    pub fn finish(self) -> (r: (Memtable, u64, u64, u64))
        ensures
            r.0@ == self.state().versions,
            r.0.spec_size() == self.state().size,
            r.0.spec_max_size() == self.max_size(),
            r.1 == self.state().max_seq,
            r.2 == self.state().max_txn_id,
            r.3 == self.state().max_commit_ts,
    {
        (self.memtable, self.max_seq, self.max_txn_id, self.max_commit_ts)
    }
}

proof fn lemma_largest_write(ws: Seq<WriteView>, i: int)
    requires
        0 <= i < ws.len(),
    ensures
        ws[i].2 <= largest_write(ws),
    decreases ws.len(),
{
    if i < ws.len() - 1 {
        lemma_largest_write(ws.drop_last(), i);
    }
}

/// The largest sequence number of what a record says.
fn largest_of(payload: &WalPayload) -> (r: u64)
    ensures
        r == largest_stamp(payload@),
{
    match payload {
        WalPayload::Kv { seq, .. } => *seq,
        WalPayload::TxnCommit { commit_ts, .. } => *commit_ts,
        WalPayload::Batch { writes } => {
            let ghost all = writes_view(writes@);
            let mut best: u64 = 0;
            let mut i: usize = 0;
            assert(all.take(0) =~= Seq::<WriteView>::empty());
            while i < writes.len()
                invariant
                    i <= writes@.len(),
                    all == writes_view(writes@),
                    best == largest_write(all.take(i as int)),
                decreases writes@.len() - i,
            {
                proof {
                    assert(all[i as int].2 == writes@[i as int].2);
                    assert(all.take(i + 1).drop_last() =~= all.take(i as int));
                }
                if writes[i].2 > best {
                    best = writes[i].2;
                }
                i += 1;
            }
            assert(all.take(i as int) =~= all);
            best
        },
        _ => 0,
    }
}

/// Replays a log, from its first record to its last, into an empty memtable. A fault in the log is
/// an error, and so is a sequence number that leaves none after it.
pub fn replay_log(reader: WalReader, memtable: Memtable) -> (r: Result<Replayer, Error>)
    requires
        reader.wf(),
        reader.at_segment() == 0,
        reader.at_offset() == 0,
        memtable@ == Versions::empty(),
        memtable.spec_size() == 0,
    ensures
        match r {
            Ok(p) => {
                &&& p.wf()
                &&& recovered(reader.segments()) == Ok::<ReplayView, ErrorView>(p.state())
                &&& p.max_size() == memtable.spec_max_size()
            },
            Err(e) => recovered(reader.segments()) == Err::<ReplayView, ErrorView>(e@),
        },
{
    let ghost segs = reader.segments();
    let ghost max_size = memtable.spec_max_size();
    let ghost all = log_records(segs);
    let mut rd = reader;
    let mut p = Replayer::new(memtable);
    let ghost mut seen = Seq::<Seq<u8>>::empty();
    proof {
        assert(seen + all.0 =~= all.0);
    }
    loop
        invariant
            rd.wf(),
            rd.segments() == segs,
            segs == reader.segments(),
            max_size == memtable.spec_max_size(),
            p.wf(),
            p.state() == replayed(seen),
            p.max_size() == max_size,
            all == log_records(segs),
            !some_out_of_range(seen),
            ({
                let rest = records_from(
                    segs,
                    rd.at_segment(),
                    rd.at_offset(),
                    None,
                );
                all == (seen + rest.0, rest.1)
            }),
        decreases (all.0.len() - seen.len()),
    {
        let ghost i0 = rd.at_segment();
        let ghost o0 = rd.at_offset();
        let ghost rest = records_from(segs, i0, o0, None);
        proof {
            crate::wal::lemma_read_step(segs, i0, o0, None);
        }
        match rd.read_record() {
            Ok(Some(record)) => {
                let ghost d = record.data@;
                let ghost rest2 = records_from(
                    segs,
                    rd.at_segment(),
                    rd.at_offset(),
                    None,
                );
                proof {
                    assert(rest.0 =~= seq![d] + rest2.0);
                    assert(seen + rest.0 =~= seen.push(d) + rest2.0);
                    assert(seen.push(d).drop_last() =~= seen);
                }
                if let Some(payload) = decode_wal_payload(&record.data) {
                    if largest_of(&payload) == u64::MAX {
                        proof {
                            assert(all.0[seen.len() as int] == d);
                            assert(out_of_range(all.0[seen.len() as int]));
                        }
                        return Err(corruption("sequence number out of range"));
                    }
                    p.apply(payload);
                }
                proof {
                    let next = seen.push(d);
                    assert forall|i: int| 0 <= i < next.len() implies !out_of_range(
                        #[trigger] next[i],
                    ) by {
                        if i < seen.len() {
                            assert(next[i] == seen[i]);
                        }
                    }
                    seen = next;
                }
            },
            Ok(None) => {
                proof {
                    assert(seen + rest.0 =~= seen);
                    assert(all.0 =~= seen);
                }
                return Ok(p);
            },
            Err(e) => {
                assert(all.0 =~= seen);
                return Err(e);
            },
        }
    }
}

/// A write whose record is in the log is in the memtable after recovery.
pub proof fn law_write_recovered(records: Seq<Seq<u8>>, w: WriteView)
    requires
        payload_fits(PayloadView::Kv(w)),
    ensures
        replayed(records.push(payload_bytes(PayloadView::Kv(w)))) == replay_write(
            replayed(records),
            w,
        ),
        replayed(records.push(payload_bytes(PayloadView::Kv(w)))).versions == replayed(
            records,
        ).versions.insert((w.0, w.2), w.1),
{
    law_payload_round_trip(PayloadView::Kv(w));
    let next = records.push(payload_bytes(PayloadView::Kv(w)));
    assert(next.drop_last() =~= records);
}

/// Tells whether one of the writes is of a version.
pub open spec fn writes_version(ws: Seq<WriteView>, k: (Seq<u8>, u64)) -> bool {
    exists|i: int| 0 <= i < ws.len() && (#[trigger] ws[i]).0 == k.0 && ws[i].2 == k.1
}

/// Tells whether no later one of the writes is of the same version.
pub open spec fn last_of_version(ws: Seq<WriteView>, i: int) -> bool {
    forall|j: int| i < j < ws.len() ==> (#[trigger] ws[j]).0 != ws[i].0 || ws[j].2 != ws[i].2
}

/// Tells whether versions became others by writes, all of them: each write is there, with the
/// value of the last write of its version, and every other version is as it was.
pub open spec fn took_effect(before: Versions, after: Versions, ws: Seq<WriteView>) -> bool {
    &&& forall|i: int|
        0 <= i < ws.len() ==> after.contains_key(((#[trigger] ws[i]).0, ws[i].2))
    &&& forall|i: int|
        0 <= i < ws.len() && last_of_version(ws, i) ==> after[((#[trigger] ws[i]).0, ws[i].2)]
            == ws[i].1
    &&& forall|k: (Seq<u8>, u64)|
        !writes_version(ws, k) ==> #[trigger] after.contains_key(k) == before.contains_key(k)
    &&& forall|k: (Seq<u8>, u64)|
        !writes_version(ws, k) && before.contains_key(k) ==> #[trigger] after[k] == before[k]
}

proof fn lemma_writes_version_push(ws: Seq<WriteView>, w: WriteView, k: (Seq<u8>, u64))
    requires
        !writes_version(ws.push(w), k),
    ensures
        !writes_version(ws, k),
        k != (w.0, w.2),
{
    let all = ws.push(w);
    assert(all[ws.len() as int] == w);
    if writes_version(ws, k) {
        let i = choose|i: int| 0 <= i < ws.len() && (#[trigger] ws[i]).0 == k.0 && ws[i].2 == k.1;
        assert(all[i] == ws[i]);
    }
}

/// One more write takes effect after others.
pub proof fn lemma_took_effect_push(
    before: Versions,
    mid: Versions,
    ws: Seq<WriteView>,
    w: WriteView,
)
    requires
        took_effect(before, mid, ws),
    ensures
        took_effect(before, mid.insert((w.0, w.2), w.1), ws.push(w)),
{
    let after = mid.insert((w.0, w.2), w.1);
    let all = ws.push(w);
    assert forall|i: int| 0 <= i < all.len() implies after.contains_key(
        ((#[trigger] all[i]).0, all[i].2),
    ) by {
        if i < ws.len() {
            assert(all[i] == ws[i]);
        }
    }
    assert forall|i: int| 0 <= i < all.len() && last_of_version(all, i) implies after[(
        (#[trigger] all[i]).0,
        all[i].2,
    )] == all[i].1 by {
        if i < ws.len() {
            assert(all[i] == ws[i]);
            assert(all[ws.len() as int] == w);
            assert(last_of_version(ws, i)) by {
                assert forall|j: int| i < j < ws.len() implies (#[trigger] ws[j]).0 != ws[i].0
                    || ws[j].2 != ws[i].2 by {
                    assert(all[j] == ws[j]);
                }
            }
        }
    }
    assert forall|k: (Seq<u8>, u64)| !writes_version(all, k) implies #[trigger] after.contains_key(
        k,
    ) == before.contains_key(k) by {
        lemma_writes_version_push(ws, w, k);
        assert(mid.contains_key(k) == before.contains_key(k));
    }
    assert forall|k: (Seq<u8>, u64)|
        !writes_version(all, k) && before.contains_key(k) implies #[trigger] after[k]
        == before[k] by {
        lemma_writes_version_push(ws, w, k);
        assert(mid[k] == before[k]);
    }
}

/// Replaying writes that take effect at once makes all of them take effect, and leaves open
/// transactions alone.
pub proof fn law_writes_take_effect(s: ReplayView, ws: Seq<WriteView>)
    ensures
        took_effect(s.versions, replay_writes(s, ws).versions, ws),
        replay_writes(s, ws).pending == s.pending,
        replay_writes(s, ws).max_txn_id == s.max_txn_id,
    decreases ws.len(),
{
    if ws.len() > 0 {
        law_writes_take_effect(s, ws.drop_last());
        lemma_took_effect_push(
            s.versions,
            replay_writes(s, ws.drop_last()).versions,
            ws.drop_last(),
            ws.last(),
        );
        assert(ws.drop_last().push(ws.last()) =~= ws);
    }
}

/// All writes of a batch whose record is in the log are in the memtable after recovery: each
/// version that the batch writes, with the value of its last write, and nothing else.
pub proof fn law_batch_recovered(records: Seq<Seq<u8>>, ws: Seq<WriteView>)
    requires
        payload_fits(PayloadView::Batch(ws)),
    ensures
        replayed(records.push(payload_bytes(PayloadView::Batch(ws)))) == replay_writes(
            replayed(records),
            ws,
        ),
        took_effect(
            replayed(records).versions,
            replayed(records.push(payload_bytes(PayloadView::Batch(ws)))).versions,
            ws,
        ),
{
    law_writes_take_effect(replayed(records), ws);
    law_payload_round_trip(PayloadView::Batch(ws));
    let next = records.push(payload_bytes(PayloadView::Batch(ws)));
    assert(next.drop_last() =~= records);
}

/// The records of a transaction's writes.
pub open spec fn txn_write_records(id: u64, ws: TxnWrites) -> Seq<Seq<u8>> {
    ws.map_values(|w: (Seq<u8>, Seq<u8>)| payload_bytes(PayloadView::TxnWrite(id, w.0, w.1)))
}

/// The records of a transaction that has begun and written.
pub open spec fn open_txn_records(id: u64, ws: TxnWrites) -> Seq<Seq<u8>> {
    seq![payload_bytes(PayloadView::TxnBegin(id))] + txn_write_records(id, ws)
}

/// Tells whether the lengths of what a transaction writes fit the numbers that hold them.
pub open spec fn txn_fits(ws: TxnWrites) -> bool {
    forall|i: int|
        0 <= i < ws.len() ==> (#[trigger] ws[i]).0.len() <= u32::MAX && ws[i].1.len() <= u32::MAX
}

/// A transaction that has begun and written, and not committed, leaves the versions as they were:
/// what it wrote waits.
#[verifier::rlimit(40)]
pub proof fn law_uncommitted_leaves_nothing(records: Seq<Seq<u8>>, id: u64, ws: TxnWrites)
    requires
        txn_fits(ws),
    ensures
        replayed(records + open_txn_records(id, ws)).versions == replayed(records).versions,
        replayed(records + open_txn_records(id, ws)).pending == replayed(records).pending.insert(
            id,
            ws,
        ),
        replayed(records + open_txn_records(id, ws)).max_seq == replayed(records).max_seq,
        replayed(records + open_txn_records(id, ws)).size == replayed(records).size,
        replayed(records + open_txn_records(id, ws)).max_commit_ts == replayed(
            records,
        ).max_commit_ts,
        replayed(records + open_txn_records(id, ws)).max_txn_id == larger(
            replayed(records).max_txn_id,
            id,
        ),
    decreases ws.len(),
{
    let s = replayed(records);
    let begin = payload_bytes(PayloadView::TxnBegin(id));
    if ws.len() == 0 {
        law_payload_round_trip(PayloadView::TxnBegin(id));
        assert(records + open_txn_records(id, ws) =~= records.push(begin));
        assert(records.push(begin).drop_last() =~= records);
        assert(ws =~= Seq::<(Seq<u8>, Seq<u8>)>::empty());
    } else {
        let t = ws.drop_last();
        let w = ws.last();
        assert(ws[ws.len() - 1] == w);
        assert forall|i: int| 0 <= i < t.len() implies (#[trigger] t[i]).0.len() <= u32::MAX
            && t[i].1.len() <= u32::MAX by {
            assert(t[i] == ws[i]);
        }
        law_uncommitted_leaves_nothing(records, id, t);
        let p = PayloadView::TxnWrite(id, w.0, w.1);
        law_payload_round_trip(p);
        let before = records + open_txn_records(id, t);
        let all = records + open_txn_records(id, ws);
        assert(all =~= before.push(payload_bytes(p)));
        assert(before.push(payload_bytes(p)).drop_last() =~= before);
        assert(ws =~= t.push(w));
        assert(s.pending.insert(id, t).insert(id, t.push(w)) =~= s.pending.insert(id, ws));
    }
}

/// Tells whether a transaction writes a key.
pub open spec fn writes_key(ws: TxnWrites, key: Seq<u8>) -> bool {
    exists|i: int| 0 <= i < ws.len() && (#[trigger] ws[i]).0 == key
}

/// Tells whether no later write of a transaction is of the same key.
pub open spec fn last_of_key(ws: TxnWrites, i: int) -> bool {
    forall|j: int| i < j < ws.len() ==> (#[trigger] ws[j]).0 != ws[i].0
}

/// Tells whether versions became others by a transaction that committed: every key that it wrote
/// has a version at its commit timestamp, with the value that it wrote last, and every other
/// version is as it was.
pub open spec fn committed_whole(
    before: Versions,
    after: Versions,
    ws: TxnWrites,
    ts: u64,
) -> bool {
    &&& forall|i: int| 0 <= i < ws.len() ==> after.contains_key(((#[trigger] ws[i]).0, ts))
    &&& forall|i: int|
        0 <= i < ws.len() && last_of_key(ws, i) ==> after[((#[trigger] ws[i]).0, ts)] == Some(
            ws[i].1,
        )
    &&& forall|k: (Seq<u8>, u64)|
        k.1 != ts || !writes_key(ws, k.0) ==> #[trigger] after.contains_key(k)
            == before.contains_key(k)
    &&& forall|k: (Seq<u8>, u64)|
        (k.1 != ts || !writes_key(ws, k.0)) && before.contains_key(k) ==> #[trigger] after[k]
            == before[k]
}

proof fn lemma_committed_whole(before: Versions, after: Versions, ws: TxnWrites, ts: u64)
    requires
        took_effect(before, after, committed(ws, ts)),
    ensures
        committed_whole(before, after, ws, ts),
{
    let c = committed(ws, ts);
    assert forall|i: int| 0 <= i < ws.len() implies after.contains_key(
        ((#[trigger] ws[i]).0, ts),
    ) && (last_of_key(ws, i) ==> after[(ws[i].0, ts)] == Some(ws[i].1)) by {
        assert(c[i] == (ws[i].0, Some(ws[i].1), ts));
        if last_of_key(ws, i) {
            assert forall|j: int| i < j < c.len() implies (#[trigger] c[j]).0 != c[i].0 || c[j].2
                != c[i].2 by {
                assert(c[j].0 == ws[j].0);
            }
            assert(last_of_version(c, i));
        }
    }
    assert forall|k: (Seq<u8>, u64)| k.1 != ts || !writes_key(ws, k.0) implies !#[trigger]
        writes_version(c, k) by {
        if writes_version(c, k) {
            let i = choose|i: int| 0 <= i < c.len() && (#[trigger] c[i]).0 == k.0 && c[i].2 == k.1;
            assert(ws[i].0 == k.0);
        }
    }
    assert forall|k: (Seq<u8>, u64)| k.1 != ts || !writes_key(ws, k.0) implies #[trigger]
        after.contains_key(k) == before.contains_key(k) by {
        assert(!writes_version(c, k));
    }
    assert forall|k: (Seq<u8>, u64)|
        (k.1 != ts || !writes_key(ws, k.0)) && before.contains_key(k) implies #[trigger] after[k]
        == before[k] by {
        assert(!writes_version(c, k));
    }
}

/// A transaction that begins has written nothing yet, and its number is noted. No version and no
/// other transaction changes.
pub proof fn law_begin_opens(s: ReplayView, id: u64)
    ensures
        ({
            let t = replay_payload(s, PayloadView::TxnBegin(id));
            &&& t.versions == s.versions
            &&& t.size == s.size
            &&& t.pending.contains_key(id) && t.pending[id].len() == 0
            &&& forall|o: u64|
                o != id ==> #[trigger] t.pending.contains_key(o) == s.pending.contains_key(o)
            &&& forall|o: u64|
                o != id && s.pending.contains_key(o) ==> #[trigger] t.pending[o] == s.pending[o]
            &&& t.max_txn_id >= id && t.max_txn_id >= s.max_txn_id
            &&& t.max_txn_id == id || t.max_txn_id == s.max_txn_id
            &&& t.max_seq == s.max_seq
            &&& t.max_commit_ts == s.max_commit_ts
        }),
{
}

/// A write of an open transaction comes behind its earlier ones and waits; one of a transaction
/// that is not open changes nothing.
pub proof fn law_write_waits(s: ReplayView, id: u64, key: Seq<u8>, value: Seq<u8>)
    ensures
        ({
            let t = replay_payload(s, PayloadView::TxnWrite(id, key, value));
            &&& t.versions == s.versions
            &&& t.size == s.size
            &&& forall|o: u64| #[trigger] t.pending.contains_key(o) == s.pending.contains_key(o)
            &&& s.pending.contains_key(id) ==> t.pending[id] == s.pending[id] + seq![(key, value)]
            &&& forall|o: u64|
                o != id && s.pending.contains_key(o) ==> #[trigger] t.pending[o] == s.pending[o]
            &&& t.max_txn_id == s.max_txn_id
            &&& t.max_seq == s.max_seq
            &&& t.max_commit_ts == s.max_commit_ts
        }),
{
    assert(s.pending[id].push((key, value)) =~= s.pending[id] + seq![(key, value)]);
}

/// A commit makes everything that its open transaction wrote take effect at the commit timestamp
/// and closes the transaction; of one that is not open only the numbers are noted. No other
/// transaction changes.
pub proof fn law_commit_applies(s: ReplayView, id: u64, ts: u64)
    ensures
        ({
            let t = replay_payload(s, PayloadView::TxnCommit(id, ts));
            &&& s.pending.contains_key(id) ==> committed_whole(
                s.versions,
                t.versions,
                s.pending[id],
                ts,
            )
            &&& !s.pending.contains_key(id) ==> t.versions == s.versions
            &&& !t.pending.contains_key(id)
            &&& forall|o: u64|
                o != id ==> #[trigger] t.pending.contains_key(o) == s.pending.contains_key(o)
            &&& forall|o: u64|
                o != id && s.pending.contains_key(o) ==> #[trigger] t.pending[o] == s.pending[o]
            &&& t.max_txn_id >= id && t.max_txn_id >= s.max_txn_id
            &&& t.max_txn_id == id || t.max_txn_id == s.max_txn_id
            &&& t.max_seq >= ts && t.max_seq >= s.max_seq
            &&& t.max_seq == ts || t.max_seq == s.max_seq
            &&& t.max_commit_ts >= ts && t.max_commit_ts >= s.max_commit_ts
            &&& t.max_commit_ts == ts || t.max_commit_ts == s.max_commit_ts
        }),
{
    let m = ReplayView {
        max_txn_id: larger(s.max_txn_id, id),
        max_commit_ts: larger(s.max_commit_ts, ts),
        max_seq: larger(s.max_seq, ts),
        ..s
    };
    if s.pending.contains_key(id) {
        let r = ReplayView { pending: s.pending.remove(id), ..m };
        let c = committed(s.pending[id], ts);
        law_writes_take_effect(r, c);
        lemma_committed_whole(s.versions, replay_writes(r, c).versions, s.pending[id], ts);
        lemma_writes_at(r, c, ts);
    }
}

proof fn lemma_writes_at(s: ReplayView, ws: Seq<WriteView>, ts: u64)
    requires
        forall|i: int| 0 <= i < ws.len() ==> (#[trigger] ws[i]).2 == ts,
        s.max_seq >= ts,
        s.max_commit_ts >= ts,
    ensures
        replay_writes(s, ws).max_seq == s.max_seq,
        replay_writes(s, ws).max_commit_ts == s.max_commit_ts,
    decreases ws.len(),
{
    if ws.len() > 0 {
        let t = ws.drop_last();
        assert forall|i: int| 0 <= i < t.len() implies (#[trigger] t[i]).2 == ts by {
            assert(t[i] == ws[i]);
        }
        lemma_writes_at(s, t, ts);
        assert(ws[ws.len() - 1].2 == ts);
    }
}

/// An abort forgets its transaction and changes nothing else.
pub proof fn law_abort_forgets(s: ReplayView, id: u64)
    ensures
        ({
            let t = replay_payload(s, PayloadView::TxnAbort(id));
            &&& t.versions == s.versions
            &&& t.size == s.size
            &&& !t.pending.contains_key(id)
            &&& forall|o: u64|
                o != id ==> #[trigger] t.pending.contains_key(o) == s.pending.contains_key(o)
            &&& forall|o: u64|
                o != id && s.pending.contains_key(o) ==> #[trigger] t.pending[o] == s.pending[o]
            &&& t.max_txn_id == s.max_txn_id
            &&& t.max_seq == s.max_seq
            &&& t.max_commit_ts == s.max_commit_ts
        }),
{
}

/// Tells whether one of the writes has a sequence number.
pub open spec fn written_at(ws: Seq<WriteView>, t: u64) -> bool {
    exists|i: int| 0 <= i < ws.len() && (#[trigger] ws[i]).2 == t
}

/// Tells whether a sequence number stands in a record.
pub open spec fn stamps_with(p: PayloadView, t: u64) -> bool {
    match p {
        PayloadView::Kv(w) => w.2 == t,
        PayloadView::Batch(ws) => written_at(ws, t),
        PayloadView::TxnCommit(_, ts) => ts == t,
        _ => false,
    }
}

/// Tells whether a record begins or commits a transaction.
pub open spec fn bounds_txn(p: PayloadView, id: u64) -> bool {
    match p {
        PayloadView::TxnBegin(i) => i == id,
        PayloadView::TxnCommit(i, _) => i == id,
        _ => false,
    }
}

/// Tells whether a sequence number stands in one of the records.
pub open spec fn stamp_in(records: Seq<Seq<u8>>, t: u64) -> bool {
    exists|i: int|
        0 <= i < records.len() && (payload_of_bytes(#[trigger] records[i]) matches Some(p)
            && stamps_with(p, t))
}

/// Tells whether one of the records begins or commits a transaction.
pub open spec fn txn_in(records: Seq<Seq<u8>>, id: u64) -> bool {
    exists|i: int|
        0 <= i < records.len() && (payload_of_bytes(#[trigger] records[i]) matches Some(p)
            && bounds_txn(p, id))
}

proof fn lemma_writes_largest(s: ReplayView, ws: Seq<WriteView>)
    ensures
        replay_writes(s, ws).max_seq >= s.max_seq,
        replay_writes(s, ws).max_commit_ts >= s.max_commit_ts,
        forall|i: int|
            0 <= i < ws.len() ==> (#[trigger] ws[i]).2 <= replay_writes(s, ws).max_seq && ws[i].2
                <= replay_writes(s, ws).max_commit_ts,
        replay_writes(s, ws).max_seq == s.max_seq || written_at(
            ws,
            replay_writes(s, ws).max_seq,
        ),
        replay_writes(s, ws).max_commit_ts == s.max_commit_ts || written_at(
            ws,
            replay_writes(s, ws).max_commit_ts,
        ),
    decreases ws.len(),
{
    if ws.len() > 0 {
        let t = ws.drop_last();
        let m = replay_writes(s, t);
        lemma_writes_largest(s, t);
        let n = replay_writes(s, ws);
        assert(ws[ws.len() - 1] == ws.last());
        assert forall|i: int| 0 <= i < ws.len() implies (#[trigger] ws[i]).2 <= n.max_seq
            && ws[i].2 <= n.max_commit_ts by {
            if i < t.len() {
                assert(t[i] == ws[i]);
            }
        }
        assert forall|x: u64| #[trigger]
            written_at(t, x) implies written_at(ws, x) by {
            let i = choose|i: int| 0 <= i < t.len() && (#[trigger] t[i]).2 == x;
            assert(ws[i] == t[i]);
        }
        assert(written_at(ws, ws.last().2));
    }
}

/// The numbers after recovery are the largest in the log: no sequence number, commit timestamp
/// or transaction number in a record is above them, and each stands in a record unless it is
/// zero.
pub proof fn law_recovered_numbers(records: Seq<Seq<u8>>)
    ensures
        forall|t: u64| #[trigger]
            stamp_in(records, t) ==> t <= replayed(records).max_seq && t <= replayed(
                records,
            ).max_commit_ts,
        replayed(records).max_seq == 0 || stamp_in(records, replayed(records).max_seq),
        replayed(records).max_commit_ts == 0 || stamp_in(records, replayed(records).max_commit_ts),
        forall|id: u64| #[trigger] txn_in(records, id) ==> id <= replayed(records).max_txn_id,
        replayed(records).max_txn_id == 0 || txn_in(records, replayed(records).max_txn_id),
    decreases records.len(),
{
    if records.len() > 0 {
        let n = records.len() - 1;
        let before = records.drop_last();
        let s = replayed(before);
        let r = replayed(records);
        law_recovered_numbers(before);
        let d = records.last();
        assert(records[n] == d);
        assert forall|x: u64| #[trigger] stamp_in(before, x) implies stamp_in(records, x) by {
            let i = choose|i: int|
                0 <= i < before.len() && (payload_of_bytes(#[trigger] before[i]) matches Some(p)
                    && stamps_with(p, x));
            assert(records[i] == before[i]);
        }
        assert forall|x: u64| #[trigger] txn_in(before, x) implies txn_in(records, x) by {
            let i = choose|i: int|
                0 <= i < before.len() && (payload_of_bytes(#[trigger] before[i]) matches Some(p)
                    && bounds_txn(p, x));
            assert(records[i] == before[i]);
        }
        let q = payload_of_bytes(d);
        assert forall|x: u64| #[trigger]
            stamp_in(records, x) && !stamp_in(before, x) implies q is Some && stamps_with(
            q->0,
            x,
        ) by {
            let i = choose|i: int|
                0 <= i < records.len() && (payload_of_bytes(#[trigger] records[i]) matches Some(p)
                    && stamps_with(p, x));
            if i < n {
                assert(before[i] == records[i]);
            }
        }
        assert forall|x: u64| #[trigger]
            txn_in(records, x) && !txn_in(before, x) implies q is Some && bounds_txn(q->0, x) by {
            let i = choose|i: int|
                0 <= i < records.len() && (payload_of_bytes(#[trigger] records[i]) matches Some(p)
                    && bounds_txn(p, x));
            if i < n {
                assert(before[i] == records[i]);
            }
        }
        match q {
            Some(PayloadView::Kv(w)) => {
                assert(stamps_with(q->0, w.2));
            },
            Some(PayloadView::Batch(ws)) => {
                lemma_writes_largest(s, ws);
                law_writes_take_effect(s, ws);
            },
            Some(PayloadView::TxnCommit(id, ts)) => {
                law_commit_applies(s, id, ts);
                assert(stamps_with(q->0, ts));
                assert(bounds_txn(q->0, id));
            },
            Some(PayloadView::TxnBegin(id)) => {
                assert(bounds_txn(q->0, id));
            },
            _ => {},
        }
    }
}

/// A transaction takes effect when its commit is in the log, all of it and under its commit
/// timestamp: every key that it wrote has the value that it wrote last, and every other version
/// is as it was before the transaction.
pub proof fn law_committed_takes_effect(records: Seq<Seq<u8>>, id: u64, ws: TxnWrites, ts: u64)
    requires
        txn_fits(ws),
    ensures
        ({
            let commit = payload_bytes(PayloadView::TxnCommit(id, ts));
            let after = replayed((records + open_txn_records(id, ws)).push(commit));
            &&& after.versions == replay_writes(replayed(records), committed(ws, ts)).versions
            &&& committed_whole(replayed(records).versions, after.versions, ws, ts)
            &&& !after.pending.contains_key(id)
        }),
{
    law_uncommitted_leaves_nothing(records, id, ws);
    let p = PayloadView::TxnCommit(id, ts);
    law_payload_round_trip(p);
    let before = records + open_txn_records(id, ws);
    let all = before.push(payload_bytes(p));
    assert(all.drop_last() =~= before);
    let s = replayed(before);
    let t = ReplayView {
        max_txn_id: larger(s.max_txn_id, id),
        max_commit_ts: larger(s.max_commit_ts, ts),
        max_seq: larger(s.max_seq, ts),
        pending: s.pending.remove(id),
        ..s
    };
    assert(replayed(all) == replay_writes(t, committed(ws, ts)));
    lemma_writes_versions(t, replayed(records), committed(ws, ts));
    law_commit_applies(s, id, ts);
}

/// A transaction that is aborted leaves nothing.
pub proof fn law_aborted_leaves_nothing(records: Seq<Seq<u8>>, id: u64, ws: TxnWrites)
    requires
        txn_fits(ws),
    ensures
        ({
            let abort = payload_bytes(PayloadView::TxnAbort(id));
            let after = replayed((records + open_txn_records(id, ws)).push(abort));
            &&& after.versions == replayed(records).versions
            &&& after.pending == replayed(records).pending.remove(id)
        }),
{
    law_uncommitted_leaves_nothing(records, id, ws);
    let p = PayloadView::TxnAbort(id);
    law_payload_round_trip(p);
    let before = records + open_txn_records(id, ws);
    assert(before.push(payload_bytes(p)).drop_last() =~= before);
    assert(replayed(records).pending.insert(id, ws).remove(id) =~= replayed(records).pending.remove(
        id,
    ));
}

proof fn lemma_writes_versions(a: ReplayView, b: ReplayView, ws: Seq<WriteView>)
    requires
        a.versions == b.versions,
    ensures
        replay_writes(a, ws).versions == replay_writes(b, ws).versions,
    decreases ws.len(),
{
    if ws.len() > 0 {
        lemma_writes_versions(a, b, ws.drop_last());
    }
}

/// Tells whether the largest sequence number is at or after that of every version.
pub open spec fn stamps_bounded(s: ReplayView) -> bool {
    forall|k: (Seq<u8>, u64)| #[trigger]
        s.versions.contains_key(k) ==> k.1 <= s.max_seq && k.1 <= s.max_commit_ts
}

proof fn lemma_writes_bounded(s: ReplayView, ws: Seq<WriteView>)
    requires
        stamps_bounded(s),
    ensures
        stamps_bounded(replay_writes(s, ws)),
    decreases ws.len(),
{
    if ws.len() > 0 {
        lemma_writes_bounded(s, ws.drop_last());
    }
}

/// After recovery no version is newer than the largest sequence number and the largest commit
/// timestamp, so the next write and the next commit come after all of them.
pub proof fn law_recovered_stamps_bounded(records: Seq<Seq<u8>>)
    ensures
        stamps_bounded(replayed(records)),
    decreases records.len(),
{
    if records.len() > 0 {
        law_recovered_stamps_bounded(records.drop_last());
        let s = replayed(records.drop_last());
        match payload_of_bytes(records.last()) {
            Some(PayloadView::Batch(ws)) => {
                lemma_writes_bounded(s, ws);
            },
            Some(PayloadView::TxnCommit(id, ts)) => {
                if s.pending.contains_key(id) {
                    let t = ReplayView {
                        max_txn_id: larger(s.max_txn_id, id),
                        max_commit_ts: larger(s.max_commit_ts, ts),
                        max_seq: larger(s.max_seq, ts),
                        pending: s.pending.remove(id),
                        ..s
                    };
                    assert(stamps_bounded(t));
                    lemma_writes_bounded(t, committed(s.pending[id], ts));
                }
            },
            _ => {},
        }
    }
}

proof fn lemma_writes_below(s: ReplayView, ws: Seq<WriteView>)
    requires
        s.max_seq < u64::MAX,
        largest_write(ws) < u64::MAX,
    ensures
        replay_writes(s, ws).max_seq < u64::MAX,
    decreases ws.len(),
{
    if ws.len() > 0 {
        lemma_writes_below(s, ws.drop_last());
    }
}

proof fn lemma_committed_below(ws: TxnWrites, ts: u64)
    requires
        ts < u64::MAX,
    ensures
        largest_write(committed(ws, ts)) < u64::MAX,
    decreases ws.len(),
{
    if ws.len() > 0 {
        lemma_committed_below(ws.drop_last(), ts);
        assert(committed(ws, ts).drop_last() =~= committed(ws.drop_last(), ts));
        assert(committed(ws, ts).last().2 == ts);
    }
}

/// Records without a sequence number that leaves none after it do not lead to one.
pub proof fn lemma_max_below(records: Seq<Seq<u8>>)
    requires
        !some_out_of_range(records),
    ensures
        replayed(records).max_seq < u64::MAX,
    decreases records.len(),
{
    if records.len() > 0 {
        let t = records.drop_last();
        assert forall|i: int| 0 <= i < t.len() implies !out_of_range(#[trigger] t[i]) by {
            assert(t[i] == records[i]);
        }
        lemma_max_below(t);
        let s = replayed(t);
        assert(!out_of_range(records[records.len() - 1]));
        match payload_of_bytes(records.last()) {
            Some(PayloadView::Batch(ws)) => {
                lemma_writes_below(s, ws);
            },
            Some(PayloadView::TxnCommit(id, ts)) => {
                if s.pending.contains_key(id) {
                    let x = ReplayView {
                        max_txn_id: larger(s.max_txn_id, id),
                        max_commit_ts: larger(s.max_commit_ts, ts),
                        max_seq: larger(s.max_seq, ts),
                        pending: s.pending.remove(id),
                        ..s
                    };
                    lemma_committed_below(s.pending[id], ts);
                    lemma_writes_below(x, committed(s.pending[id], ts));
                }
            },
            _ => {},
        }
    }
}

/// A record that cannot be read as one is passed over.
pub proof fn law_unreadable_passed_over(records: Seq<Seq<u8>>, d: Seq<u8>)
    requires
        payload_of_bytes(d) is None,
    ensures
        replayed(records.push(d)) == replayed(records),
{
    assert(records.push(d).drop_last() =~= records);
}

/// A log is refused exactly where it has a fault or a record in it leaves no sequence number after
/// it; otherwise what it holds is replayed.
pub proof fn law_faulty_log_refused(segs: Seq<Seq<u8>>)
    ensures
        recovered(segs) is Ok <==> log_records(segs).1 is None && !some_out_of_range(
            log_records(segs).0,
        ),
        recovered(segs) matches Ok(s) ==> s == replayed(log_records(segs).0),
{
}

/// Recovery counts the size of the memtable by what it wrote: the bytes of the keys and of the
/// values, and eight for each version, up to the largest number.
pub proof fn law_recovered_size(s: ReplayView, w: WriteView)
    ensures
        ({
            let n = s.size + w.0.len() + 8 + match w.1 {
                Some(v) => v.len(),
                None => 0,
            };
            replay_write(s, w).size == if n <= usize::MAX {
                n
            } else {
                usize::MAX as int
            }
        }),
{
}

proof fn lemma_largest_is_written(ws: Seq<WriteView>)
    ensures
        forall|i: int| 0 <= i < ws.len() ==> (#[trigger] ws[i]).2 <= largest_write(ws),
        largest_write(ws) == 0 || written_at(ws, largest_write(ws)),
    decreases ws.len(),
{
    if ws.len() > 0 {
        let t = ws.drop_last();
        lemma_largest_is_written(t);
        assert(ws[ws.len() - 1] == ws.last());
        assert forall|i: int| 0 <= i < ws.len() implies (#[trigger] ws[i]).2 <= largest_write(
            ws,
        ) by {
            if i < t.len() {
                assert(t[i] == ws[i]);
            }
        }
        if written_at(t, largest_write(t)) {
            let i = choose|i: int| 0 <= i < t.len() && (#[trigger] t[i]).2 == largest_write(t);
            assert(ws[i] == t[i]);
        }
        if largest_write(ws) != 0 {
            if largest_write(ws) == ws.last().2 {
                assert(ws[ws.len() - 1].2 == largest_write(ws));
            }
            assert(written_at(ws, largest_write(ws)));
        }
    }
}

/// A log leaves no sequence number to go on with exactly where the largest there is stands in one of
/// its records.
pub proof fn law_last_stamp_refused(records: Seq<Seq<u8>>)
    ensures
        some_out_of_range(records) <==> stamp_in(records, u64::MAX),
{
    assert forall|d: Seq<u8>| #[trigger] out_of_range(d) == (payload_of_bytes(d) is Some
        && stamps_with(payload_of_bytes(d)->0, u64::MAX)) by {
        if let Some(p) = payload_of_bytes(d) {
            if let PayloadView::Batch(ws) = p {
                lemma_largest_is_written(ws);
                if written_at(ws, u64::MAX) {
                    let i = choose|i: int| 0 <= i < ws.len() && (#[trigger] ws[i]).2 == u64::MAX;
                    assert(ws[i].2 <= largest_write(ws));
                }
            }
        }
    }
    if some_out_of_range(records) {
        let i = choose|i: int| 0 <= i < records.len() && out_of_range(#[trigger] records[i]);
        assert(payload_of_bytes(records[i]) matches Some(p) && stamps_with(p, u64::MAX));
    }
    if stamp_in(records, u64::MAX) {
        let i = choose|i: int|
            0 <= i < records.len() && (payload_of_bytes(#[trigger] records[i]) matches Some(p)
                && stamps_with(p, u64::MAX));
        assert(out_of_range(records[i]));
    }
}

} // verus!
