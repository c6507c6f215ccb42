//! What the records of the log say.
//!
//! ```text
//! write:       seq (8) | key_len (4) | key | 1 | value_len (4) | value
//! delete:      seq (8) | key_len (4) | key | 0
//! batch:       MAX - 1 (8) | count (4) | count times: len (4) | write or delete
//! transaction: MAX (8) | 1 | txn_id (8)                                          begin
//!                      | 2 | txn_id (8) | key_len (4) | key | value_len (4) | value
//!                      | 3 | txn_id (8) | commit_ts (8)                          commit
//!                      | 4 | txn_id (8)                                          abort
//! ```
//!
//! No write has one of the two largest sequence numbers, so the kinds cannot be confused.

use crate::codec::{
    append_bytes, copy_range, get_u32, get_u64, le32, le32_at, le64, le64_at, lemma_le_fixed,
    put_u32, put_u64,
};
use crate::memtable::{opt_view, ValueView};
use vstd::prelude::*;
use vstd::slice::slice_subrange;

verus! {

/// The first eight bytes of a transaction's record.
pub const WAL_TXN_MAGIC: u64 = 0xffff_ffff_ffff_ffff;

/// The first eight bytes of a batch.
pub const WAL_BATCH_MAGIC: u64 = 0xffff_ffff_ffff_fffe;

/// The type byte of a transaction's begin.
pub const WAL_TYPE_TXN_BEGIN: u8 = 1;

/// The type byte of a transaction's write.
pub const WAL_TYPE_TXN_WRITE: u8 = 2;

/// The type byte of a transaction's commit.
pub const WAL_TYPE_TXN_COMMIT: u8 = 3;

/// The type byte of a transaction's abort.
pub const WAL_TYPE_TXN_ABORT: u8 = 4;

/// A key with its value, or with none where it is deleted, and the sequence number of the write.
pub type WriteView = (Seq<u8>, ValueView, u64);

/// What a record says.
#[derive(Debug)]
#[allow(inconsistent_fields)]
pub enum WalPayload {
    /// A write or a delete.
    Kv { key: Vec<u8>, value: Option<Vec<u8>>, seq: u64 },
    /// Writes and deletes that belong together.
    Batch { writes: Vec<(Vec<u8>, Option<Vec<u8>>, u64)> },
    /// A transaction begins.
    TxnBegin { txn_id: u64 },
    /// A transaction writes; it counts only once the transaction commits.
    TxnWrite { txn_id: u64, key: Vec<u8>, value: Vec<u8> },
    /// A transaction commits.
    TxnCommit { txn_id: u64, commit_ts: u64 },
    /// A transaction is given up.
    TxnAbort { txn_id: u64 },
}

/// What a record says, in the mathematical model.
pub enum PayloadView {
    Kv(WriteView),
    Batch(Seq<WriteView>),
    TxnBegin(u64),
    TxnWrite(u64, Seq<u8>, Seq<u8>),
    TxnCommit(u64, u64),
    TxnAbort(u64),
}

/// The views of writes.
pub open spec fn writes_view(s: Seq<(Vec<u8>, Option<Vec<u8>>, u64)>) -> Seq<WriteView> {
    s.map_values(|w: (Vec<u8>, Option<Vec<u8>>, u64)| (w.0@, opt_view(w.1), w.2))
}

impl View for WalPayload {
    type V = PayloadView;

    open spec fn view(&self) -> PayloadView {
        match self {
            WalPayload::Kv { key, value, seq } => PayloadView::Kv((key@, opt_view(*value), *seq)),
            WalPayload::Batch { writes } => PayloadView::Batch(writes_view(writes@)),
            WalPayload::TxnBegin { txn_id } => PayloadView::TxnBegin(*txn_id),
            WalPayload::TxnWrite { txn_id, key, value } => PayloadView::TxnWrite(
                *txn_id,
                key@,
                value@,
            ),
            WalPayload::TxnCommit { txn_id, commit_ts } => PayloadView::TxnCommit(
                *txn_id,
                *commit_ts,
            ),
            WalPayload::TxnAbort { txn_id } => PayloadView::TxnAbort(*txn_id),
        }
    }
}

/// The bytes of a write or a delete.
pub open spec fn kv_bytes(w: WriteView) -> Seq<u8> {
    le64(w.2) + le32(w.0.len() as u32) + w.0 + (match w.1 {
        Some(v) => seq![1u8] + le32(v.len() as u32) + v,
        None => seq![0u8],
    })
}

/// The write or delete that bytes denote. What follows it is not looked at.
pub open spec fn kv_of_bytes(d: Seq<u8>) -> Option<WriteView> {
    if d.len() < 13 {
        None
    } else {
        let seq = le64_at(d, 0) as u64;
        let n = le32_at(d, 8) as int;
        if d.len() < 13 + n {
            None
        } else {
            let key = d.subrange(12, 12 + n);
            if d[12 + n] == 0 {
                Some((key, None, seq))
            } else if d[12 + n] == 1 {
                if d.len() < 17 + n {
                    None
                } else {
                    let m = le32_at(d, 13 + n) as int;
                    if d.len() < 17 + n + m {
                        None
                    } else {
                        Some((key, Some(d.subrange(17 + n, 17 + n + m)), seq))
                    }
                }
            } else {
                None
            }
        }
    }
}

/// The writes of a batch from a place on, each with its length before it.
pub open spec fn batch_bytes(ws: Seq<WriteView>) -> Seq<u8>
    decreases ws.len(),
{
    if ws.len() == 0 {
        Seq::<u8>::empty()
    } else {
        batch_bytes(ws.drop_last()) + le32(kv_bytes(ws.last()).len() as u32) + kv_bytes(ws.last())
    }
}

/// The writes that bytes denote from a place on, each with its length before it.
pub open spec fn batch_of_bytes(d: Seq<u8>, off: nat, count: nat) -> Option<Seq<WriteView>>
    decreases count,
{
    if count == 0 {
        Some(Seq::empty())
    } else if off + 4 > d.len() {
        None
    } else {
        let n = le32_at(d, off as int);
        let start = off + 4;
        if start + n > d.len() {
            None
        } else {
            match kv_of_bytes(d.subrange(start as int, (start + n) as int)) {
                None => None,
                Some(w) => match batch_of_bytes(d, start + n, (count - 1) as nat) {
                    None => None,
                    Some(rest) => Some(seq![w] + rest),
                },
            }
        }
    }
}

/// The bytes of a record.
pub open spec fn payload_bytes(p: PayloadView) -> Seq<u8> {
    match p {
        PayloadView::Kv(w) => kv_bytes(w),
        PayloadView::Batch(ws) => le64(WAL_BATCH_MAGIC) + le32(ws.len() as u32) + batch_bytes(ws),
        PayloadView::TxnBegin(id) => le64(WAL_TXN_MAGIC) + seq![1u8] + le64(id),
        PayloadView::TxnWrite(id, k, v) => le64(WAL_TXN_MAGIC) + seq![2u8] + le64(id) + le32(
            k.len() as u32,
        ) + k + le32(v.len() as u32) + v,
        PayloadView::TxnCommit(id, ts) => le64(WAL_TXN_MAGIC) + seq![3u8] + le64(id) + le64(ts),
        PayloadView::TxnAbort(id) => le64(WAL_TXN_MAGIC) + seq![4u8] + le64(id),
    }
}

/// What the bytes of a transaction's record say.
pub open spec fn txn_of_bytes(d: Seq<u8>) -> Option<PayloadView> {
    if d.len() < 17 {
        None
    } else {
        let id = le64_at(d, 9) as u64;
        if d[8] == 1 {
            Some(PayloadView::TxnBegin(id))
        } else if d[8] == 2 {
            if d.len() < 21 {
                None
            } else {
                let n = le32_at(d, 17) as int;
                if d.len() < 25 + n {
                    None
                } else {
                    let m = le32_at(d, 21 + n) as int;
                    if d.len() < 25 + n + m {
                        None
                    } else {
                        Some(
                            PayloadView::TxnWrite(
                                id,
                                d.subrange(21, 21 + n),
                                d.subrange(25 + n, 25 + n + m),
                            ),
                        )
                    }
                }
            }
        } else if d[8] == 3 {
            if d.len() < 25 {
                None
            } else {
                Some(PayloadView::TxnCommit(id, le64_at(d, 17) as u64))
            }
        } else if d[8] == 4 {
            Some(PayloadView::TxnAbort(id))
        } else {
            None
        }
    }
}

/// What the bytes of a record say.
#[verifier::opaque]
pub open spec fn payload_of_bytes(d: Seq<u8>) -> Option<PayloadView> {
    if d.len() < 8 {
        None
    } else if le64_at(d, 0) == WAL_BATCH_MAGIC {
        if d.len() < 12 {
            None
        } else {
            match batch_of_bytes(d, 12, le32_at(d, 8)) {
                Some(ws) => Some(PayloadView::Batch(ws)),
                None => None,
            }
        }
    } else if le64_at(d, 0) == WAL_TXN_MAGIC {
        txn_of_bytes(d)
    } else {
        match kv_of_bytes(d) {
            Some(w) => Some(PayloadView::Kv(w)),
            None => None,
        }
    }
}

/// Encodes a write or a delete.
pub fn encode_wal_record(key: &[u8], value: Option<&[u8]>, seq: u64) -> (r: Vec<u8>)
    ensures
        r@ == kv_bytes(
            (
                key@,
                match value {
                    Some(v) => Some(v@),
                    None => None,
                },
                seq,
            ),
        ),
{
    let mut r: Vec<u8> = Vec::new();
    put_u64(&mut r, seq);
    put_u32(&mut r, key.len() as u32);
    append_bytes(&mut r, key);
    let ghost head = r@;
    assert(head =~= le64(seq) + le32(key@.len() as u32) + key@);
    match value {
        Some(v) => {
            r.push(1);
            put_u32(&mut r, v.len() as u32);
            append_bytes(&mut r, v);
            assert(r@ =~= head + (seq![1u8] + le32(v@.len() as u32) + v@));
        },
        None => {
            r.push(0);
            assert(r@ =~= head + seq![0u8]);
        },
    }
    r
}

/// Decodes a write or a delete.
pub fn decode_wal_record(data: &[u8]) -> (r: Option<(Vec<u8>, Option<Vec<u8>>, u64)>)
    ensures
        match r {
            Some(w) => kv_of_bytes(data@) == Some((w.0@, opt_view(w.1), w.2)),
            None => kv_of_bytes(data@) is None,
        },
{
    let len = data.len();
    if len < 13 {
        return None;
    }
    let seq = get_u64(data, 0);
    let n = get_u32(data, 8) as usize;
    if len - 13 < n {
        return None;
    }
    let key = copy_range(data, 12, 12 + n);
    let kind = data[12 + n];
    if kind == 0 {
        return Some((key, None, seq));
    }
    if kind != 1 || len - 13 - n < 4 {
        return None;
    }
    let m = get_u32(data, 13 + n) as usize;
    if len - 17 - n < m {
        return None;
    }
    let value = copy_range(data, 17 + n, 17 + n + m);
    Some((key, Some(value), seq))
}

/// Encodes the begin of a transaction.
pub fn encode_txn_begin_record(txn_id: u64) -> (r: Vec<u8>)
    ensures
        r@ == payload_bytes(PayloadView::TxnBegin(txn_id)),
{
    let mut r: Vec<u8> = Vec::new();
    put_u64(&mut r, WAL_TXN_MAGIC);
    r.push(WAL_TYPE_TXN_BEGIN);
    put_u64(&mut r, txn_id);
    assert(r@ =~= payload_bytes(PayloadView::TxnBegin(txn_id)));
    r
}

/// Encodes a write of a transaction.
pub fn encode_txn_write_record(txn_id: u64, key: &[u8], value: &[u8]) -> (r: Vec<u8>)
    ensures
        r@ == payload_bytes(PayloadView::TxnWrite(txn_id, key@, value@)),
{
    let mut r: Vec<u8> = Vec::new();
    put_u64(&mut r, WAL_TXN_MAGIC);
    r.push(WAL_TYPE_TXN_WRITE);
    put_u64(&mut r, txn_id);
    put_u32(&mut r, key.len() as u32);
    append_bytes(&mut r, key);
    put_u32(&mut r, value.len() as u32);
    append_bytes(&mut r, value);
    assert(r@ =~= payload_bytes(PayloadView::TxnWrite(txn_id, key@, value@)));
    r
}

/// Encodes the commit of a transaction.
pub fn encode_txn_commit_record(txn_id: u64, commit_ts: u64) -> (r: Vec<u8>)
    ensures
        r@ == payload_bytes(PayloadView::TxnCommit(txn_id, commit_ts)),
{
    let mut r: Vec<u8> = Vec::new();
    put_u64(&mut r, WAL_TXN_MAGIC);
    r.push(WAL_TYPE_TXN_COMMIT);
    put_u64(&mut r, txn_id);
    put_u64(&mut r, commit_ts);
    assert(r@ =~= payload_bytes(PayloadView::TxnCommit(txn_id, commit_ts)));
    r
}

/// Encodes the abort of a transaction.
pub fn encode_txn_abort_record(txn_id: u64) -> (r: Vec<u8>)
    ensures
        r@ == payload_bytes(PayloadView::TxnAbort(txn_id)),
{
    let mut r: Vec<u8> = Vec::new();
    put_u64(&mut r, WAL_TXN_MAGIC);
    r.push(WAL_TYPE_TXN_ABORT);
    put_u64(&mut r, txn_id);
    assert(r@ =~= payload_bytes(PayloadView::TxnAbort(txn_id)));
    r
}

/// The writes of a batch, all with one sequence number.
pub open spec fn stamped(ws: Seq<(Vec<u8>, Option<Vec<u8>>)>, seq: u64) -> Seq<WriteView> {
    ws.map_values(|w: (Vec<u8>, Option<Vec<u8>>)| (w.0@, opt_view(w.1), seq))
}

/// Encodes writes that belong together.
#[verifier::rlimit(40)]
pub fn encode_batch_record(writes: &Vec<(Vec<u8>, Option<Vec<u8>>)>, commit_ts: u64) -> (r: Vec<u8>)
    ensures
        r@ == payload_bytes(PayloadView::Batch(stamped(writes@, commit_ts))),
{
    let ghost all = stamped(writes@, commit_ts);
    let mut r: Vec<u8> = Vec::new();
    put_u64(&mut r, WAL_BATCH_MAGIC);
    put_u32(&mut r, writes.len() as u32);
    let ghost head = r@;
    let mut i: usize = 0;
    proof {
        assert(all.take(0) =~= Seq::<WriteView>::empty());
        assert(head + batch_bytes(all.take(0)) =~= head);
        assert(head =~= le64(WAL_BATCH_MAGIC) + le32(all.len() as u32));
    }
    while i < writes.len()
        invariant
            i <= writes@.len(),
            all == stamped(writes@, commit_ts),
            r@ == head + batch_bytes(all.take(i as int)),
        decreases writes@.len() - i,
    {
        let (key, value) = &writes[i];
        let record = match value {
            Some(v) => encode_wal_record(key, Some(v.as_slice()), commit_ts),
            None => encode_wal_record(key, None, commit_ts),
        };
        proof {
            assert(all[i as int] == (key@, opt_view(*value), commit_ts));
            assert(record@ == kv_bytes(all[i as int]));
            assert(all.take(i + 1).drop_last() =~= all.take(i as int));
        }
        put_u32(&mut r, record.len() as u32);
        append_bytes(&mut r, &record);
        proof {
            let before = batch_bytes(all.take(i as int));
            assert(r@ =~= head + (before + le32(record@.len() as u32) + record@));
        }
        i += 1;
    }
    assert(all.take(i as int) =~= all);
    r
}

fn decode_batch(data: &[u8], count: u32) -> (r: Option<Vec<(Vec<u8>, Option<Vec<u8>>, u64)>>)
    requires
        data@.len() >= 12,
    ensures
        match r {
            Some(ws) => batch_of_bytes(data@, 12, count as nat) == Some(writes_view(ws@)),
            None => batch_of_bytes(data@, 12, count as nat) is None,
        },
{
    let ghost want = batch_of_bytes(data@, 12, count as nat);
    let len = data.len();
    let mut out: Vec<(Vec<u8>, Option<Vec<u8>>, u64)> = Vec::new();
    let mut off: usize = 12;
    let mut left: u32 = count;
    proof {
        if want is Some {
            assert(writes_view(out@) + want->0 =~= want->0);
        }
    }
    while left > 0
        invariant
            len == data@.len(),
            off <= len,
            match batch_of_bytes(data@, off as nat, left as nat) {
                Some(rest) => want == Some(writes_view(out@) + rest),
                None => want is None,
            },
            want == batch_of_bytes(data@, 12, count as nat),
        decreases left,
    {
        if len - off < 4 {
            return None;
        }
        let n = get_u32(data, off) as usize;
        let start = off + 4;
        if len - start < n {
            return None;
        }
        let part = slice_subrange(data, start, start + n);
        match decode_wal_record(part) {
            Some(w) => {
                let ghost x: WriteView = (w.0@, opt_view(w.1), w.2);
                let ghost before = writes_view(out@);
                out.push(w);
                proof {
                    assert(writes_view(out@) =~= before.push(x));
                    match batch_of_bytes(data@, (start + n) as nat, (left - 1) as nat) {
                        Some(rest) => {
                            assert(before + (seq![x] + rest) =~= before.push(x) + rest);
                        },
                        None => {},
                    }
                }
            },
            None => {
                return None;
            },
        }
        off = start + n;
        left = left - 1;
    }
    assert(writes_view(out@) + Seq::<WriteView>::empty() =~= writes_view(out@));
    Some(out)
}

/// Decodes a record.
pub fn decode_wal_payload(data: &[u8]) -> (r: Option<WalPayload>)
    ensures
        match r {
            Some(p) => payload_of_bytes(data@) == Some(p@),
            None => payload_of_bytes(data@) is None,
        },
{
    reveal(payload_of_bytes);
    let len = data.len();
    if len < 8 {
        return None;
    }
    let first = get_u64(data, 0);
    if first == WAL_BATCH_MAGIC {
        if len < 12 {
            return None;
        }
        let count = get_u32(data, 8);
        return match decode_batch(data, count) {
            Some(writes) => Some(WalPayload::Batch { writes }),
            None => None,
        };
    }
    if first != WAL_TXN_MAGIC {
        return match decode_wal_record(data) {
            Some((key, value, seq)) => Some(WalPayload::Kv { key, value, seq }),
            None => None,
        };
    }
    if len < 17 {
        return None;
    }
    let kind = data[8];
    let txn_id = get_u64(data, 9);
    if kind == WAL_TYPE_TXN_BEGIN {
        return Some(WalPayload::TxnBegin { txn_id });
    }
    if kind == WAL_TYPE_TXN_WRITE {
        if len < 21 {
            return None;
        }
        let n = get_u32(data, 17) as usize;
        if len - 21 < 4 || len - 25 < n {
            return None;
        }
        let key = copy_range(data, 21, 21 + n);
        let m = get_u32(data, 21 + n) as usize;
        if len - 25 - n < m {
            return None;
        }
        let value = copy_range(data, 25 + n, 25 + n + m);
        return Some(WalPayload::TxnWrite { txn_id, key, value });
    }
    if kind == WAL_TYPE_TXN_COMMIT {
        if len < 25 {
            return None;
        }
        let commit_ts = get_u64(data, 17);
        return Some(WalPayload::TxnCommit { txn_id, commit_ts });
    }
    if kind == WAL_TYPE_TXN_ABORT {
        return Some(WalPayload::TxnAbort { txn_id });
    }
    None
}

/// Tells whether the lengths of the key and the value of a write fit the numbers that hold them.
pub open spec fn lengths_fit(w: WriteView) -> bool {
    &&& w.0.len() <= u32::MAX
    &&& w.1 matches Some(v) ==> v.len() <= u32::MAX
}

/// Tells whether the lengths of a write of a batch fit the numbers that hold them.
pub open spec fn write_fits(w: WriteView) -> bool {
    lengths_fit(w) && kv_bytes(w).len() <= u32::MAX
}

/// Tells whether the numbers of a record fit where they are held.
pub open spec fn payload_fits(p: PayloadView) -> bool {
    match p {
        PayloadView::Kv(w) => lengths_fit(w) && w.2 < WAL_BATCH_MAGIC,
        PayloadView::Batch(ws) => ws.len() <= u32::MAX && forall|i: int|
            0 <= i < ws.len() ==> write_fits(#[trigger] ws[i]),
        PayloadView::TxnWrite(_, k, v) => k.len() <= u32::MAX && v.len() <= u32::MAX,
        _ => true,
    }
}

proof fn lemma_kv_round_trip(w: WriteView)
    requires
        w.0.len() <= u32::MAX,
        w.1 matches Some(v) ==> v.len() <= u32::MAX,
    ensures
        kv_of_bytes(kv_bytes(w)) == Some(w),
        kv_bytes(w).len() >= 13,
        le64_at(kv_bytes(w), 0) == w.2,
{
    let d = kv_bytes(w);
    let n = w.0.len() as int;
    lemma_le_fixed(n as u32, w.2);
    assert(d.subrange(0, 8) =~= le64(w.2));
    assert(d.subrange(8, 12) =~= le32(n as u32));
    assert(d.subrange(12, 12 + n) =~= w.0);
    match w.1 {
        Some(v) => {
            let m = v.len() as int;
            lemma_le_fixed(m as u32, 0);
            assert(d[12 + n] == 1);
            assert(d.subrange(13 + n, 17 + n) =~= le32(m as u32));
            assert(d.subrange(17 + n, 17 + n + m) =~= v);
        },
        None => {
            assert(d[12 + n] == 0);
        },
    }
}

proof fn lemma_batch_prefix(ws: Seq<WriteView>, i: int)
    requires
        0 <= i <= ws.len(),
    ensures
        batch_bytes(ws.take(i)).len() <= batch_bytes(ws).len(),
        batch_bytes(ws).take(batch_bytes(ws.take(i)).len() as int) == batch_bytes(ws.take(i)),
    decreases ws.len(),
{
    let x = batch_bytes(ws.take(i));
    if i == ws.len() {
        assert(ws.take(i) =~= ws);
        assert(x.take(x.len() as int) =~= x);
    } else {
        assert(ws.drop_last().take(i) =~= ws.take(i));
        lemma_batch_prefix(ws.drop_last(), i);
        let y = batch_bytes(ws.drop_last());
        let z = batch_bytes(ws);
        assert(z.take(x.len() as int) =~= y.take(x.len() as int));
    }
}

#[verifier::rlimit(40)]
proof fn lemma_batch_item(pre: Seq<u8>, ws: Seq<WriteView>, i: int)
    requires
        0 <= i < ws.len(),
        write_fits(ws[i]),
    ensures
        ({
            let d = pre + batch_bytes(ws);
            let off = pre.len() + batch_bytes(ws.take(i)).len();
            let n = kv_bytes(ws[i]).len();
            &&& off + 4 + n <= d.len()
            &&& le32_at(d, off as int) == n
            &&& d.subrange((off + 4) as int, (off + 4 + n) as int) == kv_bytes(ws[i])
            &&& pre.len() + batch_bytes(ws.take(i + 1)).len() == off + 4 + n
        }),
{
    let all = batch_bytes(ws);
    let d = pre + all;
    let w = ws[i];
    let x = batch_bytes(ws.take(i));
    let next = ws.take(i + 1);
    let y = batch_bytes(next);
    assert(next.drop_last() =~= ws.take(i));
    lemma_batch_prefix(ws, i);
    lemma_batch_prefix(ws, i + 1);
    let n = kv_bytes(w).len() as u32;
    lemma_le_fixed(n, 0);
    assert(y == x + le32(n) + kv_bytes(w));
    let l = x.len() as int;
    let off = pre.len() + l;
    assert(all.take(y.len() as int) == y);
    assert(d.subrange(off, off + 4) =~= le32(n)) by {
        assert(d.subrange(off, off + 4) =~= all.take(y.len() as int).subrange(l, l + 4));
        assert(y.subrange(l, l + 4) =~= le32(n));
    }
    assert(d.subrange(off + 4, off + 4 + n) =~= kv_bytes(w)) by {
        assert(d.subrange(off + 4, off + 4 + n) =~= all.take(y.len() as int).subrange(
            l + 4,
            l + 4 + n,
        ));
        assert(y.subrange(l + 4, l + 4 + n) =~= kv_bytes(w));
    }
}

proof fn lemma_batch_step(d: Seq<u8>, off: nat, count: nat, n: nat, w: WriteView, rest: Seq<WriteView>)
    requires
        count > 0,
        off + 4 + n <= d.len(),
        le32_at(d, off as int) == n,
        kv_of_bytes(d.subrange((off + 4) as int, (off + 4 + n) as int)) == Some(w),
        batch_of_bytes(d, off + 4 + n, (count - 1) as nat) == Some(rest),
    ensures
        batch_of_bytes(d, off, count) == Some(seq![w] + rest),
{
}

#[verifier::rlimit(40)]
proof fn lemma_batch_round_trip(pre: Seq<u8>, ws: Seq<WriteView>, i: int)
    requires
        0 <= i <= ws.len(),
        forall|j: int| 0 <= j < ws.len() ==> write_fits(#[trigger] ws[j]),
    ensures
        batch_of_bytes(
            pre + batch_bytes(ws),
            pre.len() + batch_bytes(ws.take(i)).len(),
            (ws.len() - i) as nat,
        ) == Some(ws.skip(i)),
    decreases ws.len() - i,
{
    if i == ws.len() {
        assert(ws.skip(i) =~= Seq::<WriteView>::empty());
    } else {
        let w = ws[i];
        assert(write_fits(w));
        lemma_kv_round_trip(w);
        lemma_batch_item(pre, ws, i);
        lemma_batch_round_trip(pre, ws, i + 1);
        let rest = ws.skip(i + 1);
        assert(ws.skip(i) =~= seq![w] + rest);
        lemma_batch_step(
            pre + batch_bytes(ws),
            pre.len() + batch_bytes(ws.take(i)).len(),
            (ws.len() - i) as nat,
            kv_bytes(w).len(),
            w,
            rest,
        );
    }
}

/// Decoding the bytes of a record gives what it says.
#[verifier::rlimit(40)]
pub proof fn law_payload_round_trip(p: PayloadView)
    requires
        payload_fits(p),
    ensures
        payload_of_bytes(payload_bytes(p)) == Some(p),
{
    reveal(payload_of_bytes);
    let d = payload_bytes(p);
    match p {
        PayloadView::Kv(w) => {
            lemma_kv_round_trip(w);
        },
        PayloadView::Batch(ws) => {
            let n = ws.len() as u32;
            lemma_le_fixed(n, WAL_BATCH_MAGIC);
            let pre = le64(WAL_BATCH_MAGIC) + le32(n);
            assert(d.subrange(0, 8) =~= le64(WAL_BATCH_MAGIC));
            assert(d.subrange(8, 12) =~= le32(n));
            lemma_batch_round_trip(pre, ws, 0);
            assert(ws.take(0) =~= Seq::<WriteView>::empty());
            assert(ws.skip(0) =~= ws);
        },
        PayloadView::TxnBegin(id) => {
            lemma_le_fixed(0, WAL_TXN_MAGIC);
            lemma_le_fixed(0, id);
            assert(d.subrange(0, 8) =~= le64(WAL_TXN_MAGIC));
            assert(d.subrange(9, 17) =~= le64(id));
            assert(d[8] == 1);
        },
        PayloadView::TxnWrite(id, k, v) => {
            let n = k.len() as int;
            let m = v.len() as int;
            lemma_le_fixed(n as u32, WAL_TXN_MAGIC);
            lemma_le_fixed(m as u32, id);
            assert(d.subrange(0, 8) =~= le64(WAL_TXN_MAGIC));
            assert(d.subrange(9, 17) =~= le64(id));
            assert(d[8] == 2);
            assert(d.subrange(17, 21) =~= le32(n as u32));
            assert(d.subrange(21, 21 + n) =~= k);
            assert(d.subrange(21 + n, 25 + n) =~= le32(m as u32));
            assert(d.subrange(25 + n, 25 + n + m) =~= v);
        },
        PayloadView::TxnCommit(id, ts) => {
            lemma_le_fixed(0, WAL_TXN_MAGIC);
            lemma_le_fixed(0, id);
            lemma_le_fixed(0, ts);
            assert(d.subrange(0, 8) =~= le64(WAL_TXN_MAGIC));
            assert(d.subrange(9, 17) =~= le64(id));
            assert(d.subrange(17, 25) =~= le64(ts));
            assert(d[8] == 3);
        },
        PayloadView::TxnAbort(id) => {
            lemma_le_fixed(0, WAL_TXN_MAGIC);
            lemma_le_fixed(0, id);
            assert(d.subrange(0, 8) =~= le64(WAL_TXN_MAGIC));
            assert(d.subrange(9, 17) =~= le64(id));
            assert(d[8] == 4);
        },
    }
}

/// A record that is cut off is not taken for a shorter one: no front of the bytes of a write or of
/// a record of a transaction is a record.
pub proof fn law_cut_record_refused(p: PayloadView, n: int)
    requires
        payload_fits(p),
        !(p is Batch),
        0 <= n < payload_bytes(p).len(),
    ensures
        payload_of_bytes(payload_bytes(p).take(n)) is None,
{
    reveal(payload_of_bytes);
    let b = payload_bytes(p);
    let d = b.take(n);
    match p {
        PayloadView::Kv(w) => {
            assert(lengths_fit(w));
            lemma_le_fixed(w.0.len() as u32, w.2);
            lemma_le_fixed((match w.1 {
                Some(v) => v.len(),
                None => 0,
            }) as u32, w.2);
            let k = w.0.len() as int;
            assert(b.subrange(0, 8) =~= le64(w.2));
            assert(b.subrange(8, 12) =~= le32(k as u32));
            match w.1 {
                Some(v) => {
                    assert(b.len() == 17 + k + v.len());
                    assert(b[12 + k] == 1);
                },
                None => {
                    assert(b.len() == 13 + k);
                    assert(b[12 + k] == 0);
                },
            }
            if n >= 8 {
                assert(d.subrange(0, 8) =~= b.subrange(0, 8));
                assert(le64_at(d, 0) == w.2);
            }
            if n >= 13 {
                assert(d.subrange(8, 12) =~= b.subrange(8, 12));
                assert(le32_at(d, 8) == k);
                if n >= 13 + k {
                    assert(d[12 + k] == b[12 + k]);
                    assert(w.1 is Some);
                    if let Some(v) = w.1 {
                        assert(b.subrange(13 + k, 17 + k) =~= le32(v.len() as u32));
                        if n >= 17 + k {
                            assert(d.subrange(13 + k, 17 + k) =~= b.subrange(13 + k, 17 + k));
                            assert(le32_at(d, 13 + k) == v.len());
                        }
                    }
                }
            }
        },
        _ => {
            let id = match p {
                PayloadView::TxnBegin(id) => id,
                PayloadView::TxnWrite(id, _, _) => id,
                PayloadView::TxnCommit(id, _) => id,
                _ => p->TxnAbort_0,
            };
            lemma_le_fixed(0, WAL_TXN_MAGIC);
            lemma_le_fixed(0, id);
            assert(b.subrange(0, 8) =~= le64(WAL_TXN_MAGIC));
            if n >= 8 {
                assert(d.subrange(0, 8) =~= b.subrange(0, 8));
            }
            if n >= 17 {
                assert(d[8] == b[8]);
            }
            match p {
                PayloadView::TxnWrite(_, k, v) => {
                    lemma_le_fixed(k.len() as u32, 0);
                    lemma_le_fixed(v.len() as u32, 0);
                    let m = k.len() as int;
                    assert(b.subrange(17, 21) =~= le32(k.len() as u32));
                    assert(b.subrange(21 + m, 25 + m) =~= le32(v.len() as u32));
                    if n >= 21 {
                        assert(d.subrange(17, 21) =~= b.subrange(17, 21));
                        if n >= 25 + m {
                            assert(d.subrange(21 + m, 25 + m) =~= b.subrange(21 + m, 25 + m));
                        }
                    }
                },
                PayloadView::TxnCommit(_, ts) => {
                    lemma_le_fixed(0, ts);
                },
                _ => {},
            }
        },
    }
}

/// The writes of a batch, each with the sequence number of the batch, in order.
pub proof fn law_stamped(ws: Seq<(Vec<u8>, Option<Vec<u8>>)>, seq: u64)
    ensures
        stamped(ws, seq).len() == ws.len(),
        forall|i: int|
            0 <= i < ws.len() ==> {
                let w = #[trigger] stamped(ws, seq)[i];
                &&& w.0 == ws[i].0@
                &&& w.1 is Some <==> ws[i].1 is Some
                &&& ws[i].1 is Some ==> w.1 == Some(ws[i].1->0@)
                &&& w.2 == seq
            },
{
}

} // verus!
