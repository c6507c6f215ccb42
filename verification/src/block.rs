//! Blocks of a table file.
//!
//! A block holds entries in order. Each entry leaves out what its key has in common with the key
//! before it, but for every entry at a restart point, which is whole:
//!
//! ```text
//! | shared_len (varint) | unshared_len (varint) | value_len (varint) | unshared key | value |
//! ```
//!
//! After the entries come the places of the restart points (four bytes each), their number (four
//! bytes) and a CRC-32C of all before it (four bytes).

use crate::checksum::{checksum, crc32c_of};
use crate::codec::{append_bytes, common_prefix, copy_bytes, copy_range, get_u32, get_varint,
    lemma_common_prefix, lemma_le_fixed, lemma_varint_round_trip, le32, le32_at, put_u32,
    put_varint, shared_prefix_len, varint, varint_decode};
use crate::error::{corruption, Error, ErrorView};
use crate::text::{decimal, push_decimal, text_of};
use vstd::prelude::*;
use vstd::slice::slice_subrange;

verus! {

/// A key and a value.
pub type RawEntry = (Seq<u8>, Seq<u8>);

/// The bytes of an entry that shares the first `shared` bytes of its key with the one before.
pub open spec fn entry_bytes(shared: nat, e: RawEntry) -> Seq<u8> {
    varint(shared) + varint((e.0.len() - shared) as nat) + varint(e.1.len()) + e.0.skip(
        shared as int,
    ) + e.1
}

/// What an entry's key has in common with the key before it, as far as it is left out.
pub open spec fn shared_at(es: Seq<RawEntry>, interval: nat, i: int) -> nat {
    if i % interval as int == 0 || i == 0 {
        0
    } else {
        common_prefix(es[i - 1].0, es[i].0)
    }
}

/// The bytes of the first `n` entries.
pub open spec fn body(es: Seq<RawEntry>, interval: nat, n: nat) -> Seq<u8>
    decreases n,
{
    if n == 0 {
        Seq::<u8>::empty()
    } else {
        body(es, interval, (n - 1) as nat) + entry_bytes(
            shared_at(es, interval, n - 1),
            es[n - 1],
        )
    }
}

/// The places of the restart points among the first `n` entries.
pub open spec fn restarts(es: Seq<RawEntry>, interval: nat, n: nat) -> Seq<u32>
    decreases n,
{
    if n <= 1 {
        seq![0u32]
    } else if (n - 1) % interval as int == 0 {
        restarts(es, interval, (n - 1) as nat).push(
            body(es, interval, (n - 1) as nat).len() as u32,
        )
    } else {
        restarts(es, interval, (n - 1) as nat)
    }
}

/// Numbers, four bytes each.
pub open spec fn le32_list(rs: Seq<u32>) -> Seq<u8>
    decreases rs.len(),
{
    if rs.len() == 0 {
        Seq::<u8>::empty()
    } else {
        le32_list(rs.drop_last()) + le32(rs.last())
    }
}

/// A block without its checksum.
pub open spec fn block_unsealed(es: Seq<RawEntry>, interval: nat) -> Seq<u8> {
    let rs = restarts(es, interval, es.len());
    body(es, interval, es.len()) + le32_list(rs) + le32(rs.len() as u32)
}

/// The bytes of a block.
pub open spec fn block_bytes(es: Seq<RawEntry>, interval: nat) -> Seq<u8> {
    let b = block_unsealed(es, interval);
    b + le32(crc32c_of(0, b))
}

/// The place in a block where the entries end.
pub open spec fn block_limit(data: Seq<u8>) -> Result<nat, ErrorView> {
    if data.len() < 8 {
        Err(ErrorView::Corruption("block too small"@))
    } else {
        let n = data.len() as int;
        let stored = le32_at(data, n - 4);
        let computed = crc32c_of(0, data.take(n - 4));
        let count = le32_at(data, n - 8);
        if stored != computed {
            Err(
                ErrorView::Corruption(
                    "block CRC mismatch: stored="@ + decimal(stored) + ", computed="@ + decimal(
                        computed as nat,
                    ),
                ),
            )
        } else if 4 * count > n - 8 {
            Err(ErrorView::Corruption("block has too many restart points"@))
        } else {
            Ok((n - 8 - 4 * count) as nat)
        }
    }
}

/// The entry at a place of a block, `cur` being the key before it, and the place after it.
pub open spec fn entry_at(data: Seq<u8>, limit: nat, off: nat, cur: Seq<u8>) -> Option<
    (Seq<u8>, Seq<u8>, nat),
> {
    match varint_decode(data.skip(off as int)) {
        None => None,
        Some((shared, n1)) => match varint_decode(data.skip((off + n1) as int)) {
            None => None,
            Some((unshared, n2)) => match varint_decode(data.skip((off + n1 + n2) as int)) {
                None => None,
                Some((value_len, n3)) => {
                    let start = off + n1 + n2 + n3;
                    let mid = start + unshared;
                    let end = mid + value_len;
                    if end > limit {
                        None
                    } else {
                        let keep = if shared <= cur.len() {
                            shared
                        } else {
                            cur.len()
                        };
                        Some(
                            (
                                cur.take(keep as int) + data.subrange(start as int, mid as int),
                                data.subrange(mid as int, end as int),
                                end,
                            ),
                        )
                    }
                },
            },
        },
    }
}

/// The entries of a block from a place on.
pub open spec fn block_entries(data: Seq<u8>, limit: nat, off: nat, cur: Seq<u8>) -> Seq<RawEntry>
    decreases limit - off,
{
    if off >= limit {
        Seq::empty()
    } else {
        match entry_at(data, limit, off, cur) {
            None => Seq::empty(),
            Some((k, v, next)) => if next <= off {
                Seq::empty()
            } else {
                seq![(k, v)] + block_entries(data, limit, next, k)
            },
        }
    }
}

/// What a block holds.
pub open spec fn block_content(data: Seq<u8>) -> Result<Seq<RawEntry>, ErrorView> {
    match block_limit(data) {
        Ok(limit) => Ok(block_entries(data, limit, 0, Seq::empty())),
        Err(e) => Err(e),
    }
}

/// Tells whether the lengths of an entry fit a 64-bit number.
pub open spec fn small_entry(e: RawEntry) -> bool {
    e.0.len() <= u64::MAX && e.1.len() <= u64::MAX
}

/// Tells whether the lengths of all entries fit a 64-bit number.
pub open spec fn small_entries(es: Seq<RawEntry>) -> bool {
    forall|i: int| 0 <= i < es.len() ==> small_entry(#[trigger] es[i])
}

proof fn lemma_le32_list_len(rs: Seq<u32>)
    ensures
        le32_list(rs).len() == 4 * rs.len(),
    decreases rs.len(),
{
    if rs.len() > 0 {
        lemma_le32_list_len(rs.drop_last());
        lemma_le_fixed(rs.last(), 0);
    }
}

proof fn lemma_restarts_len(es: Seq<RawEntry>, interval: nat, n: nat)
    ensures
        1 <= restarts(es, interval, n).len() <= (if n == 0 {
            1
        } else {
            n
        }),
    decreases n,
{
    if n > 1 {
        lemma_restarts_len(es, interval, (n - 1) as nat);
    }
}

proof fn lemma_body_grows(es: Seq<RawEntry>, interval: nat, i: nat, n: nat)
    requires
        i <= n,
    ensures
        body(es, interval, i).len() <= body(es, interval, n).len(),
        body(es, interval, i) == body(es, interval, n).take(
            body(es, interval, i).len() as int,
        ),
        i < n ==> body(es, interval, i).len() < body(es, interval, n).len(),
    decreases n - i,
{
    if i < n {
        lemma_body_grows(es, interval, i, (n - 1) as nat);
        let b = body(es, interval, (n - 1) as nat);
        let x = entry_bytes(shared_at(es, interval, n - 1), es[n - 1]);
        let k = body(es, interval, i).len() as int;
        assert(varint(shared_at(es, interval, n - 1)).len() >= 1) by {
            reveal_with_fuel(varint, 2);
        }
        assert(x.len() >= 1);
        assert((b + x).take(k) =~= b.take(k));
    } else {
        assert(body(es, interval, i).take(body(es, interval, i).len() as int) =~= body(
            es,
            interval,
            i,
        ));
    }
}

/// The bytes of the first entries do not depend on the later ones.
pub proof fn lemma_body_prefix(es: Seq<RawEntry>, fs: Seq<RawEntry>, interval: nat, n: nat)
    requires
        n <= es.len(),
        n <= fs.len(),
        forall|i: int| 0 <= i < n ==> es[i] == fs[i],
    ensures
        body(es, interval, n) == body(fs, interval, n),
        restarts(es, interval, n) == restarts(fs, interval, n),
    decreases n,
{
    if n > 0 {
        lemma_body_prefix(es, fs, interval, (n - 1) as nat);
        assert(es[n - 1] == fs[n - 1]);
        if n > 1 {
            assert(es[n - 2] == fs[n - 2]);
        }
    }
}

/// Reading an entry back, whatever follows.
#[verifier::rlimit(40)]
proof fn lemma_entry_at(pre: Seq<u8>, cur: Seq<u8>, e: RawEntry, shared: nat, post: Seq<u8>, limit: nat)
    requires
        shared <= cur.len(),
        shared <= e.0.len(),
        cur.take(shared as int) == e.0.take(shared as int),
        small_entry(e),
        limit >= pre.len() + entry_bytes(shared, e).len(),
    ensures
        entry_at(pre + entry_bytes(shared, e) + post, limit, pre.len(), cur) == Some(
            (e.0, e.1, pre.len() + entry_bytes(shared, e).len()),
        ),
{
    let unshared = (e.0.len() - shared) as nat;
    let vlen = e.1.len();
    let off = pre.len();
    let a = varint(shared);
    let b = varint(unshared);
    let c = varint(vlen);
    let k = e.0.skip(shared as int);
    let v = e.1;
    let data = pre + (a + b + c + k + v) + post;
    lemma_pieces(pre, a, b, c, k, v, post);
    lemma_varint_round_trip(shared, b + (c + (k + (v + post))));
    lemma_varint_round_trip(unshared, c + (k + (v + post)));
    lemma_varint_round_trip(vlen, k + (v + post));
    assert(cur.take(shared as int) + k =~= e.0) by {
        assert(e.0.take(shared as int) + k =~= e.0);
    }
}

#[verifier::rlimit(40)]
proof fn lemma_pieces(
    pre: Seq<u8>,
    a: Seq<u8>,
    b: Seq<u8>,
    c: Seq<u8>,
    k: Seq<u8>,
    v: Seq<u8>,
    post: Seq<u8>,
)
    ensures
        ({
            let data = pre + (a + b + c + k + v) + post;
            let p1 = (pre.len() + a.len()) as int;
            let p2 = p1 + b.len();
            let p3 = p2 + c.len();
            let p4 = p3 + k.len();
            let p5 = p4 + v.len();
            &&& data.skip(pre.len() as int) == a + (b + (c + (k + (v + post))))
            &&& data.skip(p1) == b + (c + (k + (v + post)))
            &&& data.skip(p2) == c + (k + (v + post))
            &&& data.subrange(p3, p4) == k
            &&& data.subrange(p4, p5) == v
        }),
{
    let data = pre + (a + b + c + k + v) + post;
    let t5 = v + post;
    let t4 = k + t5;
    let t3 = c + t4;
    let t2 = b + t3;
    let t1 = a + t2;
    assert((a + b + c + k + v) + post =~= t1) by {
        assert((a + b + c + k + v) + post =~= (a + b + c + k) + t5);
        assert((a + b + c + k) + t5 =~= (a + b + c) + t4);
        assert((a + b + c) + t4 =~= (a + b) + t3);
        assert((a + b) + t3 =~= a + t2);
    }
    assert(data =~= pre + t1) by {
        assert(data =~= pre + ((a + b + c + k + v) + post));
    }
    let q1 = pre + a;
    let q2 = q1 + b;
    let q3 = q2 + c;
    let q4 = q3 + k;
    assert(data =~= q1 + t2);
    assert(data =~= q2 + t3);
    assert(data =~= q3 + t4);
    assert(data =~= q4 + t5);
    assert((pre + t1).skip(pre.len() as int) =~= t1);
    assert((q1 + t2).skip(q1.len() as int) =~= t2);
    assert((q2 + t3).skip(q2.len() as int) =~= t3);
    assert((q3 + t4).subrange(q3.len() as int, (q3.len() + k.len()) as int) =~= k);
    assert((q4 + t5).subrange(q4.len() as int, (q4.len() + v.len()) as int) =~= v);
}

/// The entries of a block are those it was made of.
#[verifier::rlimit(40)]
proof fn lemma_entries_read_back(es: Seq<RawEntry>, interval: nat, i: nat, tail: Seq<u8>)
    requires
        interval > 0,
        i <= es.len(),
        small_entries(es),
    ensures
        block_entries(
            body(es, interval, es.len()) + tail,
            body(es, interval, es.len()).len(),
            body(es, interval, i).len(),
            if i == 0 {
                Seq::empty()
            } else {
                es[i - 1].0
            },
        ) == es.skip(i as int),
    decreases es.len() - i,
{
    let n = es.len();
    let all = body(es, interval, n);
    let data = all + tail;
    let limit = all.len();
    let off = body(es, interval, i).len();
    let cur = if i == 0 {
        Seq::empty()
    } else {
        es[i - 1].0
    };
    if i < n {
        lemma_body_grows(es, interval, i, n);
        lemma_body_grows(es, interval, i + 1, n);
        lemma_body_grows(es, interval, i, i + 1);
        let shared = shared_at(es, interval, i as int);
        let e = es[i as int];
        assert(small_entry(e));
        if i > 0 {
            lemma_common_prefix(es[i - 1].0, e.0);
        }
        assert(cur.take(shared as int) == e.0.take(shared as int)) by {
            if shared == 0 {
                assert(cur.take(0) =~= e.0.take(0));
            }
        }
        let pre = body(es, interval, i);
        let x = entry_bytes(shared, e);
        assert(body(es, interval, i + 1) == pre + x);
        let post = data.skip((off + x.len()) as int);
        assert(data =~= pre + x + post) by {
            assert(all.take((off + x.len()) as int) == pre + x);
            assert(data.take((off + x.len()) as int) =~= all.take((off + x.len()) as int));
            assert(data =~= data.take((off + x.len()) as int) + post);
        }
        lemma_entry_at(pre, cur, e, shared, post, limit);
        lemma_entries_read_back(es, interval, i + 1, tail);
        assert(es.skip(i as int) =~= seq![e] + es.skip((i + 1) as int));
    } else {
        assert(es.skip(i as int) =~= Seq::<RawEntry>::empty());
    }
}

/// Reading a block gives the entries that it was made of.
pub proof fn law_block_round_trip(es: Seq<RawEntry>, interval: nat)
    requires
        interval > 0,
        small_entries(es),
        es.len() <= u32::MAX,
    ensures
        block_content(block_bytes(es, interval)) == Ok::<Seq<RawEntry>, ErrorView>(es),
{
    let rs = restarts(es, interval, es.len());
    let b = block_unsealed(es, interval);
    let crc = crc32c_of(0, b);
    let data = block_bytes(es, interval);
    let bd = body(es, interval, es.len());
    lemma_restarts_len(es, interval, es.len());
    lemma_le32_list_len(rs);
    lemma_le_fixed(rs.len() as u32, 0);
    lemma_le_fixed(crc, 0);
    let n = data.len() as int;
    assert(data.subrange(n - 4, n) =~= le32(crc));
    assert(data.take(n - 4) =~= b);
    assert(data.subrange(n - 8, n - 4) =~= le32(rs.len() as u32));
    assert(block_limit(data) == Ok::<nat, ErrorView>(bd.len()));
    let tail = le32_list(rs) + le32(rs.len() as u32) + le32(crc);
    assert(data =~= bd + tail);
    lemma_entries_read_back(es, interval, 0, tail);
    assert(es.skip(0) =~= es);
    assert(body(es, interval, 0).len() == 0);
}

/// Makes a block.
pub struct BlockBuilder {
    buffer: Vec<u8>,
    restarts: Vec<u32>,
    interval: usize,
    counter: usize,
    last_key: Vec<u8>,
    first_key: Option<Vec<u8>>,
    entries: Ghost<Seq<RawEntry>>,
}

impl View for BlockBuilder {
    type V = Seq<RawEntry>;

    /// The entries so far.
    closed spec fn view(&self) -> Seq<RawEntry> {
        self.entries@
    }
}

impl BlockBuilder {
    /// Every how many entries one is whole.
    pub closed spec fn spec_interval(&self) -> nat {
        self.interval as nat
    }

    /// Tells whether the builder holds the bytes of its entries.
    pub closed spec fn wf(&self) -> bool {
        let n = self.entries@.len();
        &&& self.interval > 0
        &&& self.buffer@ == body(self.entries@, self.interval as nat, n)
        &&& self.restarts@ == restarts(self.entries@, self.interval as nat, n)
        &&& self.counter <= self.interval
        &&& n == 0 ==> self.counter == 0 && self.last_key@.len() == 0 && self.first_key is None
        &&& n > 0 ==> {
            &&& self.counter == (n - 1) % self.interval as int + 1
            &&& self.last_key@ == self.entries@[n - 1].0
            &&& self.first_key matches Some(k) && k@ == self.entries@[0].0
        }
    }

    /// An empty block.
    pub fn new(restart_interval: usize) -> (r: Self)
        requires
            restart_interval > 0,
        ensures
            r.wf(),
            r@ == Seq::<RawEntry>::empty(),
            r.spec_interval() == restart_interval,
    {
        let mut restarts: Vec<u32> = Vec::new();
        restarts.push(0);
        assert(restarts@ =~= seq![0u32]);
        let r = BlockBuilder {
            buffer: Vec::new(),
            restarts,
            interval: restart_interval,
            counter: 0,
            last_key: Vec::new(),
            first_key: None,
            entries: Ghost(Seq::empty()),
        };
        assert(r.buffer@ =~= body(r.entries@, r.interval as nat, 0));
        r
    }

    /// Adds an entry.
    #[verifier::rlimit(40)]
    pub fn add(&mut self, key: &[u8], value: &[u8])
        requires
            old(self).wf(),
        ensures
            final(self).wf(),
            final(self)@ == old(self)@.push((key@, value@)),
            final(self).spec_interval() == old(self).spec_interval(),
    {
        let ghost es = self.entries@;
        let ghost n = es.len();
        let ghost e: RawEntry = (key@, value@);
        let ghost es2 = es.push(e);
        let ghost iv = self.interval as nat;
        proof {
            lemma_body_prefix(es, es2, iv, n);
        }
        if self.first_key.is_none() {
            self.first_key = Some(copy_bytes(key));
        }
        let shared: usize = if self.counter < self.interval {
            let s = shared_prefix_len(&self.last_key, key);
            proof {
                if n > 0 {
                    lemma_counter(n as int, iv as int);
                } else {
                    assert(s == 0);
                }
            }
            s
        } else {
            proof {
                lemma_counter(n as int, iv as int);
            }
            self.restarts.push(self.buffer.len() as u32);
            self.counter = 0;
            0
        };
        proof {
            if n > 0 {
                assert(es2[n - 1] == es[n - 1]);
            }
            assert(shared == shared_at(es2, iv, n as int));
            lemma_common_prefix(self.last_key@, key@);
        }
        let unshared = key.len() - shared;
        let ghost buf0 = self.buffer@;
        put_varint(&mut self.buffer, shared as u64);
        put_varint(&mut self.buffer, unshared as u64);
        put_varint(&mut self.buffer, value.len() as u64);
        append_bytes(&mut self.buffer, slice_subrange(key, shared, key.len()));
        append_bytes(&mut self.buffer, value);
        proof {
            assert(key@.subrange(shared as int, key@.len() as int) =~= key@.skip(shared as int));
            assert(self.buffer@ =~= buf0 + entry_bytes(shared as nat, e));
            assert(es2[n as int] == e);
            assert(body(es2, iv, n + 1) == buf0 + entry_bytes(shared as nat, e));
        }
        self.last_key = copy_bytes(key);
        self.counter = self.counter + 1;
        self.entries = Ghost(es2);
        proof {
            lemma_counter(n as int + 1, iv as int);
        }
    }

    /// The bytes of the block.
    pub fn finish(self) -> (r: Vec<u8>)
        requires
            self.wf(),
        ensures
            r@ == block_bytes(self@, self.spec_interval()),
    {
        let mut buffer = self.buffer;
        let ghost start = buffer@;
        let ghost rs = self.restarts@;
        let mut i: usize = 0;
        proof {
            assert(rs.take(0) =~= Seq::<u32>::empty());
            assert(start + le32_list(rs.take(0)) =~= start);
        }
        while i < self.restarts.len()
            invariant
                i <= rs.len(),
                rs == self.restarts@,
                buffer@ == start + le32_list(rs.take(i as int)),
            decreases rs.len() - i,
        {
            put_u32(&mut buffer, self.restarts[i]);
            proof {
                let t = rs.take(i + 1);
                assert(t.drop_last() =~= rs.take(i as int));
                assert(buffer@ =~= start + le32_list(t));
            }
            i += 1;
        }
        assert(rs.take(i as int) =~= rs);
        put_u32(&mut buffer, self.restarts.len() as u32);
        assert(buffer@ =~= block_unsealed(self@, self.spec_interval()));
        let crc = checksum(&buffer);
        put_u32(&mut buffer, crc);
        buffer
    }

    /// The size that the block would have if it were finished now.
    pub fn estimated_size(&self) -> (r: u128)
        requires
            self.wf(),
        ensures
            r == estimated_size(self@, self.spec_interval()),
            r <= 5 * u64::MAX + 8,
    {
        self.buffer.len() as u128 + self.restarts.len() as u128 * 4 + 8
    }

    /// Tells whether there is no entry.
    pub fn is_empty(&self) -> (r: bool)
        requires
            self.wf(),
        ensures
            r == (self@.len() == 0),
    {
        self.first_key.is_none()
    }

    /// The key of the first entry.
    pub fn first_key(&self) -> (r: Option<&Vec<u8>>)
        requires
            self.wf(),
        ensures
            match r {
                Some(k) => self@.len() > 0 && k@ == self@[0].0,
                None => self@.len() == 0,
            },
    {
        self.first_key.as_ref()
    }
}

/// The size that a block would have if it were finished with these entries.
pub open spec fn estimated_size(es: Seq<RawEntry>, interval: nat) -> nat {
    body(es, interval, es.len()).len() + restarts(es, interval, es.len()).len() * 4 + 8
}

proof fn lemma_counter(n: int, iv: int)
    requires
        n >= 1,
        iv >= 1,
    ensures
        (n - 1) % iv + 1 == iv <==> n % iv == 0,
        0 <= (n - 1) % iv < iv,
        n % iv == 0 ==> n % iv + 1 == 1,
        n % iv != 0 ==> n % iv == (n - 1) % iv + 1,
{
    vstd::arithmetic::div_mod::lemma_fundamental_div_mod(n, iv);
    vstd::arithmetic::div_mod::lemma_fundamental_div_mod(n - 1, iv);
    vstd::arithmetic::div_mod::lemma_mod_bound(n, iv);
    vstd::arithmetic::div_mod::lemma_mod_bound(n - 1, iv);
    let q = (n - 1) / iv;
    let m = (n - 1) % iv;
    if m + 1 == iv {
        assert(n == iv * (q + 1) + 0) by (nonlinear_arith)
            requires
                n - 1 == iv * q + m,
                m + 1 == iv,
        ;
        vstd::arithmetic::div_mod::lemma_fundamental_div_mod_converse(n, iv, q + 1, 0);
    } else {
        assert(n == iv * q + (m + 1)) by (nonlinear_arith)
            requires
                n - 1 == iv * q + m,
        ;
        vstd::arithmetic::div_mod::lemma_fundamental_div_mod_converse(n, iv, q, m + 1);
    }
}

/// A block that was read.
pub struct Block<'a> {
    data: &'a [u8],
    limit: usize,
}

impl<'a> Block<'a> {
    /// The bytes of the block.
    pub closed spec fn bytes(&self) -> Seq<u8> {
        self.data@
    }

    /// Tells whether the bytes are those of a block.
    pub closed spec fn wf(&self) -> bool {
        &&& block_limit(self.data@) == Ok::<nat, ErrorView>(self.limit as nat)
        &&& self.limit <= self.data@.len()
    }

    /// Takes the bytes of a block, if its checksum holds.
    pub fn new(data: &'a [u8]) -> (r: Result<Block<'a>, Error>)
        ensures
            match r {
                Ok(b) => b.wf() && b.bytes() == data@,
                Err(e) => block_limit(data@) == Err::<nat, ErrorView>(e@),
            },
    {
        let n = data.len();
        if n < 8 {
            return Err(corruption("block too small"));
        }
        let stored = get_u32(data, n - 4);
        let sealed = slice_subrange(data, 0, n - 4);
        assert(sealed@ =~= data@.take(n - 4));
        let computed = checksum(sealed);
        if stored != computed {
            let mut msg = text_of("block CRC mismatch: stored=");
            push_decimal(&mut msg, stored as u64);
            msg.push_str(", computed=");
            push_decimal(&mut msg, computed as u64);
            return Err(Error::Corruption(msg));
        }
        let count = get_u32(data, n - 8);
        if count as usize > (n - 8) / 4 {
            return Err(corruption("block has too many restart points"));
        }
        Ok(Block { data, limit: n - 8 - 4 * count as usize })
    }

    /// The entries of the block.
    pub fn iter(&self) -> (r: Vec<(Vec<u8>, Vec<u8>)>)
        requires
            self.wf(),
        ensures
            block_content(self.bytes()) == Ok::<Seq<RawEntry>, ErrorView>(raw_view(r@)),
    {
        let mut r: Vec<(Vec<u8>, Vec<u8>)> = Vec::new();
        let mut off: usize = 0;
        let mut cur: Vec<u8> = Vec::new();
        let ghost all = block_entries(self.data@, self.limit as nat, 0, Seq::empty());
        proof {
            assert(cur@ =~= Seq::<u8>::empty());
            assert(raw_view(r@) + all =~= all);
        }
        while off < self.limit
            invariant_except_break
                all == raw_view(r@) + block_entries(
                    self.data@,
                    self.limit as nat,
                    off as nat,
                    cur@,
                ),
            invariant
                self.wf(),
                all == block_entries(self.data@, self.limit as nat, 0, Seq::empty()),
            ensures
                all == raw_view(r@),
            decreases self.limit - off,
        {
            match next_entry(self.data, self.limit, off, &cur) {
                None => {
                    assert(raw_view(r@) + Seq::<RawEntry>::empty() =~= raw_view(r@));
                    break ;
                },
                Some((key, value, next)) => {
                    proof {
                        lemma_entry_advances(self.data@, self.limit as nat, off as nat, cur@);
                    }
                    let ghost before = raw_view(r@);
                    let ghost rest = block_entries(
                        self.data@,
                        self.limit as nat,
                        next as nat,
                        key@,
                    );
                    cur = copy_bytes(&key);
                    let ghost e: RawEntry = (key@, value@);
                    r.push((key, value));
                    proof {
                        assert(raw_view(r@) =~= before.push(e));
                        assert(before + (seq![e] + rest) =~= before.push(e) + rest);
                    }
                    off = next;
                },
            }
        }
        proof {
            assert(raw_view(r@) + Seq::<RawEntry>::empty() =~= raw_view(r@));
        }
        r
    }
}

/// The views of keys and values.
pub open spec fn raw_view(s: Seq<(Vec<u8>, Vec<u8>)>) -> Seq<RawEntry> {
    s.map_values(|e: (Vec<u8>, Vec<u8>)| (e.0@, e.1@))
}

proof fn lemma_entry_advances(data: Seq<u8>, limit: nat, off: nat, cur: Seq<u8>)
    ensures
        entry_at(data, limit, off, cur) matches Some((k, v, next)) ==> next > off,
{
}

fn next_entry(data: &[u8], limit: usize, off: usize, cur: &[u8]) -> (r: Option<
    (Vec<u8>, Vec<u8>, usize),
>)
    requires
        off <= limit <= data@.len(),
    ensures
        match r {
            Some((k, v, n)) => entry_at(data@, limit as nat, off as nat, cur@) == Some(
                (k@, v@, n as nat),
            ) && n <= limit,
            None => entry_at(data@, limit as nat, off as nat, cur@) is None,
        },
{
    let len = data.len();
    let rest = slice_subrange(data, off, len);
    assert(rest@ =~= data@.skip(off as int));
    let (shared, n1) = match get_varint(rest) {
        Some(x) => x,
        None => {
            return None;
        },
    };
    proof {
        crate::codec::lemma_varint_end_bound(rest@);
    }
    let rest = slice_subrange(data, off + n1, len);
    assert(rest@ =~= data@.skip((off + n1) as int));
    let (unshared, n2) = match get_varint(rest) {
        Some(x) => x,
        None => {
            return None;
        },
    };
    proof {
        crate::codec::lemma_varint_end_bound(rest@);
    }
    let rest = slice_subrange(data, off + n1 + n2, len);
    assert(rest@ =~= data@.skip((off + n1 + n2) as int));
    let (value_len, n3) = match get_varint(rest) {
        Some(x) => x,
        None => {
            return None;
        },
    };
    proof {
        crate::codec::lemma_varint_end_bound(rest@);
    }
    let start = off + n1 + n2 + n3;
    if start > limit || unshared > (limit - start) as u64 {
        return None;
    }
    let mid = start + unshared as usize;
    if value_len > (limit - mid) as u64 {
        return None;
    }
    let end = mid + value_len as usize;
    let keep: usize = if shared <= cur.len() as u64 {
        shared as usize
    } else {
        cur.len()
    };
    let mut key = copy_range(cur, 0, keep);
    assert(key@ =~= cur@.take(keep as int));
    append_bytes(&mut key, slice_subrange(data, start, mid));
    Some((key, copy_range(data, mid, end), end))
}

/// A block is accepted exactly where its last four bytes are the checksum of all before them and
/// there is room for as many restart points as it says.
pub proof fn law_block_checked(data: Seq<u8>)
    ensures
        block_limit(data) is Ok <==> {
            let n = data.len() as int;
            &&& n >= 8
            &&& le32_at(data, n - 4) == crc32c_of(0, data.take(n - 4))
            &&& 8 + 4 * le32_at(data, n - 8) <= n
        },
        block_content(data) is Ok <==> block_limit(data) is Ok,
        block_limit(data) is Ok ==> block_limit(data)->Ok_0 + 4 * le32_at(
            data,
            data.len() - 8,
        ) + 8 == data.len(),
{
}

/// An entry leaves out what its key has in common with the one before, all of it and no more; at a
/// restart point it leaves out nothing.
pub proof fn law_shared_is_longest(es: Seq<RawEntry>, interval: nat, i: int)
    requires
        interval > 0,
        0 <= i < es.len(),
    ensures
        ({
            let n = shared_at(es, interval, i) as int;
            let k = es[i].0;
            &&& i % interval as int == 0 ==> n == 0
            &&& i % interval as int != 0 ==> {
                let b = es[i - 1].0;
                &&& n <= k.len() && n <= b.len()
                &&& k.take(n) == b.take(n)
                &&& n == k.len() || n == b.len() || k[n] != b[n]
            }
        }),
{
    if i % interval as int != 0 {
        assert(i > 0) by {
            if i == 0 {
                assert(0int % (interval as int) == 0) by (nonlinear_arith)
                    requires
                        interval > 0,
                ;
            }
        }
        lemma_common_prefix(es[i - 1].0, es[i].0);
        crate::codec::lemma_common_prefix_longest(es[i - 1].0, es[i].0);
    }
}

proof fn lemma_some_restart(es: Seq<RawEntry>, interval: nat, n: nat)
    ensures
        restarts(es, interval, n).len() > 0,
    decreases n,
{
    if n > 1 {
        lemma_some_restart(es, interval, (n - 1) as nat);
    }
}

/// Restart points stand at every so many entries, the first at the beginning, each where its entry
/// begins.
pub proof fn law_restart_points(es: Seq<RawEntry>, interval: nat, n: nat, k: int)
    requires
        interval > 0,
        n > 0,
        0 <= k < restarts(es, interval, n).len(),
    ensures
        restarts(es, interval, n)[k] == body(es, interval, (k * interval) as nat).len() as u32,
        k * interval < n,
        (restarts(es, interval, n).len() - 1) * interval < n <= restarts(es, interval, n).len()
            * interval,
    decreases n,
{
    let i = interval as int;
    if n == 1 {
        assert(k == 0);
        assert(0 * i == 0 && 1 * i >= 1) by (nonlinear_arith)
            requires
                i > 0,
        ;
        assert(k * interval == 0) by (nonlinear_arith)
            requires
                k == 0,
        ;
        assert(body(es, interval, 0).len() == 0);
    } else {
        let m = (n - 1) as nat;
        let before = restarts(es, interval, m);
        let c = before.len() as int;
        lemma_some_restart(es, interval, m);
        law_restart_points(es, interval, m, 0);
        assert((c + 1) * i == c * i + i && (c - 1) * i == c * i - i) by (nonlinear_arith);
        if m as int % i == 0 {
            assert(m == c * i) by (nonlinear_arith)
                requires
                    i > 0,
                    (c - 1) * i < m <= c * i,
                    m as int % i == 0,
                    (c - 1) * i == c * i - i,
            ;
            if k < c {
                law_restart_points(es, interval, m, k);
            }
        } else {
            law_restart_points(es, interval, m, k);
            assert(m < c * i) by (nonlinear_arith)
                requires
                    i > 0,
                    m <= c * i,
                    m as int % i != 0,
            ;
        }
    }
}

} // verus!
