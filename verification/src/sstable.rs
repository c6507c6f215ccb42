//! Table files: versions on disk, sorted and never changed.
//!
//! ```text
//! | data block 0 | data block 1 | ... | index block | filter block | footer (48 bytes) |
//! ```
//!
//! The index block holds, for each data block, its first key with the block's place (eight bytes)
//! and size (four bytes). The footer holds the places and sizes of the index block and of the
//! filter block, zeros up to its fortieth byte, and a magic number.

use crate::block::{block_bytes, block_content, estimated_size, law_block_round_trip, raw_view,
    small_entries, Block, BlockBuilder, RawEntry};
use crate::codec::{
    append_bytes, be_bytes, be_value, bytes_eq, bytes_le, bytes_lt, copy_bytes, copy_range, get_u32,
    get_u64, get_u64_be, le32, le32_at, le64, le64_at, lemma_be_order, lemma_be_round_trip,
    lemma_be_value_bound, lemma_be_value_round_trip, lemma_le_fixed, lemma_lex_asymmetric,
    lemma_lex_common_prefix, lemma_lex_irreflexive, lemma_lex_le_lt,
    lemma_lex_lt_le, lemma_lex_total, lemma_pow256, lex_le, lex_lt, put_u32, put_u64, put_u64_be,
};
use crate::error::{corruption, invalid_argument, Error, ErrorView};
use crate::memtable::{entries_list, entries_sorted, key_lt, lemma_newest_at, lemma_newest_cases,
    lookup_at, newest_at, Entries, InternalKey, KeyView, MemtableValue, ValueView, Versions};
use crate::text::text_of;
use vstd::prelude::*;
use vstd::slice::slice_subrange;

verus! {

/// Default block size (4 KB).
pub const DEFAULT_BLOCK_SIZE: usize = 4096;

/// Every how many entries a data block holds a whole key.
pub const RESTART_INTERVAL: usize = 16;

/// The last eight bytes of a table file.
pub const FOOTER_MAGIC: u64 = 0x88e2_41b7_85f4_cff8;

/// Footer size in bytes.
pub const FOOTER_SIZE: usize = 48;

/// The bytes of a user key inside those of a version's key: each zero byte is followed by 255,
/// and two zero bytes end it. So the end of a key comes before every way to go on.
#[verifier::opaque]
pub open spec fn escaped(u: Seq<u8>) -> Seq<u8>
    decreases u.len(),
{
    if u.len() == 0 {
        seq![0u8, 0u8]
    } else if u[0] == 0 {
        seq![0u8, 255u8] + escaped(u.drop_first())
    } else {
        seq![u[0]] + escaped(u.drop_first())
    }
}

/// The user key that bytes begin with, and how many bytes hold it.
#[verifier::opaque]
pub open spec fn unescaped(d: Seq<u8>) -> Option<(Seq<u8>, nat)>
    decreases d.len(),
{
    if d.len() == 0 {
        None
    } else if d[0] != 0 {
        match unescaped(d.skip(1)) {
            Some((u, n)) => Some((seq![d[0]] + u, n + 1)),
            None => None,
        }
    } else if d.len() == 1 {
        None
    } else if d[1] == 0 {
        Some((Seq::empty(), 2))
    } else if d[1] == 255 {
        match unescaped(d.skip(2)) {
            Some((u, n)) => Some((seq![0u8] + u, n + 2)),
            None => None,
        }
    } else {
        None
    }
}

/// The bytes of a version's key: the user key with its end marked, and then the sequence number
/// counted down from the largest, most significant byte first, so that newer versions come first.
pub open spec fn key_bytes(k: KeyView) -> Seq<u8> {
    escaped(k.0) + be_bytes((u64::MAX - k.1) as nat, 8)
}

/// The version's key that bytes denote.
pub open spec fn key_of_bytes(d: Seq<u8>) -> Option<KeyView> {
    match unescaped(d) {
        Some((u, n)) => if d.len() == n + 8 {
            Some((u, (u64::MAX - be_value(d.skip(n as int))) as u64))
        } else {
            None
        },
        None => None,
    }
}

/// Tells whether bytes are those of a version's key.
pub open spec fn is_key(d: Seq<u8>) -> bool {
    key_of_bytes(d) is Some
}

/// The user key in the bytes of a version's key.
pub open spec fn user_part(d: Seq<u8>) -> Seq<u8> {
    (key_of_bytes(d)->0).0
}

/// The sequence number in the bytes of a version's key.
pub open spec fn seq_part(d: Seq<u8>) -> u64 {
    (key_of_bytes(d)->0).1
}

/// The bytes of a version's value: a type byte and, for a put, the value.
pub open spec fn value_bytes(v: ValueView) -> Seq<u8> {
    match v {
        Some(x) => seq![1u8] + x,
        None => seq![0u8],
    }
}

/// The value that bytes denote.
pub open spec fn value_of_bytes(d: Seq<u8>) -> Option<ValueView> {
    if d.len() == 0 {
        None
    } else if d[0] == 0 {
        Some(None)
    } else if d[0] == 1 {
        Some(Some(d.skip(1)))
    } else {
        None
    }
}

/// The bytes of a version: those of its key and of its value.
pub open spec fn raw_entry(e: (KeyView, ValueView)) -> RawEntry {
    (key_bytes(e.0), value_bytes(e.1))
}

/// The bytes of versions.
pub open spec fn raw_entries(es: Entries) -> Seq<RawEntry> {
    es.map_values(|e: (KeyView, ValueView)| raw_entry(e))
}

/// Encodes a version's key, so that the order of the bytes is the order of the versions.
pub fn encode_internal_key(key: &InternalKey) -> (r: Vec<u8>)
    ensures
        r@ == key_bytes(key@),
{
    let ghost u = key.user_key@;
    let mut r: Vec<u8> = Vec::new();
    let mut i: usize = 0;
    assert(u.skip(0) =~= u);
    assert(r@ + escaped(u.skip(0)) =~= escaped(u));
    while i < key.user_key.len()
        invariant
            i <= u.len(),
            u == key.user_key@,
            r@ + escaped(u.skip(i as int)) == escaped(u),
        decreases u.len() - i,
    {
        let ghost before = r@;
        let b = key.user_key[i];
        r.push(b);
        if b == 0 {
            r.push(255);
        }
        proof {
            reveal_with_fuel(escaped, 2);
            let s = u.skip(i as int);
            assert(s.drop_first() =~= u.skip(i + 1));
            assert(r@ + escaped(u.skip(i + 1)) =~= before + escaped(s));
        }
        i += 1;
    }
    r.push(0);
    r.push(0);
    assert(r@ =~= escaped(u)) by {
        reveal_with_fuel(escaped, 2);
        assert(u.skip(i as int).len() == 0);
    }
    put_u64_be(&mut r, u64::MAX - key.seq);
    r
}

/// Decodes a version's key.
pub fn decode_internal_key(data: &[u8]) -> (r: Option<InternalKey>)
    ensures
        match r {
            Some(k) => key_of_bytes(data@) == Some(k@),
            None => key_of_bytes(data@) is None,
        },
{
    let ghost d = data@;
    let mut user_key: Vec<u8> = Vec::new();
    let mut i: usize = 0;
    assert(d.skip(0) =~= d);
    assert(goes_on(d, user_key@, 0)) by {
        if let Some((u, n)) = unescaped(d) {
            assert(user_key@ + u =~= u);
        }
    }
    loop
        invariant
            i <= d.len(),
            d == data@,
            goes_on(d, user_key@, i as nat),
        decreases d.len() - i,
    {
        let ghost s = d.skip(i as int);
        let ghost before = user_key@;
        proof {
            reveal_with_fuel(unescaped, 2);
        }
        if i == data.len() {
            return None;
        }
        let b = data[i];
        if b != 0 {
            user_key.push(b);
            proof {
                assert(s.skip(1) =~= d.skip(i + 1));
                if let Some((u, n)) = unescaped(d.skip(i + 1)) {
                    assert(before + (seq![b] + u) =~= user_key@ + u);
                }
            }
            i += 1;
        } else if i + 1 == data.len() {
            return None;
        } else if data[i + 1] == 0 {
            assert(before + Seq::<u8>::empty() =~= before);
            i += 2;
            if data.len() - i != 8 {
                return None;
            }
            let inverted = get_u64_be(data, i);
            assert(d.subrange(i as int, i + 8) =~= d.skip(i as int));
            return Some(InternalKey::new(user_key, u64::MAX - inverted));
        } else if data[i + 1] == 255 {
            user_key.push(0);
            proof {
                assert(s.skip(2) =~= d.skip(i + 2));
                if let Some((u, n)) = unescaped(d.skip(i + 2)) {
                    assert(before + (seq![0u8] + u) =~= user_key@ + u);
                }
            }
            i += 2;
        } else {
            return None;
        }
    }
}

/// Tells whether the user key that bytes begin with goes on after `i` of them, which hold `u`.
spec fn goes_on(d: Seq<u8>, u: Seq<u8>, i: nat) -> bool {
    match unescaped(d.skip(i as int)) {
        Some((v, n)) => unescaped(d) == Some((u + v, i + n)),
        None => unescaped(d) is None,
    }
}

/// Encodes a version's value.
pub fn encode_value(value: &MemtableValue) -> (r: Vec<u8>)
    ensures
        r@ == value_bytes(value@),
{
    let mut r: Vec<u8> = Vec::new();
    match value {
        MemtableValue::Put(v) => {
            r.push(1);
            append_bytes(&mut r, v);
            assert(r@ =~= seq![1u8] + v@);
        },
        MemtableValue::Delete => {
            r.push(0);
            assert(r@ =~= seq![0u8]);
        },
    }
    r
}

/// Decodes a version's value.
pub fn decode_value(data: &[u8]) -> (r: Option<MemtableValue>)
    ensures
        match r {
            Some(v) => value_of_bytes(data@) == Some(v@),
            None => value_of_bytes(data@) is None,
        },
{
    if data.len() == 0 {
        return None;
    }
    if data[0] == 0 {
        return Some(MemtableValue::Delete);
    }
    if data[0] == 1 {
        let v = copy_range(data, 1, data.len());
        assert(v@ =~= data@.skip(1));
        return Some(MemtableValue::Put(v));
    }
    None
}

proof fn lemma_unescaped(u: Seq<u8>, rest: Seq<u8>)
    ensures
        unescaped(escaped(u) + rest) == Some((u, escaped(u).len())),
        u.len() + 2 <= escaped(u).len() <= 2 * u.len() + 2,
    decreases u.len(),
{
    reveal_with_fuel(escaped, 2);
    reveal_with_fuel(unescaped, 2);
    let d = escaped(u) + rest;
    if u.len() > 0 {
        let v = u.drop_first();
        lemma_unescaped(v, rest);
        if u[0] == 0 {
            assert(d.skip(2) =~= escaped(v) + rest);
            assert(seq![0u8] + v =~= u);
        } else {
            assert(d.skip(1) =~= escaped(v) + rest);
            assert(seq![u[0]] + v =~= u);
        }
    } else {
        assert(u =~= Seq::<u8>::empty());
    }
}

proof fn lemma_escaped_again(d: Seq<u8>)
    requires
        unescaped(d) is Some,
    ensures
        (unescaped(d)->0).1 <= d.len(),
        escaped((unescaped(d)->0).0) == d.take((unescaped(d)->0).1 as int),
    decreases d.len(),
{
    reveal_with_fuel(escaped, 2);
    reveal_with_fuel(unescaped, 2);
    let (u, n) = unescaped(d)->0;
    if d[0] != 0 {
        lemma_escaped_again(d.skip(1));
        let (v, m) = unescaped(d.skip(1))->0;
        assert(u.drop_first() =~= v);
        assert(d.take(n as int) =~= seq![d[0]] + d.skip(1).take(m as int));
    } else if d[1] == 0 {
        assert(d.take(2) =~= seq![0u8, 0u8]);
    } else {
        lemma_escaped_again(d.skip(2));
        let (v, m) = unescaped(d.skip(2))->0;
        assert(u.drop_first() =~= v);
        assert(d.take(n as int) =~= seq![0u8, 255u8] + d.skip(2).take(m as int));
    }
}

/// Decoding the bytes of a version's key gives the key.
pub proof fn law_key_round_trip(k: KeyView)
    ensures
        key_of_bytes(key_bytes(k)) == Some(k),
        is_key(key_bytes(k)),
        k.0.len() + 10 <= key_bytes(k).len() <= 2 * k.0.len() + 10,
{
    lemma_pow256();
    let inv = (u64::MAX - k.1) as nat;
    lemma_be_round_trip(inv, 8);
    lemma_unescaped(k.0, be_bytes(inv, 8));
    let n = escaped(k.0).len() as int;
    assert(key_bytes(k).skip(n) =~= be_bytes(inv, 8));
}

/// Encoding what the bytes of a version's key denote gives the bytes.
pub proof fn law_key_bytes_round_trip(d: Seq<u8>)
    requires
        is_key(d),
    ensures
        key_bytes((user_part(d), seq_part(d))) == d,
{
    lemma_pow256();
    lemma_escaped_again(d);
    let n = (unescaped(d)->0).1 as int;
    let s = d.skip(n);
    lemma_be_value_bound(s);
    lemma_be_value_round_trip(s);
    assert(d.take(n) + s =~= d);
}

/// Decoding the bytes of a version's value gives the value.
pub proof fn law_value_round_trip(v: ValueView)
    ensures
        value_of_bytes(value_bytes(v)) == Some(v),
{
    match v {
        Some(x) => {
            assert((seq![1u8] + x).skip(1) =~= x);
        },
        None => {},
    }
}

/// The order of versions is the order of their bytes.
pub proof fn law_key_order(a: KeyView, b: KeyView)
    ensures
        key_lt(a, b) == lex_lt(key_bytes(a), key_bytes(b)),
{
    if key_lt(a, b) {
        lemma_key_before(a, b);
    } else if a != b {
        lemma_lex_total(a.0, b.0);
        lemma_key_before(b, a);
        lemma_lex_asymmetric(key_bytes(b), key_bytes(a));
    } else {
        lemma_lex_irreflexive(key_bytes(a));
    }
}

proof fn lemma_key_before(a: KeyView, b: KeyView)
    requires
        key_lt(a, b),
    ensures
        lex_lt(key_bytes(a), key_bytes(b)),
{
    let x = (u64::MAX - a.1) as nat;
    let y = (u64::MAX - b.1) as nat;
    if a.0 == b.0 {
        lemma_lex_irreflexive(a.0);
        lemma_pow256();
        lemma_be_order(x, y, 8);
        lemma_lex_common_prefix(escaped(a.0), be_bytes(x, 8), be_bytes(y, 8));
    } else {
        lemma_escaped_order(a.0, b.0, be_bytes(x, 8), be_bytes(y, 8));
    }
}

proof fn lemma_escaped_order(a: Seq<u8>, b: Seq<u8>, c: Seq<u8>, d: Seq<u8>)
    requires
        lex_lt(a, b),
    ensures
        lex_lt(escaped(a) + c, escaped(b) + d),
    decreases a.len(),
{
    reveal_with_fuel(escaped, 2);
    let x = escaped(a) + c;
    let y = escaped(b) + d;
    if a.len() > 0 && a[0] == b[0] {
        let (v, w) = (a.drop_first(), b.drop_first());
        lemma_escaped_order(v, w, c, d);
        let p = if a[0] == 0 {
            seq![0u8, 255u8]
        } else {
            seq![a[0]]
        };
        assert(x =~= p + (escaped(v) + c));
        assert(y =~= p + (escaped(w) + d));
        lemma_lex_common_prefix(p, escaped(v) + c, escaped(w) + d);
    } else if a.len() == 0 && b[0] == 0 {
        let z = seq![0u8];
        let (v, w) = (x.skip(1), y.skip(1));
        assert(x =~= z + v);
        assert(y =~= z + w);
        assert(v[0] == 0 && w[0] == 255);
        lemma_lex_common_prefix(z, v, w);
    } else {
        assert(x[0] < y[0]);
    }
}

/// Versions in order are in order as bytes.
pub proof fn law_versions_sorted(es: Entries)
    requires
        entries_sorted(es),
    ensures
        raw_sorted(raw_entries(es)),
{
    let raw = raw_entries(es);
    assert forall|i: int, j: int| 0 <= i < j < raw.len() implies lex_lt(
        (#[trigger] raw[i]).0,
        (#[trigger] raw[j]).0,
    ) by {
        law_key_order(es[i].0, es[j].0);
        assert(raw[i] == raw_entry(es[i]) && raw[j] == raw_entry(es[j]));
    }
}

/// Settings of a table file.
#[derive(Debug, Clone, Copy)]
pub struct SSTableConfig {
    /// Target block size in bytes.
    pub block_size: usize,
    /// Whether a learned index may predict the place of a block. It is carried along: the reader
    /// takes predictions from its caller.
    pub use_learned_indexes: bool,
}

impl Default for SSTableConfig {
    fn default() -> (r: Self)
        ensures
            r.block_size == 4096,
            r.use_learned_indexes,
    {
        SSTableConfig { block_size: DEFAULT_BLOCK_SIZE, use_learned_indexes: true }
    }
}

/// What is known of a table file.
#[derive(Debug, Clone)]
pub struct SSTableMeta {
    /// Number of entries.
    pub num_entries: u64,
    /// File size in bytes.
    pub file_size: u64,
    /// First key.
    pub first_key: Option<Vec<u8>>,
    /// Last key.
    pub last_key: Option<Vec<u8>>,
}

/// A data block as the index block lists it: its first key, its place and its size.
pub type Handle = (Seq<u8>, u64, u32);

/// The bytes of the first `n` data blocks.
pub open spec fn data_bytes(blocks: Seq<Seq<RawEntry>>, n: nat) -> Seq<u8>
    decreases n,
{
    if n == 0 {
        Seq::<u8>::empty()
    } else {
        data_bytes(blocks, (n - 1) as nat) + block_bytes(blocks[n - 1], 16)
    }
}

/// How the index block lists the `i`-th data block.
pub open spec fn handle_of(blocks: Seq<Seq<RawEntry>>, i: int) -> Handle {
    (
        blocks[i][0].0,
        data_bytes(blocks, i as nat).len() as u64,
        block_bytes(blocks[i], 16).len() as u32,
    )
}

/// How the index block lists all data blocks.
pub open spec fn handles(blocks: Seq<Seq<RawEntry>>) -> Seq<Handle> {
    Seq::new(blocks.len(), |i: int| handle_of(blocks, i))
}

/// The entries of the index block.
pub open spec fn index_entries(hs: Seq<Handle>) -> Seq<RawEntry> {
    hs.map_values(|h: Handle| (h.0, le64(h.1) + le32(h.2)))
}

/// Zero bytes.
pub open spec fn zero_bytes(n: nat) -> Seq<u8> {
    Seq::new(n, |i: int| 0u8)
}

/// The footer.
pub open spec fn footer_bytes(
    index_offset: u64,
    index_size: u32,
    filter_offset: u64,
    filter_size: u32,
) -> Seq<u8> {
    le64(index_offset) + le32(index_size) + le64(filter_offset) + le32(filter_size) + zero_bytes(16)
        + le64(FOOTER_MAGIC)
}

/// The bytes of a table file with these data blocks and this filter block.
pub open spec fn table_bytes(blocks: Seq<Seq<RawEntry>>, filter: Seq<u8>) -> Seq<u8> {
    let data = data_bytes(blocks, blocks.len());
    let index = block_bytes(index_entries(handles(blocks)), 1);
    data + index + filter + footer_bytes(
        data.len() as u64,
        index.len() as u32,
        (data.len() + index.len()) as u64,
        filter.len() as u32,
    )
}

/// The entries of all data blocks.
pub open spec fn all_of(blocks: Seq<Seq<RawEntry>>) -> Seq<RawEntry>
    decreases blocks.len(),
{
    if blocks.len() == 0 {
        Seq::empty()
    } else {
        all_of(blocks.drop_last()) + blocks.last()
    }
}

/// Tells whether an entry goes into a new data block.
pub open spec fn starts_block(current: Seq<RawEntry>, e: RawEntry, block_size: nat) -> bool {
    current.len() > 0 && estimated_size(current, 16) + e.0.len() + e.1.len() + 10 > block_size
}

/// The data blocks once the one that is being filled is closed.
pub open spec fn closed_blocks(
    blocks: Seq<Seq<RawEntry>>,
    current: Seq<RawEntry>,
) -> Seq<Seq<RawEntry>> {
    if current.len() > 0 {
        blocks.push(current)
    } else {
        blocks
    }
}

/// Makes a table file.
pub struct SSTableBuilder {
    config: SSTableConfig,
    data_block: BlockBuilder,
    index: Vec<(Vec<u8>, u64, u32)>,
    file: Vec<u8>,
    last_key: Option<Vec<u8>>,
    num_entries: u64,
    first_key: Option<Vec<u8>>,
    blocks: Ghost<Seq<Seq<RawEntry>>>,
}

/// The views of handles.
pub open spec fn handles_view(s: Seq<(Vec<u8>, u64, u32)>) -> Seq<Handle> {
    s.map_values(|h: (Vec<u8>, u64, u32)| (h.0@, h.1, h.2))
}

/// The view of an optional key.
pub open spec fn opt_key(k: Option<Vec<u8>>) -> Option<Seq<u8>> {
    match k {
        Some(v) => Some(v@),
        None => None,
    }
}

/// The key of the first entry.
pub open spec fn first_of(es: Seq<RawEntry>) -> Option<Seq<u8>> {
    if es.len() == 0 {
        None
    } else {
        Some(es[0].0)
    }
}

/// The key of the last entry.
pub open spec fn last_of(es: Seq<RawEntry>) -> Option<Seq<u8>> {
    if es.len() == 0 {
        None
    } else {
        Some(es[es.len() - 1].0)
    }
}

/// Tells whether keys come in ascending order, without repeats.
pub open spec fn raw_sorted(es: Seq<RawEntry>) -> bool {
    forall|i: int, j: int|
        0 <= i < j < es.len() ==> lex_lt((#[trigger] es[i]).0, (#[trigger] es[j]).0)
}

/// Tells whether no data block is empty.
pub open spec fn no_empty_block(blocks: Seq<Seq<RawEntry>>) -> bool {
    forall|i: int| 0 <= i < blocks.len() ==> (#[trigger] blocks[i]).len() > 0
}

impl SSTableBuilder {
    /// The data blocks that are closed.
    pub closed spec fn closed(&self) -> Seq<Seq<RawEntry>> {
        self.blocks@
    }

    /// The entries of the data block that is being filled.
    pub closed spec fn current(&self) -> Seq<RawEntry> {
        self.data_block@
    }

    /// All entries so far.
    pub open spec fn entries(&self) -> Seq<RawEntry> {
        all_of(self.closed()) + self.current()
    }

    /// The target block size.
    pub closed spec fn spec_block_size(&self) -> nat {
        self.config.block_size as nat
    }

    /// Tells whether the builder holds the bytes of its entries.
    pub closed spec fn wf(&self) -> bool {
        &&& self.data_block.wf()
        &&& self.data_block.spec_interval() == 16
        &&& self.file@ == data_bytes(self.blocks@, self.blocks@.len())
        &&& handles_view(self.index@) == handles(self.blocks@)
        &&& opt_key(self.last_key) == last_of(self.entries())
        &&& opt_key(self.first_key) == first_of(self.entries())
        &&& self.num_entries == self.entries().len()
        &&& no_empty_block(self.blocks@)
        &&& raw_sorted(self.entries())
    }

    /// Starts a table file.
    pub fn new(config: SSTableConfig) -> (r: Self)
        ensures
            r.wf(),
            r.closed() == Seq::<Seq<RawEntry>>::empty(),
            r.current() == Seq::<RawEntry>::empty(),
            r.spec_block_size() == config.block_size,
    {
        let r = SSTableBuilder {
            config,
            data_block: BlockBuilder::new(RESTART_INTERVAL),
            index: Vec::new(),
            file: Vec::new(),
            last_key: None,
            num_entries: 0,
            first_key: None,
            blocks: Ghost(Seq::empty()),
        };
        proof {
            assert(r.entries() =~= Seq::<RawEntry>::empty());
            assert(handles_view(r.index@) =~= handles(r.blocks@));
            assert(r.file@ =~= data_bytes(r.blocks@, 0));
        }
        r
    }

    /// Closes the data block that is being filled.
    fn flush_data_block(&mut self)
        requires
            old(self).wf(),
            old(self).current().len() > 0,
        ensures
            final(self).wf(),
            final(self).closed() == old(self).closed().push(old(self).current()),
            final(self).current() == Seq::<RawEntry>::empty(),
            final(self).spec_block_size() == old(self).spec_block_size(),
            final(self).entries() == old(self).entries(),
            final(self).num_entries == old(self).num_entries,
            final(self).last_key == old(self).last_key,
            final(self).first_key == old(self).first_key,
    {
        let ghost blocks = self.blocks@;
        let ghost cur = self.data_block@;
        let ghost blocks2 = blocks.push(cur);
        let ghost hs = handles_view(self.index@);
        let ghost index = self.index@;
        assert(hs.len() == blocks.len());
        if let Some(k) = self.data_block.first_key() {
            let first_key = copy_bytes(k);
            let mut fresh = BlockBuilder::new(RESTART_INTERVAL);
            std::mem::swap(&mut fresh, &mut self.data_block);
            let block = fresh.finish();
            let size = block.len() as u32;
            self.index.push((first_key, self.file.len() as u64, size));
            append_bytes(&mut self.file, &block);
            self.blocks = Ghost(blocks2);
            proof {
                let n = blocks.len();
                assert(self.index@ == index.push(self.index@[n as int]));
                lemma_data_prefix(blocks, blocks2, n);
                assert(blocks2.drop_last() =~= blocks);
                assert(all_of(blocks2) == all_of(blocks) + cur);
                assert(self.entries() =~= all_of(blocks) + cur);
                assert forall|i: int| 0 <= i < n implies #[trigger] handle_of(blocks2, i)
                    == handle_of(blocks, i) by {
                    lemma_data_prefix(blocks, blocks2, i as nat);
                }
                assert forall|i: int| 0 <= i <= n implies handles_view(self.index@)[i] == handles(
                    blocks2,
                )[i] by {
                    if i < n {
                        assert(self.index@[i] == index[i]);
                        assert(hs[i] == handles(blocks)[i]);
                        assert(handle_of(blocks2, i) == handle_of(blocks, i));
                    } else {
                        assert(handle_of(blocks2, i).0 == first_key@);
                    }
                }
                assert(handles_view(self.index@) =~= handles(blocks2));
            }
        }
    }

    /// Adds a version. Keys must come in ascending order.
    pub fn add(&mut self, key: &InternalKey, value: &MemtableValue) -> (r: Result<(), Error>)
        requires
            old(self).wf(),
            old(self).entries().len() < u64::MAX,
        ensures
            final(self).wf(),
            final(self).spec_block_size() == old(self).spec_block_size(),
            ({
                let e = raw_entry((key@, value@));
                let last = last_of(old(self).entries());
                let refused = last is Some && lex_le(e.0, last->0);
                match r {
                    Ok(_) => {
                        &&& !refused
                        &&& final(self).entries() == old(self).entries().push(e)
                        &&& if starts_block(old(self).current(), e, old(self).spec_block_size()) {
                            &&& final(self).closed() == old(self).closed().push(old(self).current())
                            &&& final(self).current() == seq![e]
                        } else {
                            &&& final(self).closed() == old(self).closed()
                            &&& final(self).current() == old(self).current().push(e)
                        }
                    },
                    Err(err) => {
                        &&& refused
                        &&& err@ == ErrorView::InvalidArgument(
                            "keys must be added in sorted order"@,
                        )
                        &&& *final(self) == *old(self)
                    },
                }
            }),
    {
        let kb = encode_internal_key(key);
        let ghost e = raw_entry((key@, value@));
        if let Some(last) = &self.last_key {
            if bytes_le(&kb, last) {
                return Err(invalid_argument("keys must be added in sorted order"));
            }
        }
        let ghost all = self.entries();
        let vb = encode_value(value);
        let entry_size: u128 = kb.len() as u128 + vb.len() as u128 + 10;
        if self.data_block.estimated_size() + entry_size > self.config.block_size as u128
            && !self.data_block.is_empty() {
            self.flush_data_block();
        }
        proof {
            assert(self.entries() == all);
            let all2 = all.push(e);
            assert forall|i: int, j: int| 0 <= i < j < all2.len() implies lex_lt(
                (#[trigger] all2[i]).0,
                (#[trigger] all2[j]).0,
            ) by {
                if j == all2.len() - 1 {
                    lemma_lex_total(e.0, all[j - 1].0);
                    if i < j - 1 {
                        lemma_lex_le_lt(all[i].0, all[j - 1].0, e.0);
                    }
                }
            }
        }
        self.data_block.add(&kb, &vb);
        if self.first_key.is_none() {
            self.first_key = Some(copy_bytes(&kb));
        }
        self.last_key = Some(kb);
        self.num_entries = self.num_entries + 1;
        proof {
            assert(self.entries() =~= all.push(e));
            if starts_block(old(self).current(), e, old(self).spec_block_size()) {
                assert(self.current() =~= seq![e]);
            }
        }
        Ok(())
    }

    fn build_index_block(&self) -> (r: Vec<u8>)
        ensures
            r@ == block_bytes(index_entries(handles_view(self.index@)), 1),
    {
        let mut b = BlockBuilder::new(1);
        let ghost all = index_entries(handles_view(self.index@));
        let mut i: usize = 0;
        while i < self.index.len()
            invariant
                i <= self.index@.len(),
                b.wf(),
                b.spec_interval() == 1,
                all == index_entries(handles_view(self.index@)),
                b@ == all.take(i as int),
            decreases self.index@.len() - i,
        {
            let mut value: Vec<u8> = Vec::new();
            put_u64(&mut value, self.index[i].1);
            put_u32(&mut value, self.index[i].2);
            proof {
                let h = handles_view(self.index@)[i as int];
                assert(value@ =~= le64(h.1) + le32(h.2));
                assert(all[i as int] == (h.0, le64(h.1) + le32(h.2)));
                assert(all.take(i + 1) =~= all.take(i as int).push(all[i as int]));
            }
            b.add(&self.index[i].0, &value);
            i += 1;
        }
        assert(all.take(i as int) =~= all);
        b.finish()
    }

    /// The bytes of the table file, with the given filter block, and what is known of it.
    pub fn finish(self, filter: &[u8]) -> (r: (Vec<u8>, SSTableMeta))
        requires
            self.wf(),
        ensures
            r.0@ == table_bytes(closed_blocks(self.closed(), self.current()), filter@),
            r.1.num_entries == self.entries().len(),
            r.1.file_size == r.0@.len(),
            opt_key(r.1.first_key) == first_of(self.entries()),
            opt_key(r.1.last_key) == last_of(self.entries()),
    {
        let ghost blocks = closed_blocks(self.closed(), self.current());
        let mut b = self;
        if !b.data_block.is_empty() {
            b.flush_data_block();
        } else {
            assert(b.entries() =~= all_of(b.closed()));
        }
        assert(b.blocks@ == blocks);
        let index = b.build_index_block();
        let index_offset = b.file.len() as u64;
        let mut out = b.file;
        let ghost data = out@;
        append_bytes(&mut out, &index);
        let filter_offset = out.len() as u64;
        append_bytes(&mut out, filter);
        let footer = build_footer(
            index_offset,
            index.len() as u32,
            filter_offset,
            filter.len() as u32,
        );
        append_bytes(&mut out, &footer);
        let file_size = out.len() as u64;
        (
            out,
            SSTableMeta {
                num_entries: b.num_entries,
                file_size,
                first_key: b.first_key,
                last_key: b.last_key,
            },
        )
    }
}

/// Makes the footer.
fn build_footer(index_offset: u64, index_size: u32, filter_offset: u64, filter_size: u32) -> (r:
    Vec<u8>)
    ensures
        r@ == footer_bytes(index_offset, index_size, filter_offset, filter_size),
{
    let mut out: Vec<u8> = Vec::new();
    put_u64(&mut out, index_offset);
    put_u32(&mut out, index_size);
    put_u64(&mut out, filter_offset);
    put_u32(&mut out, filter_size);
    let ghost before = out@;
    put_u64(&mut out, 0);
    put_u64(&mut out, 0);
    proof {
        lemma_zero_bytes();
        assert(before =~= le64(index_offset) + le32(index_size) + le64(filter_offset) + le32(
            filter_size,
        ));
        assert(out@ =~= before + (le64(0) + le64(0)));
    }
    put_u64(&mut out, FOOTER_MAGIC);
    out
}

proof fn lemma_zero_bytes()
    ensures
        le64(0) + le64(0) =~= zero_bytes(16),
{
    crate::codec::lemma_le_bytes_len(0, 8);
    reveal_with_fuel(crate::codec::le_bytes, 9);
}

/// The bytes of the first data blocks do not depend on the later ones.
pub proof fn lemma_data_prefix(a: Seq<Seq<RawEntry>>, b: Seq<Seq<RawEntry>>, n: nat)
    requires
        n <= a.len(),
        n <= b.len(),
        forall|i: int| 0 <= i < n ==> a[i] == b[i],
    ensures
        data_bytes(a, n) == data_bytes(b, n),
    decreases n,
{
    if n > 0 {
        lemma_data_prefix(a, b, (n - 1) as nat);
        assert(a[n - 1] == b[n - 1]);
    }
}

/// The data blocks into which entries are laid: those that are closed, and the one that is being
/// filled.
pub open spec fn laid_out(es: Seq<RawEntry>, block_size: nat) -> (Seq<Seq<RawEntry>>, Seq<RawEntry>)
    decreases es.len(),
{
    if es.len() == 0 {
        (Seq::empty(), Seq::empty())
    } else {
        let (blocks, current) = laid_out(es.drop_last(), block_size);
        let e = es.last();
        if starts_block(current, e, block_size) {
            (blocks.push(current), seq![e])
        } else {
            (blocks, current.push(e))
        }
    }
}

/// The data blocks of a table file that holds these entries.
pub open spec fn blocks_of(es: Seq<RawEntry>, block_size: nat) -> Seq<Seq<RawEntry>> {
    let (blocks, current) = laid_out(es, block_size);
    closed_blocks(blocks, current)
}

/// The data blocks hold the entries, in order, and none is empty.
pub proof fn lemma_blocks_of(es: Seq<RawEntry>, block_size: nat)
    ensures
        all_of(blocks_of(es, block_size)) == es,
        no_empty_block(blocks_of(es, block_size)),
{
    lemma_laid_out(es, block_size);
    let (blocks, current) = laid_out(es, block_size);
    if current.len() > 0 {
        assert(blocks.push(current).drop_last() =~= blocks);
    } else {
        assert(all_of(blocks) + current =~= all_of(blocks));
    }
}

proof fn lemma_laid_out(es: Seq<RawEntry>, block_size: nat)
    ensures
        ({
            let (blocks, current) = laid_out(es, block_size);
            &&& all_of(blocks) + current == es
            &&& no_empty_block(blocks)
        }),
    decreases es.len(),
{
    if es.len() > 0 {
        lemma_laid_out(es.drop_last(), block_size);
        let (blocks, current) = laid_out(es.drop_last(), block_size);
        let e = es.last();
        assert(es =~= es.drop_last().push(e));
        if starts_block(current, e, block_size) {
            assert(blocks.push(current).drop_last() =~= blocks);
            assert(all_of(blocks.push(current)) + seq![e] =~= es);
        } else {
            assert(all_of(blocks) + current.push(e) =~= es);
        }
    } else {
        assert(all_of(Seq::<Seq<RawEntry>>::empty()) + Seq::<RawEntry>::empty() =~= es);
    }
}

/// Makes the table file of versions that come in the order of their bytes.
pub fn build_table(
    entries: &Vec<(InternalKey, MemtableValue)>,
    config: SSTableConfig,
    filter: &[u8],
) -> (r: Result<(Vec<u8>, SSTableMeta), Error>)
    ensures
        ({
            let es = raw_entries(crate::memtable::entries_view(entries@));
            match r {
                Ok((bytes, meta)) => {
                    &&& raw_sorted(es)
                    &&& bytes@ == table_bytes(blocks_of(es, config.block_size as nat), filter@)
                    &&& meta.num_entries == es.len()
                    &&& meta.file_size == bytes@.len()
                    &&& opt_key(meta.first_key) == first_of(es)
                    &&& opt_key(meta.last_key) == last_of(es)
                },
                Err(e) => {
                    &&& !raw_sorted(es)
                    &&& e@ == ErrorView::InvalidArgument("keys must be added in sorted order"@)
                },
            }
        }),
{
    let ghost vs = crate::memtable::entries_view(entries@);
    let ghost es = raw_entries(vs);
    let mut b = SSTableBuilder::new(config);
    let mut i: usize = 0;
    let n = entries.len();
    assert(es.take(0) =~= Seq::<RawEntry>::empty());
    assert(b.entries() =~= es.take(0));
    while i < n
        invariant
            i <= n,
            n == entries@.len(),
            b.wf(),
            b.spec_block_size() == config.block_size,
            vs == crate::memtable::entries_view(entries@),
            es == raw_entries(vs),
            b.entries() == es.take(i as int),
            (b.closed(), b.current()) == laid_out(es.take(i as int), config.block_size as nat),
        decreases n - i,
    {
        let ghost e = es[i as int];
        proof {
            assert(vs[i as int] == (entries@[i as int].0@, entries@[i as int].1@));
            assert(e == raw_entry(vs[i as int]));
            assert(es.take(i + 1).drop_last() =~= es.take(i as int));
            assert(es.take(i + 1) =~= es.take(i as int).push(e));
        }
        let (key, value) = &entries[i];
        match b.add(key, value) {
            Ok(_) => {},
            Err(err) => {
                proof {
                    lemma_lex_asymmetric_le(e.0, es[i - 1].0);
                }
                return Err(err);
            },
        }
        i += 1;
    }
    assert(es.take(n as int) =~= es);
    proof {
        b.lemma_sorted();
    }
    Ok(b.finish(filter))
}

proof fn lemma_lex_asymmetric_le(a: Seq<u8>, b: Seq<u8>)
    requires
        lex_le(a, b),
    ensures
        !lex_lt(b, a),
{
    lemma_lex_irreflexive(a);
    if lex_lt(b, a) && a != b {
        lemma_lex_asymmetric(a, b);
    }
}

impl SSTableBuilder {
    /// The entries of a builder come in ascending order.
    pub proof fn lemma_sorted(&self)
        requires
            self.wf(),
        ensures
            raw_sorted(self.entries()),
    {
    }
}

/// Bytes of a file.
pub open spec fn read_at(data: Seq<u8>, off: nat, size: nat) -> Result<Seq<u8>, ErrorView> {
    if off + size > data.len() {
        Err(ErrorView::Io("unexpected end of file"@))
    } else {
        Ok(data.subrange(off as int, (off + size) as int))
    }
}

/// What a block of a file holds.
pub open spec fn block_at(data: Seq<u8>, off: nat, size: nat) -> Result<
    Seq<RawEntry>,
    ErrorView,
> {
    match read_at(data, off, size) {
        Ok(d) => block_content(d),
        Err(e) => Err(e),
    }
}

/// The data block that an entry of the index block lists.
pub open spec fn handle_in(e: RawEntry) -> Handle {
    (e.0, le64_at(e.1, 0) as u64, le32_at(e.1, 8) as u32)
}

/// The data blocks that the entries of the index block list.
pub open spec fn handles_in(es: Seq<RawEntry>) -> Result<Seq<Handle>, ErrorView> {
    if forall|i: int| 0 <= i < es.len() ==> (#[trigger] es[i]).1.len() >= 12 {
        Ok(es.map_values(|e: RawEntry| handle_in(e)))
    } else {
        Err(ErrorView::Corruption("index entry too short"@))
    }
}

/// The data blocks of a table file.
pub open spec fn table_index(data: Seq<u8>) -> Result<Seq<Handle>, ErrorView> {
    let foot = data.len() - 48;
    if foot < 0 {
        Err(ErrorView::Corruption("file too small for footer"@))
    } else if le64_at(data, foot + 40) != FOOTER_MAGIC {
        Err(ErrorView::Corruption("invalid footer magic"@))
    } else {
        match block_at(data, le64_at(data, foot), le32_at(data, foot + 8)) {
            Err(e) => Err(e),
            Ok(es) => {
                let filter = read_at(data, le64_at(data, foot + 12), le32_at(data, foot + 20));
                if le32_at(data, foot + 20) > 0 && filter is Err {
                    Err(filter->Err_0)
                } else {
                    handles_in(es)
                }
            },
        }
    }
}

/// All entries of a table file from the `i`-th data block on.
pub open spec fn entries_from(data: Seq<u8>, index: Seq<Handle>, i: nat) -> Result<
    Seq<RawEntry>,
    ErrorView,
>
    decreases index.len() - i,
{
    if i >= index.len() {
        Ok(Seq::empty())
    } else {
        match block_at(data, index[i as int].1 as nat, index[i as int].2 as nat) {
            Err(e) => Err(e),
            Ok(es) => match entries_from(data, index, i + 1) {
                Err(e) => Err(e),
                Ok(rest) => Ok(es + rest),
            },
        }
    }
}

/// The entries of a table file from the `i`-th data block on that come before the first block that
/// cannot be read, and why that one cannot.
pub open spec fn front_from(data: Seq<u8>, index: Seq<Handle>, i: nat) -> (
    Seq<RawEntry>,
    Option<ErrorView>,
)
    decreases index.len() - i,
{
    if i >= index.len() {
        (Seq::empty(), None)
    } else {
        match block_at(data, index[i as int].1 as nat, index[i as int].2 as nat) {
            Err(e) => (Seq::empty(), Some(e)),
            Ok(es) => {
                let (rest, why) = front_from(data, index, i + 1);
                (es + rest, why)
            },
        }
    }
}

/// All entries of a table file are those before the first block that cannot be read, where there is
/// none such.
pub proof fn law_front_is_all(data: Seq<u8>, index: Seq<Handle>, i: nat)
    ensures
        match entries_from(data, index, i) {
            Ok(es) => front_from(data, index, i) == (es, None::<ErrorView>),
            Err(e) => front_from(data, index, i).1 == Some(e),
        },
    decreases index.len() - i,
{
    if i < index.len() {
        law_front_is_all(data, index, i + 1);
    }
}

/// The entries of those of the first `n` data blocks of a table file that can be read.
pub open spec fn readable_entries(data: Seq<u8>, index: Seq<Handle>, n: nat) -> Seq<RawEntry>
    decreases n,
{
    if n == 0 {
        Seq::empty()
    } else {
        let h = index[n - 1];
        readable_entries(data, index, (n - 1) as nat) + match block_at(data, h.1 as nat, h.2 as nat) {
            Ok(es) => es,
            Err(_) => Seq::empty(),
        }
    }
}

/// The value of a key in a data block: entries are looked at in order, up to the first whose key
/// is not smaller.
pub open spec fn find_in(es: Seq<RawEntry>, key: Seq<u8>) -> Option<Seq<u8>>
    decreases es.len(),
{
    if es.len() == 0 {
        None
    } else if es[0].0 == key {
        Some(es[0].1)
    } else if lex_lt(key, es[0].0) {
        None
    } else {
        find_in(es.drop_first(), key)
    }
}

/// Looks by halving for the last data block in a range whose first key is at or before a key.
pub open spec fn halve(index: Seq<Handle>, key: Seq<u8>, lo: nat, hi: nat, best: Option<nat>) -> Option<
    nat,
>
    decreases hi - lo,
{
    if lo >= hi {
        best
    } else {
        let mid = lo + (hi - lo) as nat / 2;
        if lex_le(index[mid as int].0, key) {
            halve(index, key, mid + 1, hi, Some(mid))
        } else {
            halve(index, key, lo, mid, best)
        }
    }
}

/// The range of data blocks to look in, where `lo..hi` is predicted.
pub open spec fn search_range(index: Seq<Handle>, key: Seq<u8>, lo: nat, hi: nat) -> (nat, nat) {
    let n = index.len();
    let hi = if hi <= n {
        hi
    } else {
        n
    };
    if lo < hi {
        if lex_lt(key, index[lo as int].0) {
            (0, hi)
        } else if lex_lt(index[hi - 1].0, key) && hi < n {
            (lo, n)
        } else {
            (
                if lo > 0 {
                    (lo - 1) as nat
                } else {
                    0
                },
                if hi + 1 <= n {
                    hi + 1
                } else {
                    n
                },
            )
        }
    } else {
        (0, n)
    }
}

/// The data block that may hold a key, where blocks `lo..hi` are predicted.
pub open spec fn find_block(index: Seq<Handle>, key: Seq<u8>, lo: nat, hi: nat) -> Option<nat> {
    let (a, b) = search_range(index, key, lo, hi);
    halve(index, key, a, b, None)
}

/// The value of a key in a table file, where data blocks `lo..hi` are predicted.
pub open spec fn table_get(data: Seq<u8>, index: Seq<Handle>, key: Seq<u8>, lo: nat, hi: nat) -> Result<
    Option<Seq<u8>>,
    ErrorView,
> {
    match find_block(index, key, lo, hi) {
        None => Ok(None),
        Some(i) => match block_at(data, index[i as int].1 as nat, index[i as int].2 as nat) {
            Err(e) => Err(e),
            Ok(es) => Ok(find_in(es, key)),
        },
    }
}

/// A version that was found: its sequence number and the bytes of its value.
pub type Best = Option<(u64, Seq<u8>)>;

/// The newest visible version of a user key in a data block from the `i`-th entry on, or `best`
/// where that is not older. Entries are looked at up to the first with a greater user key.
pub open spec fn best_in_block(es: Seq<RawEntry>, i: nat, key: Seq<u8>, at: u64, best: Best) -> Best
    decreases es.len() - i,
{
    if i >= es.len() {
        best
    } else {
        let k = es[i as int].0;
        if !is_key(k) {
            best_in_block(es, i + 1, key, at, best)
        } else if user_part(k) == key && seq_part(k) <= at {
            let b = if best is None || seq_part(k) > (best->0).0 {
                Some((seq_part(k), es[i as int].1))
            } else {
                best
            };
            best_in_block(es, i + 1, key, at, b)
        } else if lex_lt(key, user_part(k)) {
            best
        } else {
            best_in_block(es, i + 1, key, at, best)
        }
    }
}

/// The newest visible version of a user key in a table file from the `i`-th data block on, or
/// `best` where that is not older. Blocks are read up to the first that starts with a greater
/// user key.
pub open spec fn best_in_table(
    data: Seq<u8>,
    index: Seq<Handle>,
    i: nat,
    key: Seq<u8>,
    at: u64,
    best: Best,
) -> Result<Best, ErrorView>
    decreases index.len() - i,
{
    if i >= index.len() {
        Ok(best)
    } else {
        let h = index[i as int];
        if !is_key(h.0) {
            best_in_table(data, index, i + 1, key, at, best)
        } else if lex_lt(key, user_part(h.0)) {
            Ok(best)
        } else {
            match block_at(data, h.1 as nat, h.2 as nat) {
                Err(e) => Err(e),
                Ok(es) => best_in_table(
                    data,
                    index,
                    i + 1,
                    key,
                    at,
                    best_in_block(es, 0, key, at, best),
                ),
            }
        }
    }
}

/// What a table file holds of a user key at a sequence number.
pub open spec fn table_lookup(data: Seq<u8>, index: Seq<Handle>, key: Seq<u8>, at: u64) -> Result<
    Option<Seq<u8>>,
    ErrorView,
> {
    match best_in_table(data, index, 0, key, at, None) {
        Err(e) => Err(e),
        Ok(None) => Ok(None),
        Ok(Some((_, v))) => Ok(Some(v)),
    }
}

fn read_block(data: &[u8], off: u64, size: u32) -> (r: Result<Vec<(Vec<u8>, Vec<u8>)>, Error>)
    ensures
        match r {
            Ok(es) => block_at(data@, off as nat, size as nat) == Ok::<Seq<RawEntry>, ErrorView>(
                raw_view(es@),
            ),
            Err(e) => block_at(data@, off as nat, size as nat) == Err::<Seq<RawEntry>, ErrorView>(
                e@,
            ),
        },
{
    let n = data.len() as u64;
    if off > n || size as u64 > n - off {
        return Err(Error::Io(text_of("unexpected end of file")));
    }
    let part = slice_subrange(data, off as usize, off as usize + size as usize);
    match Block::new(part) {
        Ok(b) => Ok(b.iter()),
        Err(e) => Err(e),
    }
}

/// Reads a table file.
pub struct SSTableReader<'a> {
    data: &'a [u8],
    index: Vec<(Vec<u8>, u64, u32)>,
}

impl<'a> SSTableReader<'a> {
    /// The bytes of the file.
    pub closed spec fn bytes(&self) -> Seq<u8> {
        self.data@
    }

    /// The data blocks.
    pub closed spec fn index(&self) -> Seq<Handle> {
        handles_view(self.index@)
    }

    /// Opens a table file.
    pub fn open(data: &'a [u8]) -> (r: Result<SSTableReader<'a>, Error>)
        ensures
            match r {
                Ok(t) => {
                    &&& t.bytes() == data@
                    &&& table_index(data@) == Ok::<Seq<Handle>, ErrorView>(t.index())
                },
                Err(e) => table_index(data@) == Err::<Seq<Handle>, ErrorView>(e@),
            },
    {
        let n = data.len();
        if n < FOOTER_SIZE {
            return Err(corruption("file too small for footer"));
        }
        let foot = n - FOOTER_SIZE;
        if get_u64(data, foot + 40) != FOOTER_MAGIC {
            return Err(corruption("invalid footer magic"));
        }
        let index_offset = get_u64(data, foot);
        let index_size = get_u32(data, foot + 8);
        let filter_offset = get_u64(data, foot + 12);
        let filter_size = get_u32(data, foot + 20);
        let entries = match read_block(data, index_offset, index_size) {
            Ok(es) => es,
            Err(e) => {
                return Err(e);
            },
        };
        if filter_size > 0 && (filter_offset > n as u64 || filter_size as u64 > n as u64
            - filter_offset) {
            return Err(Error::Io(text_of("unexpected end of file")));
        }
        let ghost es = raw_view(entries@);
        let ghost hs = es.map_values(|e: RawEntry| handle_in(e));
        let mut index: Vec<(Vec<u8>, u64, u32)> = Vec::new();
        let mut i: usize = 0;
        while i < entries.len()
            invariant
                i <= entries@.len(),
                es == raw_view(entries@),
                hs == es.map_values(|e: RawEntry| handle_in(e)),
                handles_view(index@) =~= hs.take(i as int),
                forall|j: int| 0 <= j < i ==> (#[trigger] es[j]).1.len() >= 12,
                table_index(data@) == handles_in(es),
            decreases entries@.len() - i,
        {
            let (key, value) = &entries[i];
            assert(es[i as int] == (key@, value@));
            if value.len() < 12 {
                return Err(corruption("index entry too short"));
            }
            let off = get_u64(value, 0);
            let size = get_u32(value, 8);
            let ghost before = index@;
            index.push((copy_bytes(key), off, size));
            proof {
                assert(hs[i as int] == (key@, off, size));
                assert(handles_view(before).len() == before.len());
                assert(before.len() == i);
                assert forall|j: int| 0 <= j <= i implies handles_view(index@)[j] == hs[j] by {
                    if j < i {
                        assert(handles_view(before)[j] == hs.take(i as int)[j]);
                    }
                }
            }
            i += 1;
        }
        assert(hs.take(i as int) =~= hs);
        Ok(SSTableReader { data, index })
    }

    /// What is known of the file: the number of its entries, and the first and the last of their
    /// keys. Data blocks that cannot be read are left out.
    pub fn meta(&self) -> (r: SSTableMeta)
        ensures
            r.num_entries == readable_entries(self.bytes(), self.index(), self.index().len()).len(),
            r.file_size == self.bytes().len(),
            opt_key(r.first_key) == first_of(
                readable_entries(self.bytes(), self.index(), self.index().len()),
            ),
            opt_key(r.last_key) == last_of(
                readable_entries(self.bytes(), self.index(), self.index().len()),
            ),
    {
        let mut out: Vec<(Vec<u8>, Vec<u8>)> = Vec::new();
        let mut i: usize = 0;
        assert(raw_view(out@) =~= Seq::<RawEntry>::empty());
        while i < self.index.len()
            invariant
                i <= self.index@.len(),
                raw_view(out@) == readable_entries(self.bytes(), self.index(), i as nat),
            decreases self.index@.len() - i,
        {
            let ghost before = raw_view(out@);
            assert(self.index()[i as int].1 == self.index@[i as int].1);
            assert(self.index()[i as int].2 == self.index@[i as int].2);
            match read_block(self.data, self.index[i].1, self.index[i].2) {
                Ok(es) => {
                    let mut es = es;
                    let ghost out0 = out@;
                    let ghost es0 = es@;
                    out.append(&mut es);
                    proof {
                        assert(out@ =~= out0 + es0);
                        assert(raw_view(out@) =~= before + raw_view(es0));
                    }
                },
                Err(_) => {
                    assert(before + Seq::<RawEntry>::empty() =~= before);
                },
            }
            i += 1;
        }
        let n = out.len();
        let (first_key, last_key) = if n == 0 {
            (None, None)
        } else {
            (Some(copy_bytes(&out[0].0)), Some(copy_bytes(&out[n - 1].0)))
        };
        SSTableMeta { num_entries: n as u64, file_size: self.data.len() as u64, first_key, last_key }
    }

    /// The number of data blocks.
    pub fn block_count(&self) -> (r: usize)
        ensures
            r == self.index().len(),
    {
        self.index.len()
    }

    /// Finds the data block that may hold a key: the last whose first key is at or before it.
    /// A learned index may predict the range of blocks to look in.
    pub fn find_block_for_key(&self, key: &[u8], predicted_lo: usize, predicted_hi: usize) -> (r:
        Option<usize>)
        ensures
            match r {
                Some(i) => i < self.index().len() && find_block(
                    self.index(),
                    key@,
                    predicted_lo as nat,
                    predicted_hi as nat,
                ) == Some(i as nat),
                None => find_block(
                    self.index(),
                    key@,
                    predicted_lo as nat,
                    predicted_hi as nat,
                ) is None,
            },
    {
        let ghost index = self.index();
        let n = self.index.len();
        let hi0 = if predicted_hi <= n {
            predicted_hi
        } else {
            n
        };
        let (a, b): (usize, usize) = if predicted_lo < hi0 {
            assert(index[predicted_lo as int].0 == self.index@[predicted_lo as int].0@);
            assert(index[hi0 - 1].0 == self.index@[hi0 - 1].0@);
            if bytes_lt(key, &self.index[predicted_lo].0) {
                (0, hi0)
            } else if bytes_lt(&self.index[hi0 - 1].0, key) && hi0 < n {
                (predicted_lo, n)
            } else {
                (
                    if predicted_lo > 0 {
                        predicted_lo - 1
                    } else {
                        0
                    },
                    if hi0 < n {
                        hi0 + 1
                    } else {
                        n
                    },
                )
            }
        } else {
            (0, n)
        };
        let ghost all = halve(index, key@, a as nat, b as nat, None);
        let mut best: Option<usize> = None;
        let mut lo: usize = a;
        let mut hi: usize = b;
        while lo < hi
            invariant
                index == self.index(),
                hi <= self.index@.len(),
                all == halve(
                    index,
                    key@,
                    lo as nat,
                    hi as nat,
                    match best {
                        Some(i) => Some(i as nat),
                        None => None,
                    },
                ),
                best matches Some(i) ==> i < self.index@.len(),
            decreases hi - lo,
        {
            let mid = lo + (hi - lo) / 2;
            assert(index[mid as int].0 == self.index@[mid as int].0@);
            if bytes_le(&self.index[mid].0, key) {
                best = Some(mid);
                lo = mid + 1;
            } else {
                hi = mid;
            }
        }
        best
    }

    /// The value of a key, which holds the sequence number too.
    pub fn get(&self, key: &[u8]) -> (r: Result<Option<Vec<u8>>, Error>)
        ensures
            ({
                let want = table_get(self.bytes(), self.index(), key@, 0, self.index().len());
                match r {
                    Ok(v) => want == Ok::<Option<Seq<u8>>, ErrorView>(opt_key(v)),
                    Err(e) => want == Err::<Option<Seq<u8>>, ErrorView>(e@),
                }
            }),
    {
        self.get_predicted(key, 0, self.index.len())
    }

    /// The value of a key, where a learned index predicts the range of data blocks to look in.
    pub fn get_predicted(&self, key: &[u8], predicted_lo: usize, predicted_hi: usize) -> (r: Result<
        Option<Vec<u8>>,
        Error,
    >)
        ensures
            ({
                let want = table_get(
                    self.bytes(),
                    self.index(),
                    key@,
                    predicted_lo as nat,
                    predicted_hi as nat,
                );
                match r {
                    Ok(v) => want == Ok::<Option<Seq<u8>>, ErrorView>(opt_key(v)),
                    Err(e) => want == Err::<Option<Seq<u8>>, ErrorView>(e@),
                }
            }),
    {
        let i = match self.find_block_for_key(key, predicted_lo, predicted_hi) {
            Some(i) => i,
            None => {
                return Ok(None);
            },
        };
        assert(self.index()[i as int].1 == self.index@[i as int].1);
        assert(self.index()[i as int].2 == self.index@[i as int].2);
        let es = match read_block(self.data, self.index[i].1, self.index[i].2) {
            Ok(es) => es,
            Err(e) => {
                return Err(e);
            },
        };
        let ghost all = raw_view(es@);
        let mut j: usize = 0;
        assert(all.skip(0) =~= all);
        while j < es.len()
            invariant
                j <= es@.len(),
                all == raw_view(es@),
                find_in(all, key@) == find_in(all.skip(j as int), key@),
                table_get(
                    self.bytes(),
                    self.index(),
                    key@,
                    predicted_lo as nat,
                    predicted_hi as nat,
                ) == Ok::<Option<Seq<u8>>, ErrorView>(find_in(all, key@)),
            decreases es@.len() - j,
        {
            let (k, v) = &es[j];
            assert(all.skip(j as int)[0] == (k@, v@));
            assert(all.skip(j as int).drop_first() =~= all.skip(j + 1));
            if bytes_eq(k, key) {
                return Ok(Some(copy_bytes(v)));
            }
            if bytes_lt(key, k) {
                return Ok(None);
            }
            j += 1;
        }
        Ok(None)
    }

    /// The bytes of the newest version of a user key at or before a sequence number.
    pub fn get_mvcc(&self, user_key: &[u8], target_seq: u64) -> (r: Result<Option<Vec<u8>>, Error>)
        ensures
            ({
                let want = table_lookup(self.bytes(), self.index(), user_key@, target_seq);
                match r {
                    Ok(v) => want == Ok::<Option<Seq<u8>>, ErrorView>(opt_key(v)),
                    Err(e) => want == Err::<Option<Seq<u8>>, ErrorView>(e@),
                }
            }),
    {
        match self.find_version(user_key, target_seq) {
            Ok(Some((_, v))) => Ok(Some(v)),
            Ok(None) => Ok(None),
            Err(e) => Err(e),
        }
    }

    /// The newest version of a user key at or before a sequence number: its sequence number and
    /// the bytes of its value.
    pub fn find_version(&self, user_key: &[u8], target_seq: u64) -> (r: Result<
        Option<(u64, Vec<u8>)>,
        Error,
    >)
        ensures
            ({
                let want = best_in_table(
                    self.bytes(),
                    self.index(),
                    0,
                    user_key@,
                    target_seq,
                    None,
                );
                match r {
                    Ok(v) => want == Ok::<Best, ErrorView>(best_view(v)),
                    Err(e) => want == Err::<Best, ErrorView>(e@),
                }
            }),
    {
        let ghost want = best_in_table(self.bytes(), self.index(), 0, user_key@, target_seq, None);
        let mut best: Option<(u64, Vec<u8>)> = None;
        let mut i: usize = 0;
        while i < self.index.len()
            invariant
                i <= self.index@.len(),
                want == best_in_table(
                    self.bytes(),
                    self.index(),
                    i as nat,
                    user_key@,
                    target_seq,
                    best_view(best),
                ),
                want == best_in_table(self.bytes(), self.index(), 0, user_key@, target_seq, None),
            decreases self.index@.len() - i,
        {
            let key = &self.index[i].0;
            assert(self.index()[i as int] == (key@, self.index@[i as int].1, self.index@[i as int].2));
            if let Some(first) = decode_internal_key(key) {
                if bytes_lt(user_key, &first.user_key) {
                    return Ok(best);
                }
                match read_block(self.data, self.index[i].1, self.index[i].2) {
                    Ok(es) => {
                        best = best_of_block(&es, user_key, target_seq, best);
                    },
                    Err(e) => {
                        return Err(e);
                    },
                }
            }
            i += 1;
        }
        Ok(best)
    }

    /// All entries, in order.
    pub fn iter(&self) -> (r: Result<Vec<(Vec<u8>, Vec<u8>)>, Error>)
        ensures
            match r {
                Ok(es) => entries_from(self.bytes(), self.index(), 0) == Ok::<
                    Seq<RawEntry>,
                    ErrorView,
                >(raw_view(es@)),
                Err(e) => entries_from(self.bytes(), self.index(), 0) == Err::<
                    Seq<RawEntry>,
                    ErrorView,
                >(e@),
            },
    {
        proof {
            law_front_is_all(self.bytes(), self.index(), 0);
        }
        let (es, why) = self.front();
        match why {
            Some(e) => Err(e),
            None => Ok(es),
        }
    }

    /// The entries before the first block that cannot be read, and why that one cannot.
    pub fn front(&self) -> (r: (Vec<(Vec<u8>, Vec<u8>)>, Option<Error>))
        ensures
            raw_view(r.0@) == front_from(self.bytes(), self.index(), 0).0,
            front_from(self.bytes(), self.index(), 0).1 == (match r.1 {
                Some(e) => Some(e@),
                None => None,
            }),
    {
        let ghost want = front_from(self.bytes(), self.index(), 0);
        let mut out: Vec<(Vec<u8>, Vec<u8>)> = Vec::new();
        let mut i: usize = 0;
        assert(raw_view(out@) + want.0 =~= want.0);
        while i < self.index.len()
            invariant
                i <= self.index@.len(),
                want == front_from(self.bytes(), self.index(), 0),
                want.0 == raw_view(out@) + front_from(self.bytes(), self.index(), i as nat).0,
                want.1 == front_from(self.bytes(), self.index(), i as nat).1,
            decreases self.index@.len() - i,
        {
            assert(self.index()[i as int].1 == self.index@[i as int].1);
            assert(self.index()[i as int].2 == self.index@[i as int].2);
            match read_block(self.data, self.index[i].1, self.index[i].2) {
                Ok(es) => {
                    let ghost before = raw_view(out@);
                    let ghost more = raw_view(es@);
                    let mut es = es;
                    let ghost out0 = out@;
                    let ghost es0 = es@;
                    out.append(&mut es);
                    proof {
                        let rest = front_from(self.bytes(), self.index(), (i + 1) as nat).0;
                        assert(out@ =~= out0 + es0);
                        assert(raw_view(out@) =~= before + more);
                        assert(before + (more + rest) =~= (before + more) + rest);
                    }
                },
                Err(e) => {
                    assert(raw_view(out@) + Seq::<RawEntry>::empty() =~= raw_view(out@));
                    return (out, Some(e));
                },
            }
            i += 1;
        }
        assert(raw_view(out@) + Seq::<RawEntry>::empty() =~= raw_view(out@));
        (out, None)
    }
}

/// The view of a version that was found.
pub open spec fn best_view(b: Option<(u64, Vec<u8>)>) -> Best {
    match b {
        Some((s, v)) => Some((s, v@)),
        None => None,
    }
}

fn best_of_block(
    es: &Vec<(Vec<u8>, Vec<u8>)>,
    user_key: &[u8],
    target_seq: u64,
    start: Option<(u64, Vec<u8>)>,
) -> (r: Option<(u64, Vec<u8>)>)
    ensures
        best_view(r) == best_in_block(raw_view(es@), 0, user_key@, target_seq, best_view(start)),
{
    let ghost all = raw_view(es@);
    let ghost first = best_view(start);
    let ghost want = best_in_block(all, 0, user_key@, target_seq, first);
    let mut best = start;
    let mut i: usize = 0;
    while i < es.len()
        invariant
            i <= es@.len(),
            all == raw_view(es@),
            want == best_in_block(all, i as nat, user_key@, target_seq, best_view(best)),
            want == best_in_block(all, 0, user_key@, target_seq, first),
            first == best_view(start),
        decreases es@.len() - i,
    {
        let (k, v) = &es[i];
        assert(all[i as int] == (k@, v@));
        if let Some(version) = decode_internal_key(k) {
            let seq = version.seq;
            if bytes_eq(&version.user_key, user_key) && seq <= target_seq {
                let newer = match &best {
                    None => true,
                    Some((s, _)) => seq > *s,
                };
                if newer {
                    best = Some((seq, copy_bytes(v)));
                }
            } else if bytes_lt(user_key, &version.user_key) {
                return best;
            }
        }
        i += 1;
    }
    best
}

/// Tells whether the sizes of a table file fit the numbers that it holds them in.
pub open spec fn table_fits(blocks: Seq<Seq<RawEntry>>, filter: Seq<u8>) -> bool {
    &&& blocks.len() <= u32::MAX
    &&& no_empty_block(blocks)
    &&& forall|i: int|
        0 <= i < blocks.len() ==> {
            &&& small_entries(#[trigger] blocks[i])
            &&& blocks[i].len() <= u32::MAX
            &&& block_bytes(blocks[i], 16).len() <= u32::MAX
        }
    &&& block_bytes(index_entries(handles(blocks)), 1).len() <= u32::MAX
    &&& filter.len() <= u32::MAX
    &&& table_bytes(blocks, filter).len() <= u64::MAX
}

proof fn lemma_data_block(blocks: Seq<Seq<RawEntry>>, i: nat, n: nat)
    requires
        i < n <= blocks.len(),
    ensures
        ({
            let off = data_bytes(blocks, i).len() as int;
            let b = block_bytes(blocks[i as int], 16);
            &&& off + b.len() <= data_bytes(blocks, n).len()
            &&& data_bytes(blocks, n).subrange(off, off + b.len()) == b
        }),
    decreases n,
{
    let off = data_bytes(blocks, i).len() as int;
    let b = block_bytes(blocks[i as int], 16);
    let d = data_bytes(blocks, (n - 1) as nat);
    let last = block_bytes(blocks[n - 1], 16);
    if i < n - 1 {
        lemma_data_block(blocks, i, (n - 1) as nat);
        assert((d + last).subrange(off, off + b.len()) =~= d.subrange(off, off + b.len()));
    } else {
        assert((d + last).subrange(off, off + b.len()) =~= b);
    }
}

proof fn lemma_handles_in(hs: Seq<Handle>)
    ensures
        handles_in(index_entries(hs)) == Ok::<Seq<Handle>, ErrorView>(hs),
{
    let es = index_entries(hs);
    assert forall|i: int| 0 <= i < es.len() implies (#[trigger] es[i]).1.len() >= 12 && handle_in(
        es[i],
    ) == hs[i] by {
        let h = hs[i];
        let v = le64(h.1) + le32(h.2);
        lemma_le_fixed(h.2, h.1);
        assert(es[i] == (h.0, v));
        assert(v.subrange(0, 8) =~= le64(h.1));
        assert(v.subrange(8, 12) =~= le32(h.2));
    }
    assert(es.map_values(|e: RawEntry| handle_in(e)) =~= hs);
}

proof fn lemma_footer(pre: Seq<u8>, a: u64, b: u32, c: u64, d: u32)
    ensures
        ({
            let t = pre + footer_bytes(a, b, c, d);
            let f = pre.len() as int;
            &&& t.len() == f + 48
            &&& le64_at(t, f) == a
            &&& le32_at(t, f + 8) == b
            &&& le64_at(t, f + 12) == c
            &&& le32_at(t, f + 20) == d
            &&& le64_at(t, f + 40) == FOOTER_MAGIC
        }),
{
    lemma_le_fixed(b, a);
    lemma_le_fixed(d, c);
    lemma_le_fixed(0, FOOTER_MAGIC);
    let t = pre + footer_bytes(a, b, c, d);
    let f = pre.len() as int;
    assert(t.subrange(f, f + 8) =~= le64(a));
    assert(t.subrange(f + 8, f + 12) =~= le32(b));
    assert(t.subrange(f + 12, f + 20) =~= le64(c));
    assert(t.subrange(f + 20, f + 24) =~= le32(d));
    assert(t.subrange(f + 40, f + 48) =~= le64(FOOTER_MAGIC));
}

/// Reading a table file gives the data blocks that it was made of.
#[verifier::rlimit(40)]
pub proof fn law_table_blocks(blocks: Seq<Seq<RawEntry>>, filter: Seq<u8>)
    requires
        table_fits(blocks, filter),
    ensures
        table_index(table_bytes(blocks, filter)) == Ok::<Seq<Handle>, ErrorView>(handles(blocks)),
        forall|i: int|
            0 <= i < blocks.len() ==> block_at(
                table_bytes(blocks, filter),
                (#[trigger] handles(blocks)[i]).1 as nat,
                handles(blocks)[i].2 as nat,
            ) == Ok::<Seq<RawEntry>, ErrorView>(blocks[i]),
{
    let t = table_bytes(blocks, filter);
    let data = data_bytes(blocks, blocks.len());
    let hs = handles(blocks);
    let ies = index_entries(hs);
    let index = block_bytes(ies, 1);
    let a = data.len() as u64;
    let b = index.len() as u32;
    let c = (data.len() + index.len()) as u64;
    let d = filter.len() as u32;
    let pre = data + index + filter;
    lemma_footer(pre, a, b, c, d);
    assert(t == pre + footer_bytes(a, b, c, d));
    assert(small_entries(ies)) by {
        assert forall|i: int| 0 <= i < ies.len() implies crate::block::small_entry(
            #[trigger] ies[i],
        ) by {
            let h = hs[i];
            lemma_le_fixed(h.2, h.1);
            assert(small_entries(blocks[i]));
            assert(crate::block::small_entry(blocks[i][0]));
        }
    }
    law_block_round_trip(ies, 1);
    assert(t.subrange(a as int, a + b) =~= index);
    lemma_handles_in(hs);
    assert(table_index(t) == Ok::<Seq<Handle>, ErrorView>(hs));
    assert forall|i: int| 0 <= i < blocks.len() implies block_at(
        t,
        (#[trigger] hs[i]).1 as nat,
        hs[i].2 as nat,
    ) == Ok::<Seq<RawEntry>, ErrorView>(blocks[i]) by {
        lemma_data_block(blocks, i as nat, blocks.len());
        let off = data_bytes(blocks, i as nat).len() as int;
        let bb = block_bytes(blocks[i], 16);
        assert(small_entries(blocks[i]));
        assert(t.subrange(off, off + bb.len()) =~= data.subrange(off, off + bb.len()));
        law_block_round_trip(blocks[i], 16);
    }
}

/// Where the entries of the `i`-th data block start among all entries.
pub open spec fn block_start(blocks: Seq<Seq<RawEntry>>, i: int) -> nat {
    all_of(blocks.take(i)).len()
}

proof fn lemma_block_start(blocks: Seq<Seq<RawEntry>>, i: int)
    requires
        0 <= i < blocks.len(),
    ensures
        block_start(blocks, i + 1) == block_start(blocks, i) + blocks[i].len(),
        block_start(blocks, i + 1) <= all_of(blocks).len(),
        all_of(blocks).subrange(block_start(blocks, i) as int, block_start(blocks, i + 1) as int)
            == blocks[i],
    decreases blocks.len() - i,
{
    let n = blocks.len() as int;
    assert(blocks.take(i + 1).drop_last() =~= blocks.take(i));
    lemma_all_prefix(blocks, i + 1);
    let x = all_of(blocks.take(i + 1));
    let y = all_of(blocks.take(i));
    assert(x == y + blocks[i]);
    assert(all_of(blocks).subrange(y.len() as int, x.len() as int) =~= x.subrange(
        y.len() as int,
        x.len() as int,
    )) by {
        assert(x == all_of(blocks).take(x.len() as int));
    }
    assert(x.subrange(y.len() as int, x.len() as int) =~= blocks[i]);
}

proof fn lemma_all_prefix(blocks: Seq<Seq<RawEntry>>, i: int)
    requires
        0 <= i <= blocks.len(),
    ensures
        all_of(blocks.take(i)).len() <= all_of(blocks).len(),
        all_of(blocks.take(i)) == all_of(blocks).take(all_of(blocks.take(i)).len() as int),
    decreases blocks.len(),
{
    let x = all_of(blocks.take(i));
    if i == blocks.len() {
        assert(blocks.take(i) =~= blocks);
        assert(x.take(x.len() as int) =~= x);
    } else {
        assert(blocks.drop_last().take(i) =~= blocks.take(i));
        lemma_all_prefix(blocks.drop_last(), i);
        let y = all_of(blocks.drop_last());
        assert((y + blocks.last()).take(x.len() as int) =~= y.take(x.len() as int));
    }
}

/// Reading all of a table file gives the entries that it was made of.
pub proof fn law_table_round_trip(blocks: Seq<Seq<RawEntry>>, filter: Seq<u8>)
    requires
        table_fits(blocks, filter),
    ensures
        entries_from(table_bytes(blocks, filter), handles(blocks), 0) == Ok::<
            Seq<RawEntry>,
            ErrorView,
        >(all_of(blocks)),
{
    law_table_blocks(blocks, filter);
    lemma_entries_from(blocks, table_bytes(blocks, filter), 0);
    assert(blocks.take(0) =~= Seq::<Seq<RawEntry>>::empty());
    assert(all_of(blocks).skip(0) =~= all_of(blocks));
}

/// All entries of a table file as it is made can be read.
pub proof fn law_all_readable(blocks: Seq<Seq<RawEntry>>, filter: Seq<u8>)
    requires
        table_fits(blocks, filter),
    ensures
        readable_entries(table_bytes(blocks, filter), handles(blocks), blocks.len()) == all_of(
            blocks,
        ),
{
    law_table_blocks(blocks, filter);
    lemma_readable(blocks, table_bytes(blocks, filter), blocks.len());
    assert(blocks.take(blocks.len() as int) =~= blocks);
}

proof fn lemma_readable(blocks: Seq<Seq<RawEntry>>, t: Seq<u8>, n: nat)
    requires
        n <= blocks.len(),
        forall|i: int|
            0 <= i < blocks.len() ==> block_at(
                t,
                (#[trigger] handles(blocks)[i]).1 as nat,
                handles(blocks)[i].2 as nat,
            ) == Ok::<Seq<RawEntry>, ErrorView>(blocks[i]),
    ensures
        readable_entries(t, handles(blocks), n) == all_of(blocks.take(n as int)),
    decreases n,
{
    if n > 0 {
        lemma_readable(blocks, t, (n - 1) as nat);
        let h = handles(blocks)[n - 1];
        assert(block_at(t, h.1 as nat, h.2 as nat) == Ok::<Seq<RawEntry>, ErrorView>(
            blocks[n - 1],
        ));
        assert(blocks.take(n as int).drop_last() =~= blocks.take(n - 1));
    } else {
        assert(all_of(blocks.take(0)) =~= Seq::<RawEntry>::empty());
    }
}

#[verifier::rlimit(40)]
proof fn lemma_entries_from(blocks: Seq<Seq<RawEntry>>, t: Seq<u8>, i: nat)
    requires
        i <= blocks.len(),
        forall|i: int|
            0 <= i < blocks.len() ==> block_at(
                t,
                (#[trigger] handles(blocks)[i]).1 as nat,
                handles(blocks)[i].2 as nat,
            ) == Ok::<Seq<RawEntry>, ErrorView>(blocks[i]),
    ensures
        entries_from(t, handles(blocks), i) == Ok::<Seq<RawEntry>, ErrorView>(
            all_of(blocks).skip(block_start(blocks, i as int) as int),
        ),
    decreases blocks.len() - i,
{
    let all = all_of(blocks);
    let hs = handles(blocks);
    if i < blocks.len() {
        lemma_entries_from(blocks, t, i + 1);
        lemma_block_start(blocks, i as int);
        let x = block_start(blocks, i as int) as int;
        let y = block_start(blocks, (i + 1) as int) as int;
        assert(hs[i as int] == handle_of(blocks, i as int));
        assert(all.skip(x) =~= all.subrange(x, y) + all.skip(y));
    } else {
        assert(blocks.take(i as int) =~= blocks);
        assert(all.skip(all.len() as int) =~= Seq::<RawEntry>::empty());
    }
}

/// Tells whether `best` is the newest visible version of a user key among the first `n` entries.
spec fn newest_of(es: Entries, n: int, key: Seq<u8>, at: u64, best: Best) -> bool {
    match best {
        Some((s, v)) => {
            &&& s <= at
            &&& exists|j: int|
                0 <= j < n && (#[trigger] es[j]).0 == (key, s) && v == value_bytes(es[j].1)
            &&& forall|j: int|
                0 <= j < n && (#[trigger] es[j]).0.0 == key && es[j].0.1 <= at ==> es[j].0.1 <= s
        },
        None => forall|j: int|
            0 <= j < n && (#[trigger] es[j]).0.0 == key ==> es[j].0.1 > at,
    }
}

proof fn lemma_past_key(es: Entries, i: int, n: int, key: Seq<u8>, at: u64, best: Best)
    requires
        0 <= i < es.len(),
        i <= n <= es.len(),
        entries_sorted(es),
        lex_lt(key, es[i].0.0),
        newest_of(es, i, key, at, best),
    ensures
        newest_of(es, n, key, at, best),
{
    assert forall|j: int| i <= j < n implies (#[trigger] es[j]).0.0 != key by {
        if j > i {
            assert(key_lt(es[i].0, es[j].0));
        }
        if es[j].0.0 == key {
            lemma_lex_irreflexive(key);
            lemma_lex_asymmetric(key, es[i].0.0);
        }
    }
    assert forall|j: int| 0 <= j < n && (#[trigger] es[j]).0.0 == key implies j < i by {}
}

proof fn lemma_best_in_block(
    es: Entries,
    start: int,
    end: int,
    i: nat,
    key: Seq<u8>,
    at: u64,
    best: Best,
)
    requires
        0 <= start <= end <= es.len(),
        i <= end - start,
        entries_sorted(es),
        newest_of(es, start + i, key, at, best),
    ensures
        newest_of(
            es,
            end,
            key,
            at,
            best_in_block(raw_entries(es).subrange(start, end), i, key, at, best),
        ),
    decreases end - start - i,
{
    let raw = raw_entries(es).subrange(start, end);
    if i < raw.len() {
        let e = es[start + i];
        law_key_round_trip(e.0);
        assert(raw[i as int] == raw_entry(e));
        let k = raw[i as int].0;
        assert(user_part(k) == e.0.0 && seq_part(k) == e.0.1);
        if user_part(k) == key && seq_part(k) <= at {
            let b: Best = if best is None || seq_part(k) > (best->0).0 {
                Some((seq_part(k), raw[i as int].1))
            } else {
                best
            };
            assert(newest_of(es, start + i + 1, key, at, b)) by {
                assert(es[start + i].0 == (key, e.0.1));
            }
            lemma_best_in_block(es, start, end, i + 1, key, at, b);
        } else if lex_lt(key, user_part(k)) {
            lemma_past_key(es, start + i, end, key, at, best);
        } else {
            lemma_best_in_block(es, start, end, i + 1, key, at, best);
        }
    }
}

proof fn lemma_best_in_table(
    blocks: Seq<Seq<RawEntry>>,
    t: Seq<u8>,
    es: Entries,
    i: nat,
    key: Seq<u8>,
    at: u64,
    best: Best,
)
    requires
        i <= blocks.len(),
        no_empty_block(blocks),
        all_of(blocks) == raw_entries(es),
        entries_sorted(es),
        newest_of(es, block_start(blocks, i as int) as int, key, at, best),
        forall|i: int|
            0 <= i < blocks.len() ==> block_at(
                t,
                (#[trigger] handles(blocks)[i]).1 as nat,
                handles(blocks)[i].2 as nat,
            ) == Ok::<Seq<RawEntry>, ErrorView>(blocks[i]),
    ensures
        best_in_table(t, handles(blocks), i, key, at, best) is Ok,
        newest_of(
            es,
            es.len() as int,
            key,
            at,
            best_in_table(t, handles(blocks), i, key, at, best)->Ok_0,
        ),
    decreases blocks.len() - i,
{
    let hs = handles(blocks);
    if i < blocks.len() {
        lemma_block_start(blocks, i as int);
        let x = block_start(blocks, i as int) as int;
        let y = block_start(blocks, (i + 1) as int) as int;
        let h = hs[i as int];
        assert(h == handle_of(blocks, i as int));
        assert(blocks[i as int].len() > 0);
        assert(blocks[i as int][0] == all_of(blocks)[x]);
        assert(h.0 == key_bytes(es[x].0));
        law_key_round_trip(es[x].0);
        if lex_lt(key, user_part(h.0)) {
            lemma_past_key(es, x, es.len() as int, key, at, best);
        } else {
            lemma_best_in_block(es, x, y, 0, key, at, best);
            lemma_best_in_table(
                blocks,
                t,
                es,
                i + 1,
                key,
                at,
                best_in_block(blocks[i as int], 0, key, at, best),
            );
        }
    } else {
        assert(blocks.take(i as int) =~= blocks);
    }
}

/// What a lookup in versions gives, as the bytes of a value.
pub open spec fn found_bytes(v: Option<ValueView>) -> Option<Seq<u8>> {
    match v {
        Some(x) => Some(value_bytes(x)),
        None => None,
    }
}

/// A lookup in a table file finds what a lookup in the versions finds that it was made of.
pub proof fn law_table_lookup(
    blocks: Seq<Seq<RawEntry>>,
    filter: Seq<u8>,
    es: Entries,
    m: Versions,
    key: Seq<u8>,
    at: u64,
)
    requires
        table_fits(blocks, filter),
        all_of(blocks) == raw_entries(es),
        entries_sorted(es),
        entries_list(es, m),
    ensures
        table_lookup(table_bytes(blocks, filter), handles(blocks), key, at) == Ok::<
            Option<Seq<u8>>,
            ErrorView,
        >(found_bytes(lookup_at(m, key, at))),
{
    law_table_blocks(blocks, filter);
    let t = table_bytes(blocks, filter);
    assert(blocks.take(0) =~= Seq::<Seq<RawEntry>>::empty());
    assert(newest_of(es, 0, key, at, None));
    lemma_best_in_table(blocks, t, es, 0, key, at, None);
    let best = best_in_table(t, handles(blocks), 0, key, at, None)->Ok_0;
    match best {
        Some((s, v)) => {
            let j = choose|j: int|
                0 <= j < es.len() && (#[trigger] es[j]).0 == (key, s) && v == value_bytes(es[j].1);
            assert(m.contains_key(es[j].0));
            assert forall|u: u64| u <= at && #[trigger] m.contains_key((key, u)) implies u <= s by {
                let i = choose|i: int| 0 <= i < es.len() && (#[trigger] es[i]).0 == (key, u);
                assert(es[i].0.1 <= s);
            }
            lemma_newest_at(m, key, at, s);
        },
        None => {
            lemma_newest_cases(m, key, at);
            if newest_at(m, key, at) is Some {
                let u = newest_at(m, key, at)->0;
                let i = choose|i: int| 0 <= i < es.len() && (#[trigger] es[i]).0 == (key, u);
                assert(es[i].0.1 > at);
            }
        },
    }
}

/// Tells whether no version of a user key comes after one of a greater user key.
pub open spec fn stays_past(es: Seq<RawEntry>, key: Seq<u8>) -> bool {
    forall|i: int, j: int|
        0 <= i < j < es.len() && lex_lt(key, user_part((#[trigger] es[i]).0)) ==> user_part(
            (#[trigger] es[j]).0,
        ) != key
}

/// Tells whether `best` is the newest visible version of a user key among the first `n` entries.
pub open spec fn newest_among(es: Seq<RawEntry>, n: int, key: Seq<u8>, at: u64, best: Best) -> bool {
    match best {
        Some((s, v)) => {
            &&& s <= at
            &&& exists|j: int|
                0 <= j < n && user_part((#[trigger] es[j]).0) == key && seq_part(es[j].0) == s
                    && es[j].1 == v
            &&& forall|j: int|
                0 <= j < n && user_part((#[trigger] es[j]).0) == key && seq_part(es[j].0) <= at
                    ==> seq_part(es[j].0) <= s
        },
        None => forall|j: int|
            0 <= j < n && user_part((#[trigger] es[j]).0) == key ==> seq_part(es[j].0) > at,
    }
}

proof fn lemma_past_among(es: Seq<RawEntry>, i: int, n: int, key: Seq<u8>, at: u64, best: Best)
    requires
        0 <= i < es.len(),
        i <= n <= es.len(),
        stays_past(es, key),
        lex_lt(key, user_part(es[i].0)),
        newest_among(es, i, key, at, best),
    ensures
        newest_among(es, n, key, at, best),
{
    lemma_lex_irreflexive(key);
    assert forall|j: int| 0 <= j < n && user_part((#[trigger] es[j]).0) == key implies j < i by {
        if j > i {
            assert(user_part(es[i].0) != key);
        }
    }
}

proof fn lemma_block_among(
    es: Seq<RawEntry>,
    start: int,
    end: int,
    i: nat,
    key: Seq<u8>,
    at: u64,
    best: Best,
)
    requires
        0 <= start <= end <= es.len(),
        i <= end - start,
        stays_past(es, key),
        forall|j: int| 0 <= j < es.len() ==> is_key((#[trigger] es[j]).0),
        newest_among(es, start + i, key, at, best),
    ensures
        newest_among(es, end, key, at, best_in_block(es.subrange(start, end), i, key, at, best)),
    decreases end - start - i,
{
    let part = es.subrange(start, end);
    if i < part.len() {
        let e = es[start + i];
        assert(part[i as int] == e);
        let k = e.0;
        if user_part(k) == key && seq_part(k) <= at {
            let b: Best = if best is None || seq_part(k) > (best->0).0 {
                Some((seq_part(k), e.1))
            } else {
                best
            };
            assert(newest_among(es, start + i + 1, key, at, b)) by {
                assert(user_part(es[start + i].0) == key);
            }
            lemma_block_among(es, start, end, i + 1, key, at, b);
        } else if lex_lt(key, user_part(k)) {
            lemma_past_among(es, start + i, end, key, at, best);
        } else {
            lemma_block_among(es, start, end, i + 1, key, at, best);
        }
    }
}

proof fn lemma_table_among(
    blocks: Seq<Seq<RawEntry>>,
    t: Seq<u8>,
    i: nat,
    key: Seq<u8>,
    at: u64,
    best: Best,
)
    requires
        i <= blocks.len(),
        no_empty_block(blocks),
        stays_past(all_of(blocks), key),
        forall|j: int|
            0 <= j < all_of(blocks).len() ==> is_key((#[trigger] all_of(blocks)[j]).0),
        newest_among(all_of(blocks), block_start(blocks, i as int) as int, key, at, best),
        forall|i: int|
            0 <= i < blocks.len() ==> block_at(
                t,
                (#[trigger] handles(blocks)[i]).1 as nat,
                handles(blocks)[i].2 as nat,
            ) == Ok::<Seq<RawEntry>, ErrorView>(blocks[i]),
    ensures
        best_in_table(t, handles(blocks), i, key, at, best) is Ok,
        newest_among(
            all_of(blocks),
            all_of(blocks).len() as int,
            key,
            at,
            best_in_table(t, handles(blocks), i, key, at, best)->Ok_0,
        ),
    decreases blocks.len() - i,
{
    let hs = handles(blocks);
    let es = all_of(blocks);
    if i < blocks.len() {
        lemma_block_start(blocks, i as int);
        let x = block_start(blocks, i as int) as int;
        let y = block_start(blocks, (i + 1) as int) as int;
        let h = hs[i as int];
        assert(h == handle_of(blocks, i as int));
        assert(blocks[i as int].len() > 0);
        assert(blocks[i as int][0] == es[x]);
        if lex_lt(key, user_part(h.0)) {
            lemma_past_among(es, x, es.len() as int, key, at, best);
        } else {
            lemma_block_among(es, x, y, 0, key, at, best);
            lemma_table_among(
                blocks,
                t,
                i + 1,
                key,
                at,
                best_in_block(blocks[i as int], 0, key, at, best),
            );
        }
    } else {
        assert(blocks.take(i as int) =~= blocks);
    }
}

/// The search of a table file for a user key gives its newest visible version.
#[verifier::rlimit(40)]
pub proof fn law_table_newest(
    blocks: Seq<Seq<RawEntry>>,
    filter: Seq<u8>,
    key: Seq<u8>,
    at: u64,
)
    requires
        table_fits(blocks, filter),
        stays_past(all_of(blocks), key),
        forall|j: int|
            0 <= j < all_of(blocks).len() ==> is_key((#[trigger] all_of(blocks)[j]).0),
    ensures
        best_in_table(table_bytes(blocks, filter), handles(blocks), 0, key, at, None) is Ok,
        newest_among(
            all_of(blocks),
            all_of(blocks).len() as int,
            key,
            at,
            best_in_table(
                table_bytes(blocks, filter),
                handles(blocks),
                0,
                key,
                at,
                None,
            )->Ok_0,
        ),
{
    law_table_blocks(blocks, filter);
    assert(blocks.take(0) =~= Seq::<Seq<RawEntry>>::empty());
    lemma_table_among(blocks, table_bytes(blocks, filter), 0, key, at, None);
}

/// Tells whether the first keys of data blocks come in ascending order.
pub open spec fn index_sorted(index: Seq<Handle>) -> bool {
    forall|i: int, j: int|
        0 <= i < j < index.len() ==> lex_lt((#[trigger] index[i]).0, (#[trigger] index[j]).0)
}

/// Tells whether a data block is the last whose first key is at or before a key.
pub open spec fn is_last_at_or_before(index: Seq<Handle>, key: Seq<u8>, r: Option<nat>) -> bool {
    match r {
        Some(i) => {
            &&& i < index.len()
            &&& lex_le(index[i as int].0, key)
            &&& forall|j: int| i < j < index.len() ==> lex_lt(key, (#[trigger] index[j]).0)
        },
        None => forall|j: int| 0 <= j < index.len() ==> lex_lt(key, (#[trigger] index[j]).0),
    }
}

proof fn lemma_halve(index: Seq<Handle>, key: Seq<u8>, lo: nat, hi: nat, best: Option<nat>)
    requires
        index_sorted(index),
        lo <= hi <= index.len(),
        hi < index.len() ==> lex_lt(key, index[hi as int].0),
        match best {
            Some(i) => lo == i + 1 && lex_le(index[i as int].0, key),
            None => lo == 0 || (lo < hi && lex_le(index[lo as int].0, key)),
        },
    ensures
        is_last_at_or_before(index, key, halve(index, key, lo, hi, best)),
    decreases hi - lo,
{
    if lo >= hi {
        assert forall|j: int| lo <= j < index.len() implies lex_lt(key, (#[trigger] index[j]).0) by {
            if j > hi {
                lemma_lex_lt_le(key, index[hi as int].0, index[j].0);
            }
        }
    } else {
        let mid = lo + (hi - lo) as nat / 2;
        if lex_le(index[mid as int].0, key) {
            lemma_halve(index, key, mid + 1, hi, Some(mid));
        } else {
            lemma_lex_total(index[mid as int].0, key);
            if best is None && lo > 0 && mid == lo {
                assert(false);
            }
            lemma_halve(index, key, lo, mid, best);
        }
    }
}

/// Whatever range of data blocks is predicted, the one found is the last whose first key is at or
/// before the key.
pub proof fn law_prediction_does_not_matter(index: Seq<Handle>, key: Seq<u8>, lo: nat, hi: nat)
    requires
        index_sorted(index),
    ensures
        is_last_at_or_before(index, key, find_block(index, key, lo, hi)),
        find_block(index, key, lo, hi) == find_block(index, key, 0, index.len()),
{
    lemma_find_block(index, key, lo, hi);
    lemma_find_block(index, key, 0, index.len());
    let a = find_block(index, key, lo, hi);
    let b = find_block(index, key, 0, index.len());
    if a != b {
        if a is Some && b is Some {
            let x = a->0;
            let y = b->0;
            if x < y {
                lemma_lex_asymmetric_le(index[y as int].0, key);
            } else {
                lemma_lex_asymmetric_le(index[x as int].0, key);
            }
        } else if a is Some {
            lemma_lex_asymmetric_le(index[a->0 as int].0, key);
        } else {
            lemma_lex_asymmetric_le(index[b->0 as int].0, key);
        }
    }
}

proof fn lemma_find_block(index: Seq<Handle>, key: Seq<u8>, lo: nat, hi: nat)
    requires
        index_sorted(index),
    ensures
        is_last_at_or_before(index, key, find_block(index, key, lo, hi)),
{
    let n = index.len();
    let h = if hi <= n {
        hi
    } else {
        n
    };
    let (a, b) = search_range(index, key, lo, hi);
    if lo < h {
        if lex_lt(key, index[lo as int].0) {
            if b < n {
                assert(lex_lt(index[lo as int].0, index[b as int].0));
                lemma_lex_lt_le(key, index[lo as int].0, index[b as int].0);
            }
        } else {
            lemma_lex_total(key, index[lo as int].0);
            assert(lex_le(index[lo as int].0, key));
            if lex_lt(index[h - 1].0, key) && h < n {
            } else {
                if lo > 0 {
                    assert(lex_lt(index[lo - 1].0, index[lo as int].0));
                    lemma_lex_lt_le(index[lo - 1].0, index[lo as int].0, key);
                }
                if b < n {
                    lemma_lex_total(key, index[h - 1].0);
                    assert(lex_lt(index[h - 1].0, index[b as int].0));
                    lemma_lex_le_lt(key, index[h - 1].0, index[b as int].0);
                }
            }
        }
    }
    lemma_halve(index, key, a, b, None);
}

proof fn lemma_index_sorted(blocks: Seq<Seq<RawEntry>>)
    requires
        no_empty_block(blocks),
        raw_sorted(all_of(blocks)),
    ensures
        index_sorted(handles(blocks)),
{
    let hs = handles(blocks);
    let all = all_of(blocks);
    assert forall|i: int, j: int| 0 <= i < j < hs.len() implies lex_lt(
        (#[trigger] hs[i]).0,
        (#[trigger] hs[j]).0,
    ) by {
        lemma_block_start(blocks, i);
        lemma_block_start(blocks, j);
        lemma_starts_ascend(blocks, i, j);
        assert(hs[i] == handle_of(blocks, i));
        assert(hs[j] == handle_of(blocks, j));
        assert(blocks[i][0] == all[block_start(blocks, i) as int]);
        assert(blocks[j][0] == all[block_start(blocks, j) as int]);
    }
}

proof fn lemma_starts_ascend(blocks: Seq<Seq<RawEntry>>, i: int, j: int)
    requires
        0 <= i < j <= blocks.len(),
        no_empty_block(blocks),
    ensures
        block_start(blocks, i) + blocks[i].len() <= block_start(blocks, j),
    decreases j - i,
{
    lemma_block_start(blocks, j - 1);
    assert(blocks[j - 1].len() > 0);
    if i < j - 1 {
        lemma_starts_ascend(blocks, i, j - 1);
    }
}

proof fn lemma_find_in_present(es: Seq<RawEntry>, j: int)
    requires
        raw_sorted(es),
        0 <= j < es.len(),
    ensures
        find_in(es, es[j].0) == Some(es[j].1),
    decreases es.len(),
{
    if j > 0 {
        assert(lex_lt(es[0].0, es[j].0));
        lemma_lex_asymmetric(es[0].0, es[j].0);
        lemma_lex_irreflexive(es[j].0);
        let rest = es.drop_first();
        assert(rest[j - 1] == es[j]);
        lemma_find_in_present(rest, j - 1);
    }
}

proof fn lemma_find_in_absent(es: Seq<RawEntry>, key: Seq<u8>)
    requires
        forall|i: int| 0 <= i < es.len() ==> (#[trigger] es[i]).0 != key,
    ensures
        find_in(es, key) is None,
    decreases es.len(),
{
    if es.len() > 0 {
        lemma_find_in_absent(es.drop_first(), key);
    }
}

/// The data block that holds the `j`-th entry.
proof fn lemma_block_of(blocks: Seq<Seq<RawEntry>>, j: int, n: int) -> (b: int)
    requires
        0 <= n <= blocks.len(),
        0 <= j < block_start(blocks, n),
    ensures
        0 <= b < n,
        block_start(blocks, b) <= j < block_start(blocks, b) + blocks[b].len(),
    decreases n,
{
    if n == 0 {
        assert(blocks.take(0) =~= Seq::<Seq<RawEntry>>::empty());
        0
    } else {
        lemma_block_start(blocks, n - 1);
        if j < block_start(blocks, n - 1) {
            lemma_block_of(blocks, j, n - 1)
        } else {
            n - 1
        }
    }
}

proof fn lemma_holding_block(blocks: Seq<Seq<RawEntry>>, j: int, r: Option<nat>) -> (b: int)
    requires
        no_empty_block(blocks),
        raw_sorted(all_of(blocks)),
        0 <= j < all_of(blocks).len(),
        is_last_at_or_before(handles(blocks), all_of(blocks)[j].0, r),
    ensures
        0 <= b < blocks.len(),
        r == Some(b as nat),
        block_start(blocks, b) <= j < block_start(blocks, b) + blocks[b].len(),
{
    let all = all_of(blocks);
    let hs = handles(blocks);
    let key = all[j].0;
    assert(blocks.take(blocks.len() as int) =~= blocks);
    let b = lemma_block_of(blocks, j, blocks.len() as int);
    lemma_block_start(blocks, b);
    let x = block_start(blocks, b) as int;
    assert(hs[b] == handle_of(blocks, b));
    assert(blocks[b][0] == all[x]);
    assert(lex_le(hs[b].0, key));
    lemma_lex_asymmetric_le(hs[b].0, key);
    match r {
        None => {
            assert(lex_lt(key, hs[b].0));
        },
        Some(i) => {
            if i < b {
                assert(lex_lt(key, hs[b].0));
            } else if i > b {
                lemma_block_start(blocks, i as int);
                lemma_starts_ascend(blocks, b, i as int);
                assert(hs[i as int] == handle_of(blocks, i as int));
                assert(blocks[i as int].len() > 0);
                assert(blocks[i as int][0] == all[block_start(blocks, i as int) as int]);
                assert(lex_lt(key, hs[i as int].0));
                lemma_lex_asymmetric_le(hs[i as int].0, key);
            }
        },
    }
    b
}

proof fn lemma_part_sorted(es: Seq<RawEntry>, a: int, b: int)
    requires
        raw_sorted(es),
        0 <= a <= b <= es.len(),
    ensures
        raw_sorted(es.subrange(a, b)),
{
}

proof fn lemma_block_value(blocks: Seq<Seq<RawEntry>>, j: int, b: int)
    requires
        0 <= b < blocks.len(),
        raw_sorted(all_of(blocks)),
        0 <= j < all_of(blocks).len(),
        block_start(blocks, b) <= j < block_start(blocks, b) + blocks[b].len(),
    ensures
        find_in(blocks[b], all_of(blocks)[j].0) == Some(all_of(blocks)[j].1),
{
    let all = all_of(blocks);
    lemma_block_start(blocks, b);
    let x = block_start(blocks, b) as int;
    let y = block_start(blocks, b + 1) as int;
    lemma_part_sorted(all, x, y);
    assert(blocks[b][j - x] == all[j]);
    lemma_find_in_present(blocks[b], j - x);
}

proof fn lemma_table_get(blocks: Seq<Seq<RawEntry>>, t: Seq<u8>, j: int, lo: nat, hi: nat)
    requires
        no_empty_block(blocks),
        raw_sorted(all_of(blocks)),
        0 <= j < all_of(blocks).len(),
        forall|i: int|
            0 <= i < blocks.len() ==> block_at(
                t,
                (#[trigger] handles(blocks)[i]).1 as nat,
                handles(blocks)[i].2 as nat,
            ) == Ok::<Seq<RawEntry>, ErrorView>(blocks[i]),
    ensures
        table_get(t, handles(blocks), all_of(blocks)[j].0, lo, hi) == Ok::<
            Option<Seq<u8>>,
            ErrorView,
        >(Some(all_of(blocks)[j].1)),
{
    let hs = handles(blocks);
    let key = all_of(blocks)[j].0;
    lemma_index_sorted(blocks);
    law_prediction_does_not_matter(hs, key, lo, hi);
    let b = lemma_holding_block(blocks, j, find_block(hs, key, lo, hi));
    lemma_block_value(blocks, j, b);
    assert(block_at(t, hs[b].1 as nat, hs[b].2 as nat) == Ok::<Seq<RawEntry>, ErrorView>(
        blocks[b],
    ));
}

/// Every entry of a table file is found by its key, whatever range of blocks is predicted.
pub proof fn law_table_get(
    blocks: Seq<Seq<RawEntry>>,
    filter: Seq<u8>,
    j: int,
    lo: nat,
    hi: nat,
)
    requires
        table_fits(blocks, filter),
        raw_sorted(all_of(blocks)),
        0 <= j < all_of(blocks).len(),
    ensures
        table_get(
            table_bytes(blocks, filter),
            handles(blocks),
            all_of(blocks)[j].0,
            lo,
            hi,
        ) == Ok::<Option<Seq<u8>>, ErrorView>(Some(all_of(blocks)[j].1)),
{
    law_table_blocks(blocks, filter);
    lemma_table_get(blocks, table_bytes(blocks, filter), j, lo, hi);
}

/// A key that no entry of a table file has is not found.
#[verifier::rlimit(40)]
pub proof fn law_table_get_absent(
    blocks: Seq<Seq<RawEntry>>,
    filter: Seq<u8>,
    key: Seq<u8>,
    lo: nat,
    hi: nat,
)
    requires
        table_fits(blocks, filter),
        raw_sorted(all_of(blocks)),
        forall|j: int| 0 <= j < all_of(blocks).len() ==> (#[trigger] all_of(blocks)[j]).0 != key,
    ensures
        table_get(table_bytes(blocks, filter), handles(blocks), key, lo, hi) == Ok::<
            Option<Seq<u8>>,
            ErrorView,
        >(None),
{
    let all = all_of(blocks);
    let hs = handles(blocks);
    law_table_blocks(blocks, filter);
    lemma_index_sorted(blocks);
    law_prediction_does_not_matter(hs, key, lo, hi);
    let r = find_block(hs, key, lo, hi);
    if r is Some {
        let i = r->0 as int;
        lemma_block_start(blocks, i);
        let x = block_start(blocks, i) as int;
        assert(hs[i] == handle_of(blocks, i));
        assert forall|p: int| 0 <= p < blocks[i].len() implies (#[trigger] blocks[i][p]).0
            != key by {
            assert(blocks[i][p] == all[x + p]);
        }
        lemma_find_in_absent(blocks[i], key);
    }
}

/// The index of a table file is read only where the file ends in a footer with the right mark, and
/// the block that the footer points at is whole.
pub proof fn law_footer_checked(data: Seq<u8>)
    requires
        table_index(data) is Ok,
    ensures
        ({
            let foot = data.len() - 48;
            let off = le64_at(data, foot) as int;
            let size = le32_at(data, foot + 8) as int;
            &&& foot >= 0
            &&& le64_at(data, foot + 40) == FOOTER_MAGIC
            &&& off + size <= data.len()
            &&& block_content(data.subrange(off, off + size)) is Ok
            &&& table_index(data)->Ok_0.len() == block_content(
                data.subrange(off, off + size),
            )->Ok_0.len()
        }),
{
}

/// Tells whether each entry that follows others in a block fits into it.
pub open spec fn filled_up(block: Seq<RawEntry>, size: nat) -> bool {
    forall|k: int|
        0 < k < block.len() ==> estimated_size(block.take(k), 16) + (#[trigger] block[k]).0.len()
            + block[k].1.len() + 10 <= size
}

/// Entries go into a block as long as it has room for them, and into the next one only where it
/// has not. Nothing is lost and nothing moves.
pub proof fn law_blocks_filled(es: Seq<RawEntry>, size: nat)
    ensures
        ({
            let bs = blocks_of(es, size);
            &&& all_of(bs) == es
            &&& no_empty_block(bs)
            &&& forall|i: int| 0 <= i < bs.len() ==> filled_up(#[trigger] bs[i], size)
            &&& forall|i: int|
                0 < i < bs.len() ==> estimated_size(bs[i - 1], 16) + (#[trigger] bs[i])[0].0.len()
                    + bs[i][0].1.len() + 10 > size
        }),
{
    lemma_blocks_of(es, size);
    lemma_laid_out_filled(es, size);
    let (blocks, current) = laid_out(es, size);
    let bs = blocks_of(es, size);
    let all = blocks.push(current);
    if current.len() == 0 {
        assert forall|i: int| 0 <= i < bs.len() implies filled_up(#[trigger] bs[i], size) by {
            assert(all[i] == bs[i]);
        }
        assert forall|i: int| 0 < i < bs.len() implies estimated_size(bs[i - 1], 16) + (
        #[trigger] bs[i])[0].0.len() + bs[i][0].1.len() + 10 > size by {
            assert(all[i] == bs[i] && all[i - 1] == bs[i - 1]);
            assert(bs[i].len() > 0);
        }
    } else {
        assert(bs == all);
    }
}

proof fn lemma_laid_out_filled(es: Seq<RawEntry>, size: nat)
    ensures
        ({
            let (blocks, current) = laid_out(es, size);
            let all = blocks.push(current);
            &&& forall|i: int| 0 <= i < all.len() ==> filled_up(#[trigger] all[i], size)
            &&& forall|i: int|
                0 < i < all.len() && (#[trigger] all[i]).len() > 0 ==> estimated_size(
                    all[i - 1],
                    16,
                ) + all[i][0].0.len() + all[i][0].1.len() + 10 > size
        }),
    decreases es.len(),
{
    if es.len() > 0 {
        lemma_laid_out_filled(es.drop_last(), size);
        let (blocks, current) = laid_out(es.drop_last(), size);
        let before = blocks.push(current);
        let e = es.last();
        if starts_block(current, e, size) {
            let all = before.push(seq![e]);
            assert forall|i: int| 0 <= i < all.len() implies filled_up(#[trigger] all[i], size) by {
                if i < before.len() {
                    assert(all[i] == before[i]);
                }
            }
            assert forall|i: int| 0 < i < all.len() && (#[trigger] all[i]).len() > 0 implies
                estimated_size(all[i - 1], 16) + all[i][0].0.len() + all[i][0].1.len() + 10
                > size by {
                assert(all[i - 1] == before[i - 1]);
                if i < before.len() {
                    assert(all[i] == before[i]);
                } else {
                    assert(all[i - 1] == current);
                }
            }
        } else {
            let next = current.push(e);
            let all = blocks.push(next);
            assert(filled_up(next, size)) by {
                assert(before[blocks.len() as int] == current);
                assert(filled_up(current, size));
                assert forall|k: int| 0 < k < next.len() implies estimated_size(
                    next.take(k),
                    16,
                ) + (#[trigger] next[k]).0.len() + next[k].1.len() + 10 <= size by {
                    if k < current.len() {
                        assert(next[k] == current[k]);
                        assert(next.take(k) =~= current.take(k));
                    } else {
                        assert(next.take(k) =~= current);
                    }
                }
            }
            assert forall|i: int| 0 <= i < all.len() implies filled_up(#[trigger] all[i], size) by {
                if i < blocks.len() {
                    assert(all[i] == before[i]);
                }
            }
            assert forall|i: int| 0 < i < all.len() && (#[trigger] all[i]).len() > 0 implies
                estimated_size(all[i - 1], 16) + all[i][0].0.len() + all[i][0].1.len() + 10
                > size by {
                assert(all[i - 1] == before[i - 1]);
                if i < blocks.len() {
                    assert(all[i] == before[i]);
                } else {
                    assert(before[i] == current);
                    if current.len() > 0 {
                        assert(next[0] == current[0]);
                    } else {
                        lemma_laid_out_nonempty(es.drop_last(), size);
                        assert(blocks.len() == 0);
                    }
                }
            }
        }
    }
}

proof fn lemma_laid_out_nonempty(es: Seq<RawEntry>, size: nat)
    ensures
        laid_out(es, size).1.len() == 0 ==> laid_out(es, size).0.len() == 0,
    decreases es.len(),
{
    if es.len() > 0 {
        lemma_laid_out_nonempty(es.drop_last(), size);
    }
}

} // verus!
