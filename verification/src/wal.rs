//! The write-ahead log.
//!
//! A record is written as one chunk or, where it does not fit into what is left of a segment, as
//! several. A chunk is a checksum (four bytes), a length (four bytes), a type (one byte) and the
//! payload. The checksum covers the type and the payload.
//!
//! What the log holds is what was appended to it: reading the segments from the start gives the
//! records back in order, and a synced log survives a crash.

use crate::checksum::{checksum, checksum_append, crc32c_of};
use crate::codec::{
    append_bytes, copy_bytes, copy_range, get_u32, lemma_le_fixed, le32, le32_at, put_u32,
};
use crate::disk::{ascending, Disk, FileId, Files};
use crate::error::{corruption, invalid_argument, Error, ErrorView};
use crate::text::{decimal, push_decimal, text_of};
use vstd::prelude::*;
use vstd::slice::slice_subrange;

verus! {

/// Size of a chunk's header: checksum, length and type.
pub const HEADER_SIZE: usize = 9;

/// Default size of a segment (64 MB).
pub const DEFAULT_SEGMENT_SIZE: u64 = 67_108_864;

/// What part of a record a chunk is.
#[derive(Debug, Clone, Copy, PartialEq, Eq, Structural)]
pub enum RecordType {
    /// All of it.
    Full,
    /// The first of several parts.
    First,
    /// A part between the first and the last.
    Middle,
    /// The last of several parts.
    Last,
}

/// The byte that stands for a type.
pub open spec fn type_code(t: RecordType) -> u8 {
    match t {
        RecordType::Full => 1,
        RecordType::First => 2,
        RecordType::Middle => 3,
        RecordType::Last => 4,
    }
}

/// The type that a byte stands for, if any.
pub open spec fn type_of_code(v: u8) -> Option<RecordType> {
    if v == 1 {
        Some(RecordType::Full)
    } else if v == 2 {
        Some(RecordType::First)
    } else if v == 3 {
        Some(RecordType::Middle)
    } else if v == 4 {
        Some(RecordType::Last)
    } else {
        None
    }
}

impl RecordType {
    /// The type that a byte stands for.
    pub fn from_u8(v: u8) -> (r: Option<Self>)
        ensures
            r == type_of_code(v),
    {
        match v {
            1 => Some(RecordType::Full),
            2 => Some(RecordType::First),
            3 => Some(RecordType::Middle),
            4 => Some(RecordType::Last),
            _ => None,
        }
    }

    /// The byte that stands for the type.
    pub fn to_u8(self) -> (r: u8)
        ensures
            r == type_code(self),
    {
        match self {
            RecordType::Full => 1,
            RecordType::First => 2,
            RecordType::Middle => 3,
            RecordType::Last => 4,
        }
    }
}

/// A record of the log.
#[derive(Debug, Clone)]
pub struct WalRecord {
    /// The payload.
    pub data: Vec<u8>,
}

impl WalRecord {
    /// Makes a record.
    pub fn new(data: Vec<u8>) -> (r: Self)
        ensures
            r.data == data,
    {
        WalRecord { data }
    }
}

/// Settings of the log.
#[derive(Debug, Clone, Copy)]
pub struct WalConfig {
    /// Largest size of a segment in bytes.
    pub segment_size: u64,
    /// Whether every chunk is synced as it is written.
    pub sync_on_write: bool,
}

impl Default for WalConfig {
    fn default() -> (r: Self)
        ensures
            r.segment_size == 64 * 1024 * 1024,
            !r.sync_on_write,
    {
        WalConfig { segment_size: DEFAULT_SEGMENT_SIZE, sync_on_write: false }
    }
}

/// A chunk: its type and its payload.
pub type Chunk = (RecordType, Seq<u8>);

/// The checksum of a chunk.
pub open spec fn chunk_crc(c: Chunk) -> u32 {
    crc32c_of(crc32c_of(0, seq![type_code(c.0)]), c.1)
}

/// The bytes of a chunk.
pub open spec fn chunk_bytes(c: Chunk) -> Seq<u8> {
    le32(chunk_crc(c)) + le32(c.1.len() as u32) + seq![type_code(c.0)] + c.1
}

/// The bytes of chunks that follow one another.
pub open spec fn encode_chunks(cs: Seq<Chunk>) -> Seq<u8>
    decreases cs.len(),
{
    if cs.len() == 0 {
        Seq::<u8>::empty()
    } else {
        encode_chunks(cs.drop_last()) + chunk_bytes(cs.last())
    }
}

/// What stands at a place of a segment.
pub enum ChunkRead {
    /// Nothing more: less than a header is left.
    End,
    /// Something that is not a chunk.
    Bad(ErrorView),
    /// A chunk.
    Good(Chunk),
}

/// The chunk at an offset of a segment.
pub open spec fn chunk_at(seg: Seq<u8>, off: nat) -> ChunkRead {
    if off + 9 > seg.len() {
        ChunkRead::End
    } else {
        let o = off as int;
        let crc = le32_at(seg, o);
        let len = le32_at(seg, o + 4);
        match type_of_code(seg[o + 8]) {
            None => ChunkRead::Bad(
                ErrorView::Corruption("invalid record type: "@ + decimal(seg[o + 8] as nat)),
            ),
            Some(kind) => if off + 9 + len > seg.len() {
                ChunkRead::Bad(ErrorView::Corruption("record extends past segment end"@))
            } else {
                let c = (kind, seg.subrange(o + 9, o + 9 + len));
                if crc != chunk_crc(c) {
                    ChunkRead::Bad(
                        ErrorView::Corruption(
                            "CRC mismatch: expected "@ + decimal(chunk_crc(c) as nat) + ", got "@
                                + decimal(crc),
                        ),
                    )
                } else {
                    ChunkRead::Good(c)
                }
            },
        }
    }
}

/// What reading a record gives.
pub type ReadOutcome = Result<Option<Seq<u8>>, ErrorView>;

/// The bytes of a segment from an offset on.
pub open spec fn rest_of(segs: Seq<Seq<u8>>, idx: nat, off: nat) -> nat {
    if idx < segs.len() && off < segs[idx as int].len() {
        (segs[idx as int].len() - off) as nat
    } else {
        0
    }
}

/// Reads one record from a place of the log, `acc` being what its chunks so far hold: what comes
/// out, and the place after it.
pub open spec fn read_from(
    segs: Seq<Seq<u8>>,
    idx: nat,
    off: nat,
    acc: Option<Seq<u8>>,
) -> (ReadOutcome, nat, nat)
    decreases segs.len() - idx, rest_of(segs, idx, off),
{
    if idx >= segs.len() {
        (Ok(None), idx, off)
    } else {
        match chunk_at(segs[idx as int], off) {
            ChunkRead::End => if acc is Some && idx + 1 >= segs.len() {
                (
                    Err(ErrorView::Corruption("incomplete chunked record at end of WAL"@)),
                    idx + 1,
                    0,
                )
            } else {
                read_from(segs, idx + 1, 0, acc)
            },
            ChunkRead::Bad(e) => (Err(e), idx, off),
            ChunkRead::Good(c) => {
                let next = off + 9 + c.1.len();
                match take_chunk(acc, c) {
                    Taken::Record(r) => (Ok(Some(r)), idx, next),
                    Taken::More(a) => read_from(segs, idx, next, Some(a)),
                    Taken::Wrong(e) => (Err(e), idx, next),
                }
            },
        }
    }
}

/// What a chunk makes of a record under way.
pub enum Taken {
    /// The record is complete.
    Record(Seq<u8>),
    /// The record goes on.
    More(Seq<u8>),
    /// The chunk does not belong here.
    Wrong(ErrorView),
}

/// Puts a chunk to what the chunks before it hold.
pub open spec fn take_chunk(acc: Option<Seq<u8>>, c: Chunk) -> Taken {
    match (c.0, acc) {
        (RecordType::Full, None) => Taken::Record(c.1),
        (RecordType::Full, Some(_)) => Taken::Wrong(
            ErrorView::Corruption("Full record while accumulating chunks"@),
        ),
        (RecordType::First, None) => Taken::More(c.1),
        (RecordType::First, Some(_)) => Taken::Wrong(
            ErrorView::Corruption("First record while accumulating chunks"@),
        ),
        (RecordType::Middle, Some(a)) => Taken::More(a + c.1),
        (RecordType::Middle, None) => Taken::Wrong(
            ErrorView::Corruption("Middle record without First"@),
        ),
        (RecordType::Last, Some(a)) => Taken::Record(a + c.1),
        (RecordType::Last, None) => Taken::Wrong(
            ErrorView::Corruption("Last record without First"@),
        ),
    }
}

/// All records from a place of the log to its end, and the error that ends them, if any.
pub open spec fn records_from(
    segs: Seq<Seq<u8>>,
    idx: nat,
    off: nat,
    acc: Option<Seq<u8>>,
) -> (Seq<Seq<u8>>, Option<ErrorView>)
    decreases segs.len() - idx, rest_of(segs, idx, off),
{
    if idx >= segs.len() {
        (Seq::empty(), None)
    } else {
        match chunk_at(segs[idx as int], off) {
            ChunkRead::End => if acc is Some && idx + 1 >= segs.len() {
                (
                    Seq::empty(),
                    Some(ErrorView::Corruption("incomplete chunked record at end of WAL"@)),
                )
            } else {
                records_from(segs, idx + 1, 0, acc)
            },
            ChunkRead::Bad(e) => (Seq::empty(), Some(e)),
            ChunkRead::Good(c) => {
                let next = off + 9 + c.1.len();
                match take_chunk(acc, c) {
                    Taken::Record(r) => {
                        let rest = records_from(segs, idx, next, None);
                        (seq![r] + rest.0, rest.1)
                    },
                    Taken::More(a) => records_from(segs, idx, next, Some(a)),
                    Taken::Wrong(e) => (Seq::empty(), Some(e)),
                }
            },
        }
    }
}

/// The records of a log, and the error that ends them, if any.
pub open spec fn log_records(segs: Seq<Seq<u8>>) -> (Seq<Seq<u8>>, Option<ErrorView>) {
    records_from(segs, 0, 0, None)
}

/// Reading one record is the first step of reading them all.
pub proof fn lemma_read_step(segs: Seq<Seq<u8>>, idx: nat, off: nat, acc: Option<Seq<u8>>)
    ensures
        ({
            let (out, i, o) = read_from(segs, idx, off, acc);
            let all = records_from(segs, idx, off, acc);
            match out {
                Ok(Some(r)) => {
                    let rest = records_from(segs, i, o, None);
                    &&& all == (seq![r] + rest.0, rest.1)
                    &&& idx <= i < segs.len()
                    &&& o <= segs[i as int].len()
                    &&& i > idx || (i == idx && o > off)
                },
                Ok(None) => all == (Seq::<Seq<u8>>::empty(), None::<ErrorView>) && i
                    >= segs.len(),
                Err(e) => all == (Seq::<Seq<u8>>::empty(), Some(e)),
            }
        }),
    decreases segs.len() - idx, rest_of(segs, idx, off),
{
    if idx < segs.len() {
        match chunk_at(segs[idx as int], off) {
            ChunkRead::End => {
                if !(acc is Some && idx + 1 >= segs.len()) {
                    lemma_read_step(segs, idx + 1, 0, acc);
                }
            },
            ChunkRead::Bad(e) => {},
            ChunkRead::Good(c) => {
                let next = off + 9 + c.1.len();
                match take_chunk(acc, c) {
                    Taken::Record(r) => {},
                    Taken::More(a) => {
                        lemma_read_step(segs, idx, next, Some(a));
                    },
                    Taken::Wrong(e) => {},
                }
            },
        }
    }
}

/// The records that chunks spell, and the error that ends them, if any.
pub open spec fn assemble(cs: Seq<Chunk>, acc: Option<Seq<u8>>) -> (
    Seq<Seq<u8>>,
    Option<ErrorView>,
)
    decreases cs.len(),
{
    if cs.len() == 0 {
        if acc is Some {
            (
                Seq::empty(),
                Some(ErrorView::Corruption("incomplete chunked record at end of WAL"@)),
            )
        } else {
            (Seq::empty(), None)
        }
    } else {
        match take_chunk(acc, cs[0]) {
            Taken::Record(r) => {
                let rest = assemble(cs.drop_first(), None);
                (seq![r] + rest.0, rest.1)
            },
            Taken::More(a) => assemble(cs.drop_first(), Some(a)),
            Taken::Wrong(e) => (Seq::empty(), Some(e)),
        }
    }
}

/// The chunks of segments, from chunk `j` of segment `i` on.
pub open spec fn chunks_from(css: Seq<Seq<Chunk>>, i: nat, j: nat) -> Seq<Chunk>
    decreases css.len() - i,
{
    if i >= css.len() {
        Seq::empty()
    } else {
        css[i as int].skip(j as int) + chunks_from(css, i + 1, 0)
    }
}

/// Tells whether segments hold chunks and nothing else.
pub open spec fn spell_segments(segs: Seq<Seq<u8>>, css: Seq<Seq<Chunk>>) -> bool {
    &&& segs.len() == css.len()
    &&& forall|i: int|
        0 <= i < segs.len() ==> #[trigger] segs[i] == encode_chunks(css[i]) && short_chunks(css[i])
}

/// Tells whether the length of every chunk fits its place in the header.
pub open spec fn short_chunks(cs: Seq<Chunk>) -> bool {
    forall|k: int| 0 <= k < cs.len() ==> (#[trigger] cs[k]).1.len() <= u32::MAX
}

proof fn lemma_chunk_at(pre: Seq<u8>, c: Chunk, post: Seq<u8>)
    requires
        c.1.len() <= u32::MAX,
    ensures
        chunk_at(pre + chunk_bytes(c) + post, pre.len()) == ChunkRead::Good(c),
        chunk_bytes(c).len() == 9 + c.1.len(),
{
    let s = pre + chunk_bytes(c) + post;
    let n = pre.len() as int;
    lemma_le_fixed(chunk_crc(c), 0);
    lemma_le_fixed(c.1.len() as u32, 0);
    assert(s.subrange(n, n + 4) =~= le32(chunk_crc(c)));
    assert(s.subrange(n + 4, n + 8) =~= le32(c.1.len() as u32));
    assert(s[n + 8] == type_code(c.0));
    assert(s.subrange(n + 9, n + 9 + c.1.len()) =~= c.1);
}

proof fn lemma_encode_split(cs: Seq<Chunk>, j: int)
    requires
        0 <= j <= cs.len(),
    ensures
        encode_chunks(cs) == encode_chunks(cs.take(j)) + encode_chunks(cs.skip(j)),
    decreases cs.len() - j,
{
    if j == cs.len() {
        assert(cs.take(j) =~= cs);
        assert(encode_chunks(cs.skip(j)) =~= Seq::<u8>::empty());
        assert(encode_chunks(cs) + Seq::<u8>::empty() =~= encode_chunks(cs));
    } else if cs.len() > 0 {
        let h = cs.drop_last();
        lemma_encode_split_last(cs, j);
    }
}

proof fn lemma_encode_split_last(cs: Seq<Chunk>, j: int)
    requires
        0 <= j < cs.len(),
    ensures
        encode_chunks(cs) == encode_chunks(cs.take(j)) + encode_chunks(cs.skip(j)),
    decreases cs.len(),
{
    let h = cs.drop_last();
    let b = chunk_bytes(cs.last());
    assert(cs.skip(j).drop_last() =~= h.skip(j));
    assert(cs.skip(j).last() == cs.last());
    assert(h.take(j) =~= cs.take(j));
    if j < h.len() {
        lemma_encode_split_last(h, j);
    } else {
        assert(h.take(j) =~= h);
        assert(encode_chunks(h.skip(j)) =~= Seq::<u8>::empty());
    }
    assert((encode_chunks(h.take(j)) + encode_chunks(h.skip(j))) + b =~= encode_chunks(h.take(j))
        + (encode_chunks(h.skip(j)) + b));
}

/// The chunk that stands at the end of the first `j` of a segment's chunks.
proof fn lemma_chunk_in_segment(cs: Seq<Chunk>, j: int)
    requires
        0 <= j <= cs.len(),
        short_chunks(cs),
    ensures
        ({
            let off = encode_chunks(cs.take(j)).len();
            if j < cs.len() {
                &&& chunk_at(encode_chunks(cs), off) == ChunkRead::Good(cs[j])
                &&& encode_chunks(cs.take(j + 1)).len() == off + 9 + cs[j].1.len()
            } else {
                chunk_at(encode_chunks(cs), off) is End
            }
        }),
{
    let pre = encode_chunks(cs.take(j));
    if j < cs.len() {
        lemma_encode_split(cs, j);
        let t = cs.skip(j);
        lemma_encode_split(t, 1);
        assert(t.take(1).drop_last() =~= Seq::<Chunk>::empty());
        assert(encode_chunks(Seq::<Chunk>::empty()) =~= Seq::<u8>::empty());
        assert(t.take(1).last() == cs[j]);
        assert(encode_chunks(t.take(1)) =~= chunk_bytes(cs[j]));
        let post = encode_chunks(t.skip(1));
        assert(encode_chunks(cs) =~= pre + chunk_bytes(cs[j]) + post);
        lemma_chunk_at(pre, cs[j], post);
        assert(cs.take(j + 1).drop_last() =~= cs.take(j));
    } else {
        assert(cs.take(j) =~= cs);
    }
}

/// Reading segments that hold chunks gives what the chunks spell.
proof fn lemma_records_spelled(
    segs: Seq<Seq<u8>>,
    css: Seq<Seq<Chunk>>,
    i: nat,
    j: nat,
    acc: Option<Seq<u8>>,
)
    requires
        spell_segments(segs, css),
        i <= css.len(),
        i < css.len() ==> j <= css[i as int].len(),
        i < css.len() || acc is None,
    ensures
        records_from(
            segs,
            i,
            if i < css.len() {
                encode_chunks(css[i as int].take(j as int)).len()
            } else {
                0
            },
            acc,
        ) == assemble(chunks_from(css, i, j), acc),
    decreases css.len() - i, (if i < css.len() {
        css[i as int].len() - j
    } else {
        0
    }),
{
    if i < css.len() {
        let cs = css[i as int];
        let off = encode_chunks(cs.take(j as int)).len();
        assert(segs[i as int] == encode_chunks(cs));
        lemma_chunk_in_segment(cs, j as int);
        let flat = chunks_from(css, i, j);
        if j < cs.len() {
            assert(flat[0] == cs[j as int]);
            assert(flat.drop_first() =~= chunks_from(css, i, j + 1));
            match take_chunk(acc, cs[j as int]) {
                Taken::Record(r) => {
                    lemma_records_spelled(segs, css, i, j + 1, None);
                },
                Taken::More(a) => {
                    lemma_records_spelled(segs, css, i, j + 1, Some(a));
                },
                Taken::Wrong(e) => {},
            }
        } else {
            assert(flat =~= chunks_from(css, i + 1, 0));
            if acc is Some && i + 1 >= segs.len() {
                assert(flat =~= Seq::<Chunk>::empty());
            } else {
                lemma_records_spelled(segs, css, i + 1, 0, acc);
                if i + 1 < css.len() {
                    assert(css[i as int + 1].take(0) =~= Seq::<Chunk>::empty());
                }
            }
        }
    }
}

/// The records of segments that hold chunks are those that the chunks spell.
pub proof fn lemma_log_spelled(segs: Seq<Seq<u8>>, css: Seq<Seq<Chunk>>)
    requires
        spell_segments(segs, css),
    ensures
        log_records(segs) == assemble(chunks_from(css, 0, 0), None),
{
    lemma_records_spelled(segs, css, 0, 0, None);
    if css.len() > 0 {
        assert(css[0].take(0) =~= Seq::<Chunk>::empty());
    }
}

/// Chunks after others that end with a record add their records to those of the others.
proof fn lemma_assemble_append(a: Seq<Chunk>, b: Seq<Chunk>, acc: Option<Seq<u8>>)
    requires
        assemble(a, acc).1 is None,
    ensures
        assemble(a + b, acc) == (
            assemble(a, acc).0 + assemble(b, None).0,
            assemble(b, None).1,
        ),
    decreases a.len(),
{
    if a.len() == 0 {
        assert(a + b =~= b);
        assert(Seq::<Seq<u8>>::empty() + assemble(b, None).0 =~= assemble(b, None).0);
    } else {
        assert((a + b).drop_first() =~= a.drop_first() + b);
        match take_chunk(acc, a[0]) {
            Taken::Record(r) => {
                lemma_assemble_append(a.drop_first(), b, None);
                assert(seq![r] + (assemble(a.drop_first(), None).0 + assemble(b, None).0)
                    =~= (seq![r] + assemble(a.drop_first(), None).0) + assemble(b, None).0);
            },
            Taken::More(x) => {
                lemma_assemble_append(a.drop_first(), b, Some(x));
            },
            Taken::Wrong(e) => {},
        }
    }
}

/// What is left of a segment.
pub open spec fn room(size: u64, off: nat) -> nat {
    if off <= size {
        (size - off) as nat
    } else {
        0
    }
}

/// The type of the next chunk of a record.
pub open spec fn part_type(first: bool, last: bool) -> RecordType {
    if first && last {
        RecordType::Full
    } else if first {
        RecordType::First
    } else if last {
        RecordType::Last
    } else {
        RecordType::Middle
    }
}

/// The chunks that what is left of a record is cut into, by the segment they go to: the segment
/// in use, then the ones after it.
pub open spec fn split_plan(size: u64, off: nat, data: Seq<u8>, first: bool) -> Seq<Seq<Chunk>>
    decreases
            data.len(),
            (if room(size, off) < 9 {
                1nat
            } else if room(size, off) == 9 {
                2
            } else {
                0
            }),
    when size > 9
{
    if data.len() == 0 {
        seq![Seq::<Chunk>::empty()]
    } else if room(size, off) < 9 {
        seq![Seq::<Chunk>::empty()] + split_plan(size, 0, data, first)
    } else {
        let free = (room(size, off) - 9) as nat;
        let n = if data.len() <= free {
            data.len()
        } else {
            free
        };
        let c = (part_type(first, n == data.len()), data.take(n as int));
        let rest = split_plan(size, off + 9 + n, data.skip(n as int), false);
        rest.update(0, seq![c] + rest[0])
    }
}

/// The chunks of a record, by the segment they go to: the segment in use, then the ones after it.
pub open spec fn append_plan(size: u64, off: nat, data: Seq<u8>) -> Seq<Seq<Chunk>> {
    if data.len() == 0 {
        if room(size, off) < 9 {
            seq![Seq::<Chunk>::empty(), seq![(RecordType::Full, data)]]
        } else {
            seq![seq![(RecordType::Full, data)]]
        }
    } else if data.len() + 9 <= room(size, off) {
        seq![seq![(RecordType::Full, data)]]
    } else {
        split_plan(size, off, data, true)
    }
}

/// The segment and the offset at which the next record begins: where the log ends, or at the
/// beginning of the next segment where there is no room for a header.
pub open spec fn append_place(size: u64, seg: u64, off: nat) -> (u64, u64) {
    if room(size, off) < 9 {
        ((seg + 1) as u64, 0)
    } else {
        (seg, off as u64)
    }
}

/// The first chunk of a record goes to where the record begins.
pub proof fn law_append_place(size: u64, seg: u64, off: nat, data: Seq<u8>)
    requires
        data.len() == 0 || size > 9,
        seg < u64::MAX,
    ensures
        ({
            let plan = append_plan(size, off, data);
            let skipped = append_place(size, seg, off).0 - seg;
            &&& skipped < plan.len()
            &&& plan[skipped].len() > 0
            &&& skipped == 1 ==> plan[0].len() == 0
        }),
{
    if data.len() > 0 && data.len() + 9 > room(size, off) {
        reveal_with_fuel(split_plan, 2);
        lemma_split_nonempty(size, 0, data, true);
        if room(size, off) >= 9 {
            let free = (room(size, off) - 9) as nat;
            let n = if data.len() <= free {
                data.len()
            } else {
                free
            };
            lemma_split_nonempty(size, off + 9 + n, data.skip(n as int), false);
        } else {
            let free = (room(size, 0) - 9) as nat;
            let n = if data.len() <= free {
                data.len()
            } else {
                free
            };
            lemma_split_nonempty(size, 9 + n, data.skip(n as int), false);
        }
    }
}

/// The files after groups of chunks are put to the segment `cur` and the ones after it.
pub open spec fn with_groups(live: Files, cur: u64, groups: Seq<Seq<Chunk>>) -> Files {
    Map::new(
        |id: FileId|
            live.contains_key(id) || (id matches FileId::Wal(n) && cur <= n < cur
                + groups.len()),
        |id: FileId|
            match id {
                FileId::Wal(n) => if cur <= n < cur + groups.len() {
                    (if n == cur {
                        live[id]
                    } else {
                        Seq::empty()
                    }) + encode_chunks(groups[n - cur])
                } else {
                    live[id]
                },
                _ => live[id],
            },
    )
}

/// Groups of chunks followed by others, the first of which goes to the same segment as the last.
pub open spec fn join_groups(a: Seq<Seq<Chunk>>, b: Seq<Seq<Chunk>>) -> Seq<Seq<Chunk>> {
    a.drop_last().push(a.last() + b[0]) + b.drop_first()
}

proof fn lemma_split_nonempty(size: u64, off: nat, data: Seq<u8>, first: bool)
    requires
        size > 9,
    ensures
        split_plan(size, off, data, first).len() > 0,
        split_plan(size, off, data, first).len() <= data.len() + 2,
        room(size, off) > 9 && data.len() > 0 ==> split_plan(size, off, data, first).len()
            <= data.len() + 1,
    decreases
            data.len(),
            (if room(size, off) < 9 {
                1nat
            } else if room(size, off) == 9 {
                2
            } else {
                0
            }),
{
    if data.len() == 0 {
    } else if room(size, off) < 9 {
        lemma_split_nonempty(size, 0, data, first);
    } else {
        let free = (room(size, off) - 9) as nat;
        let n = if data.len() <= free {
            data.len()
        } else {
            free
        };
        lemma_split_nonempty(size, off + 9 + n, data.skip(n as int), false);
    }
}

/// The chunks that a cut record is written as are short and, put together, spell the record.
proof fn lemma_split_spells(
    size: u64,
    off: nat,
    data: Seq<u8>,
    first: bool,
    before: Seq<u8>,
)
    requires
        9 < size <= 0x1_0000_0000,
        data.len() > 0,
        first ==> before.len() == 0,
    ensures
        ({
            let plan = split_plan(size, off, data, first);
            let flat = chunks_from(plan, 0, 0);
            &&& plan.len() > 0
            &&& forall|g: int| 0 <= g < plan.len() ==> short_chunks(#[trigger] plan[g])
            &&& assemble(
                flat,
                if first {
                    None
                } else {
                    Some(before)
                },
            ) == (seq![before + data], None::<ErrorView>)
        }),
    decreases
            data.len(),
            (if room(size, off) < 9 {
                1nat
            } else if room(size, off) == 9 {
                2
            } else {
                0
            }),
{
    let plan = split_plan(size, off, data, first);
    lemma_split_nonempty(size, off, data, first);
    if room(size, off) < 9 {
        let rest = split_plan(size, 0, data, first);
        lemma_split_spells(size, 0, data, first, before);
        assert(plan =~= seq![Seq::<Chunk>::empty()] + rest);
        lemma_chunks_shift(seq![Seq::<Chunk>::empty()] + rest, rest, 0);
        assert(chunks_from(plan, 0, 0) =~= chunks_from(rest, 0, 0));
        assert forall|g: int| 0 <= g < plan.len() implies short_chunks(#[trigger] plan[g]) by {
            if g > 0 {
                assert(plan[g] == rest[g - 1]);
            }
        }
    } else {
        let free = (room(size, off) - 9) as nat;
        let n = if data.len() <= free {
            data.len()
        } else {
            free
        };
        let d = data.skip(n as int);
        let c: Chunk = (part_type(first, n == data.len()), data.take(n as int));
        let rest = split_plan(size, off + 9 + n, d, false);
        lemma_split_nonempty(size, off + 9 + n, d, false);
        assert(plan == rest.update(0, seq![c] + rest[0]));
        assert(chunks_from(plan, 1, 0) =~= chunks_from(rest, 1, 0)) by {
            lemma_chunks_same_tail(plan, rest, 1);
        }
        let flat = chunks_from(plan, 0, 0);
        let flat_rest = chunks_from(rest, 0, 0);
        assert(plan[0].skip(0) =~= plan[0]);
        assert(rest[0].skip(0) =~= rest[0]);
        assert(flat =~= seq![c] + flat_rest);
        assert(flat[0] == c);
        assert(flat.drop_first() =~= flat_rest);
        if n == data.len() {
            assert(d.len() == 0);
            assert(rest =~= seq![Seq::<Chunk>::empty()]);
            assert(chunks_from(rest, 1, 0) =~= Seq::<Chunk>::empty());
            assert(flat_rest =~= Seq::<Chunk>::empty());
            assert(data.take(n as int) =~= data);
            assert(assemble(flat_rest, None).0 =~= Seq::<Seq<u8>>::empty());
            assert(seq![before + data] + Seq::<Seq<u8>>::empty() =~= seq![before + data]);
            assert(before.len() == 0 ==> before + data =~= data);
            assert(plan[0] =~= seq![c]);
        } else {
            let part = data.take(n as int);
            let sofar = before + part;
            lemma_split_spells(size, off + 9 + n, d, false, sofar);
            assert(sofar + d =~= before + data);
            assert(first ==> sofar =~= part);
            assert(plan[0] =~= seq![c] + rest[0]);
        }
        assert forall|g: int| 0 <= g < plan.len() implies short_chunks(#[trigger] plan[g]) by {
            if g == 0 {
                assert forall|k: int| 0 <= k < plan[0].len() implies (#[trigger] plan[0][k]).1.len()
                    <= u32::MAX by {
                    if k > 0 {
                        assert(plan[0][k] == rest[0][k - 1]);
                        if n < data.len() {
                            assert(short_chunks(rest[0]));
                        }
                    }
                }
            } else {
                assert(plan[g] == rest[g]);
                if n < data.len() {
                    assert(short_chunks(rest[g]));
                }
            }
        }
    }
}

proof fn lemma_chunks_same_tail(a: Seq<Seq<Chunk>>, b: Seq<Seq<Chunk>>, i: nat)
    requires
        a.len() == b.len(),
        forall|k: int| i <= k < a.len() ==> a[k] == b[k],
    ensures
        chunks_from(a, i, 0) == chunks_from(b, i, 0),
    decreases a.len() - i,
{
    if i < a.len() {
        lemma_chunks_same_tail(a, b, i + 1);
    }
}

proof fn lemma_chunks_shift(a: Seq<Seq<Chunk>>, b: Seq<Seq<Chunk>>, i: nat)
    requires
        a.len() == b.len() + 1,
        forall|k: int| 0 <= k < b.len() ==> a[k + 1] == b[k],
    ensures
        chunks_from(a, i + 1, 0) == chunks_from(b, i, 0),
    decreases b.len() - i,
{
    if i < b.len() {
        lemma_chunks_shift(a, b, i + 1);
        assert(a[i as int + 1] == b[i as int]);
    }
}

/// The chunks that a record is written as are short and spell the record.
pub proof fn lemma_append_plan(size: u64, off: nat, data: Seq<u8>)
    requires
        9 < size <= 0x1_0000_0000,
    ensures
        ({
            let plan = append_plan(size, off, data);
            &&& plan.len() > 0
            &&& forall|g: int| 0 <= g < plan.len() ==> short_chunks(#[trigger] plan[g])
            &&& assemble(chunks_from(plan, 0, 0), None) == (seq![data], None::<ErrorView>)
        }),
{
    let plan = append_plan(size, off, data);
    let c: Chunk = (RecordType::Full, data);
    if data.len() == 0 || data.len() + 9 <= room(size, off) {
        let flat = chunks_from(plan, 0, 0);
        if plan.len() == 1 {
            assert(chunks_from(plan, 1, 0) =~= Seq::<Chunk>::empty());
            assert(flat =~= seq![c]);
        } else {
            assert(chunks_from(plan, 2, 0) =~= Seq::<Chunk>::empty());
            assert(chunks_from(plan, 1, 0) =~= seq![c]);
            assert(flat =~= seq![c]);
        }
        assert(flat.drop_first() =~= Seq::<Chunk>::empty());
        assert(assemble(flat.drop_first(), None).0 =~= Seq::<Seq<u8>>::empty());
        assert(seq![data] + Seq::<Seq<u8>>::empty() =~= seq![data]);
    } else {
        lemma_split_spells(size, off, data, true, Seq::empty());
        assert(Seq::<u8>::empty() + data =~= data);
    }
}

/// Appending groups of chunks to a log: the chunks of the whole log are the old ones followed by
/// the new ones.
pub proof fn lemma_log_extended(css: Seq<Seq<Chunk>>, groups: Seq<Seq<Chunk>>)
    requires
        css.len() > 0,
        groups.len() > 0,
    ensures
        chunks_from(join_groups(css, groups), 0, 0) == chunks_from(css, 0, 0) + chunks_from(
            groups,
            0,
            0,
        ),
{
    lemma_log_extended_from(css, groups, 0);
}

proof fn lemma_log_extended_from(css: Seq<Seq<Chunk>>, groups: Seq<Seq<Chunk>>, i: nat)
    requires
        css.len() > 0,
        groups.len() > 0,
        i < css.len(),
    ensures
        chunks_from(join_groups(css, groups), i, 0) == chunks_from(css, i, 0) + chunks_from(
            groups,
            0,
            0,
        ),
    decreases css.len() - i,
{
    let j = join_groups(css, groups);
    let n = css.len();
    if i + 1 < n {
        assert(j[i as int] == css[i as int]);
        lemma_log_extended_from(css, groups, i + 1);
        assert(chunks_from(j, i, 0) =~= chunks_from(css, i, 0) + chunks_from(groups, 0, 0));
    } else {
        assert(j[i as int] == css[i as int] + groups[0]);
        lemma_tail_groups(j, groups, n, 1);
        assert(chunks_from(css, i + 1, 0) =~= Seq::<Chunk>::empty());
        assert(chunks_from(groups, 0, 0) =~= groups[0] + chunks_from(groups, 1, 0));
        assert(chunks_from(css, i, 0) =~= css[i as int]);
        assert(chunks_from(j, i, 0) =~= (css[i as int] + groups[0]) + chunks_from(groups, 1, 0));
        assert(chunks_from(j, i, 0) =~= chunks_from(css, i, 0) + chunks_from(groups, 0, 0));
    }
}

proof fn lemma_tail_groups(j: Seq<Seq<Chunk>>, groups: Seq<Seq<Chunk>>, n: nat, k: nat)
    requires
        k >= 1,
        n >= 1,
        j.len() == n - 1 + groups.len(),
        forall|x: int| 1 <= x < groups.len() ==> #[trigger] groups[x] == j[n - 1 + x],
    ensures
        chunks_from(j, (n - 1 + k) as nat, 0) == chunks_from(groups, k, 0),
    decreases groups.len() - k,
{
    if k < groups.len() {
        lemma_tail_groups(j, groups, n, k + 1);
        assert(groups[k as int] == j[n - 1 + k]);
    }
}

/// The log with one record more: reading it gives the records as before and then the new one.
pub proof fn lemma_append_reads_back(
    css: Seq<Seq<Chunk>>,
    size: u64,
    off: nat,
    data: Seq<u8>,
    segs: Seq<Seq<u8>>,
    after: Seq<Seq<u8>>,
)
    requires
        9 < size <= 0x1_0000_0000,
        css.len() > 0,
        spell_segments(segs, css),
        log_records(segs).1 is None,
        spell_segments(after, join_groups(css, append_plan(size, off, data))),
    ensures
        log_records(after) == (log_records(segs).0.push(data), None::<ErrorView>),
{
    let plan = append_plan(size, off, data);
    lemma_append_plan(size, off, data);
    lemma_log_spelled(segs, css);
    lemma_log_spelled(after, join_groups(css, plan));
    lemma_log_extended(css, plan);
    lemma_assemble_append(chunks_from(css, 0, 0), chunks_from(plan, 0, 0), None);
    assert(log_records(segs).0 + seq![data] =~= log_records(segs).0.push(data));
}

/// Chunks put after others in a segment.
pub proof fn lemma_encode_append(a: Seq<Chunk>, b: Seq<Chunk>)
    ensures
        encode_chunks(a + b) == encode_chunks(a) + encode_chunks(b),
{
    lemma_encode_split(a + b, a.len() as int);
    assert((a + b).take(a.len() as int) =~= a);
    assert((a + b).skip(a.len() as int) =~= b);
}

/// Tells whether `nums` are the numbers of the log's segments and `segs` their bytes.
pub open spec fn is_log(live: Files, nums: Seq<u64>, segs: Seq<Seq<u8>>) -> bool {
    &&& ascending(nums)
    &&& nums.len() == segs.len()
    &&& forall|n: u64| #[trigger] nums.contains(n) == live.contains_key(FileId::Wal(n))
    &&& forall|i: int| 0 <= i < nums.len() ==> #[trigger] segs[i] == live[FileId::Wal(nums[i])]
}

/// Tells whether the files hold a log, without a fault, of these records.
pub open spec fn clean_log(live: Files, records: Seq<Seq<u8>>) -> bool {
    exists|nums: Seq<u64>, segs: Seq<Seq<u8>>, css: Seq<Seq<Chunk>>| #[trigger]
        holds_log(live, nums, segs, css, records)
}

/// The parts of `clean_log`.
pub open spec fn holds_log(
    live: Files,
    nums: Seq<u64>,
    segs: Seq<Seq<u8>>,
    css: Seq<Seq<Chunk>>,
    records: Seq<Seq<u8>>,
) -> bool {
    &&& is_log(live, nums, segs)
    &&& spell_segments(segs, css)
    &&& log_records(segs) == (records, None::<ErrorView>)
}

/// Tells whether the end of the log is at an offset of a segment.
pub open spec fn log_end(live: Files, seg: u64, off: nat) -> bool {
    &&& live.contains_key(FileId::Wal(seg))
    &&& live[FileId::Wal(seg)].len() == off
    &&& forall|n: u64| #[trigger] live.contains_key(FileId::Wal(n)) ==> n <= seg
}

/// Numbers in ascending order are told by which they are.
pub proof fn lemma_ascending_unique(a: Seq<u64>, b: Seq<u64>)
    requires
        ascending(a),
        ascending(b),
        forall|n: u64| #[trigger] a.contains(n) == b.contains(n),
    ensures
        a == b,
    decreases a.len(),
{
    if a.len() == 0 {
        if b.len() > 0 {
            assert(b.contains(b[0]));
            assert(a.contains(b[0]));
        }
        assert(a =~= b);
    } else if b.len() == 0 {
        assert(a.contains(a[0]));
        assert(b.contains(a[0]));
    } else {
        let x = a.last();
        let y = b.last();
        assert(a.contains(x) && b.contains(y));
        assert(b.contains(x) && a.contains(y));
        let i = choose|i: int| 0 <= i < b.len() && b[i] == x;
        let j = choose|j: int| 0 <= j < a.len() && a[j] == y;
        assert(x == y) by {
            if i < b.len() - 1 {
                assert(b[i] < b[b.len() - 1]);
            }
            if j < a.len() - 1 {
                assert(a[j] < a[a.len() - 1]);
            }
        }
        let a1 = a.drop_last();
        let b1 = b.drop_last();
        assert forall|n: u64| #[trigger] a1.contains(n) == b1.contains(n) by {
            if a1.contains(n) {
                let k = choose|k: int| 0 <= k < a1.len() && a1[k] == n;
                assert(a[k] == n && n < x);
                assert(a.contains(n));
                assert(b.contains(n));
                let m = choose|m: int| 0 <= m < b.len() && b[m] == n;
                assert(m < b.len() - 1);
                assert(b1[m] == n);
            }
            if b1.contains(n) {
                let k = choose|k: int| 0 <= k < b1.len() && b1[k] == n;
                assert(b[k] == n && n < y);
                assert(b.contains(n));
                assert(a.contains(n));
                let m = choose|m: int| 0 <= m < a.len() && a[m] == n;
                assert(m < a.len() - 1);
                assert(a1[m] == n);
            }
        }
        lemma_ascending_unique(a1, b1);
        assert(a =~= a1.push(x));
        assert(b =~= b1.push(y));
    }
}

/// Whatever way the segments of a log without a fault are listed, reading them gives its records.
pub proof fn law_log_reads_back(
    live: Files,
    records: Seq<Seq<u8>>,
    nums: Seq<u64>,
    segs: Seq<Seq<u8>>,
)
    requires
        clean_log(live, records),
        is_log(live, nums, segs),
    ensures
        log_records(segs) == (records, None::<ErrorView>),
{
    let (nums0, segs0, css) = choose|
        nums: Seq<u64>,
        segs: Seq<Seq<u8>>,
        css: Seq<Seq<Chunk>>,
    | #[trigger]
        holds_log(live, nums, segs, css, records);
    assert(is_log(live, nums0, segs0));
    assert forall|n: u64| #[trigger] nums.contains(n) == nums0.contains(n) by {
        assert(nums.contains(n) == live.contains_key(FileId::Wal(n)));
        assert(nums0.contains(n) == live.contains_key(FileId::Wal(n)));
    }
    lemma_ascending_unique(nums, nums0);
    assert(segs =~= segs0);
}

/// A log without a fault to which a record is appended is a log of the records so far and that
/// one.
#[verifier::rlimit(40)]
pub proof fn law_append_keeps_log(
    live: Files,
    records: Seq<Seq<u8>>,
    seg: u64,
    off: nat,
    size: u64,
    data: Seq<u8>,
)
    requires
        9 < size <= 0x1_0000_0000,
        clean_log(live, records),
        log_end(live, seg, off),
        seg + append_plan(size, off, data).len() <= u64::MAX,
    ensures
        clean_log(with_groups(live, seg, append_plan(size, off, data)), records.push(data)),
{
    let plan = append_plan(size, off, data);
    lemma_append_plan(size, off, data);
    let (nums, segs, css) = choose|
        nums: Seq<u64>,
        segs: Seq<Seq<u8>>,
        css: Seq<Seq<Chunk>>,
    | #[trigger]
        holds_log(live, nums, segs, css, records);
    assert(is_log(live, nums, segs));
    let n = nums.len() as int;
    assert(nums.contains(seg));
    let at = choose|at: int| 0 <= at < n && nums[at] == seg;
    assert(nums.last() == seg) by {
        assert(nums.contains(nums.last()));
        assert(live.contains_key(FileId::Wal(nums.last())));
        if at < n - 1 {
            assert(nums[at] < nums[n - 1]);
        }
    }
    let after = with_groups(live, seg, plan);
    let g = plan.len() as int;
    let nums2 = Seq::new(
        (n + g - 1) as nat,
        |i: int|
            if i < n {
                nums[i]
            } else {
                (seg + (i - n + 1)) as u64
            },
    );
    let segs2 = Seq::new((n + g - 1) as nat, |i: int| after[FileId::Wal(nums2[i])]);
    let css2 = join_groups(css, plan);
    assert(ascending(nums2)) by {
        assert forall|i: int, j: int| 0 <= i < j < nums2.len() implies nums2[i] < nums2[j] by {
            if j >= n && i < n {
                assert(i == n - 1 || nums[i] < nums[n - 1]);
            }
        }
    }
    assert forall|m: u64| #[trigger] nums2.contains(m) == after.contains_key(FileId::Wal(m)) by {
        if nums2.contains(m) {
            let i = choose|i: int| 0 <= i < nums2.len() && nums2[i] == m;
            if i < n {
                assert(nums.contains(m));
            }
        }
        if after.contains_key(FileId::Wal(m)) {
            if live.contains_key(FileId::Wal(m)) {
                assert(nums.contains(m));
                let i = choose|i: int| 0 <= i < n && nums[i] == m;
                assert(nums2[i] == m);
            } else {
                assert(seg < m < seg + g);
                assert(nums2[n + (m - seg) - 1] == m);
            }
        }
    }
    assert forall|i: int| 0 <= i < segs2.len() implies #[trigger] segs2[i] == encode_chunks(css2[i])
        && short_chunks(css2[i]) by {
        if i < n - 1 {
            assert(nums[i] < nums[n - 1]);
            assert(segs[i] == live[FileId::Wal(nums[i])]);
            assert(nums.contains(nums[i]));
            assert(css2[i] == css[i]);
            assert(segs[i] == encode_chunks(css[i]));
        } else if i == n - 1 {
            assert(css2[i] == css[i] + plan[0]);
            assert(segs[i] == live[FileId::Wal(nums[i])]);
            assert(segs[i] == encode_chunks(css[i]));
            lemma_encode_append(css[i], plan[0]);
            assert(short_chunks(plan[0]));
            assert(short_chunks(css[i]));
            assert forall|k: int| 0 <= k < css2[i].len() implies (#[trigger] css2[i][k]).1.len()
                <= u32::MAX by {
                if k < css[i].len() {
                    assert(css2[i][k] == css[i][k]);
                } else {
                    assert(css2[i][k] == plan[0][k - css[i].len()]);
                }
            }
        } else {
            let k = i - n + 1;
            assert(css2[i] == plan[k]);
            assert(short_chunks(plan[k]));
            assert(nums2[i] == seg + k);
            assert(Seq::<u8>::empty() + encode_chunks(plan[k]) =~= encode_chunks(plan[k]));
        }
    }
    assert(spell_segments(segs2, css2));
    lemma_append_reads_back(css, size, off, data, segs, segs2);
    assert(is_log(after, nums2, segs2));
    assert(holds_log(after, nums2, segs2, css2, records.push(data)));
}

/// A directory without segments holds a log of no records.
pub proof fn lemma_fresh_log(live: Files, before: Files)
    requires
        forall|n: u64| !#[trigger] before.contains_key(FileId::Wal(n)),
        live == before.insert(FileId::Wal(0), Seq::empty()),
    ensures
        clean_log(live, Seq::empty()),
{
    let nums = seq![0u64];
    let segs = seq![Seq::<u8>::empty()];
    let css = seq![Seq::<Chunk>::empty()];
    assert(encode_chunks(Seq::<Chunk>::empty()) =~= Seq::<u8>::empty());
    assert forall|n: u64| #[trigger] nums.contains(n) == live.contains_key(FileId::Wal(n)) by {
        if n == 0 {
            assert(nums[0] == n);
        }
    }
    assert(spell_segments(segs, css));
    lemma_log_spelled(segs, css);
    assert(chunks_from(css, 1, 0) =~= Seq::<Chunk>::empty());
    assert(chunks_from(css, 0, 0) =~= Seq::<Chunk>::empty());
    assert(holds_log(live, nums, segs, css, Seq::empty()));
}

/// Tells what is durable of a file after an append.
pub open spec fn file_durable(
    before: Files,
    after: Files,
    live: Files,
    seg: u64,
    now: u64,
    sync: bool,
    id: FileId,
) -> bool {
    &&& after.contains_key(id) == (before.contains_key(id) || (id matches FileId::Wal(n) && seg <= n
        <= now))
    &&& match id {
        FileId::Wal(n) => if seg <= n < now {
            after[id] == live[id]
        } else if n == now {
            if sync {
                after[id] == live[id]
            } else if seg == now {
                after[id] == before[id]
            } else {
                after[id] == Seq::<u8>::empty()
            }
        } else {
            before.contains_key(id) ==> after[id] == before[id]
        },
        _ => before.contains_key(id) ==> after[id] == before[id],
    }
}

/// What an append leaves durable: the segments that it filled, and the segment in use where every
/// chunk is synced; the rest is as before.
pub open spec fn append_durable(
    before: Files,
    after: Files,
    live: Files,
    seg: u64,
    now: u64,
    sync: bool,
) -> bool {
    forall|id: FileId|
        #![trigger after.contains_key(id)]
        file_durable(before, after, live, seg, now, sync, id)
}

/// Tells whether all segments before one are durable.
pub open spec fn durable_before(live: Files, durable: Files, seg: u64) -> bool {
    forall|n: u64|
        n < seg && #[trigger] live.contains_key(FileId::Wal(n)) ==> durable[FileId::Wal(n)]
            == live[FileId::Wal(n)]
}

/// Writes records to the log.
pub struct WalWriter {
    config: WalConfig,
    segment: u64,
    offset: usize,
}

impl WalWriter {
    /// The settings.
    pub closed spec fn spec_config(&self) -> WalConfig {
        self.config
    }

    /// The segment in use.
    pub closed spec fn spec_segment(&self) -> u64 {
        self.segment
    }

    /// The place in the segment in use.
    pub closed spec fn spec_offset(&self) -> nat {
        self.offset as nat
    }

    /// Tells whether the writer stands at the end of the log.
    pub open spec fn wf(&self, live: Files) -> bool {
        log_end(live, self.spec_segment(), self.spec_offset())
    }

    /// Opens the log at its end. A log without segments gets segment zero.
    pub fn new(disk: &mut Disk, config: WalConfig) -> (r: WalWriter)
        requires
            old(disk).wf(),
        ensures
            final(disk).taken() == old(disk).taken(),
            final(disk).wf(),
            r.spec_config() == config,
            r.wf(final(disk).live()),
            (exists|n: u64| #[trigger] old(disk).live().contains_key(FileId::Wal(n)))
                ==> final(disk).live() == old(disk).live() && final(disk).durable() == old(
                disk,
            ).durable(),
            (forall|n: u64| !#[trigger] old(disk).live().contains_key(FileId::Wal(n))) ==> {
                &&& final(disk).live() == old(disk).live().insert(FileId::Wal(0), Seq::empty())
                &&& final(disk).durable() == old(disk).durable().insert(
                    FileId::Wal(0),
                    Seq::empty(),
                )
                &&& clean_log(final(disk).live(), Seq::empty())
            },
    {
        let nums = disk.wal_numbers();
        let ghost live = disk.live();
        if nums.len() > 0 {
            let last = nums[nums.len() - 1];
            proof {
                assert(nums@.contains(last));
                assert forall|n: u64| #[trigger] live.contains_key(FileId::Wal(n)) implies n
                    <= last by {
                    assert(nums@.contains(n));
                    let i = choose|i: int| 0 <= i < nums@.len() && nums@[i] == n;
                    if i < nums@.len() - 1 {
                        assert(nums@[i] < nums@[nums@.len() - 1]);
                    }
                }
                assert(live.contains_key(FileId::Wal(last)));
            }
            let offset = match disk.read(FileId::Wal(last)) {
                Some(d) => d.len(),
                None => 0,
            };
            WalWriter { config, segment: last, offset }
        } else {
            proof {
                assert forall|n: u64| !#[trigger] live.contains_key(FileId::Wal(n)) by {
                    assert(!nums@.contains(n));
                }
            }
            disk.create(FileId::Wal(0));
            proof {
                lemma_fresh_log(disk.live(), live);
                assert(disk.live().contains_key(FileId::Wal(0)));
            }
            WalWriter { config, segment: 0, offset: 0 }
        }
    }

    fn put_chunk(&mut self, disk: &mut Disk, kind: RecordType, data: &[u8])
        requires
            old(disk).wf(),
            old(self).wf(old(disk).live()),
        ensures
            final(disk).taken() == old(disk).taken(),
            final(disk).wf(),
            final(self).wf(final(disk).live()),
            final(self).spec_config() == old(self).spec_config(),
            final(self).spec_segment() == old(self).spec_segment(),
            final(self).spec_offset() == old(self).spec_offset() + chunk_bytes(
                (kind, data@),
            ).len(),
            final(disk).live() == old(disk).live().insert(
                FileId::Wal(old(self).spec_segment()),
                old(disk).live()[FileId::Wal(old(self).spec_segment())] + chunk_bytes(
                    (kind, data@),
                ),
            ),
            final(disk).durable() == (if old(self).spec_config().sync_on_write {
                old(disk).durable().insert(
                    FileId::Wal(old(self).spec_segment()),
                    final(disk).live()[FileId::Wal(old(self).spec_segment())],
                )
            } else {
                old(disk).durable()
            }),
    {
        let ghost c: Chunk = (kind, data@);
        let code = kind.to_u8();
        let mut one: Vec<u8> = Vec::new();
        one.push(code);
        assert(one@ =~= seq![type_code(kind)]);
        let crc = checksum_append(checksum(&one), data);
        let mut buf: Vec<u8> = Vec::new();
        put_u32(&mut buf, crc);
        put_u32(&mut buf, data.len() as u32);
        buf.push(code);
        append_bytes(&mut buf, data);
        assert(buf@ =~= chunk_bytes(c));
        let id = FileId::Wal(self.segment);
        disk.append(id, &buf);
        self.offset = match disk.read(id) {
            Some(d) => d.len(),
            None => 0,
        };
        if self.config.sync_on_write {
            disk.sync(id);
        }
    }

    fn rotate_segment(&mut self, disk: &mut Disk)
        requires
            old(disk).wf(),
            old(self).wf(old(disk).live()),
            old(self).spec_segment() < u64::MAX,
        ensures
            final(disk).taken() == old(disk).taken(),
            final(disk).wf(),
            final(self).wf(final(disk).live()),
            final(self).spec_config() == old(self).spec_config(),
            final(self).spec_segment() == old(self).spec_segment() + 1,
            final(self).spec_offset() == 0,
            final(disk).live() == old(disk).live().insert(
                FileId::Wal((old(self).spec_segment() + 1) as u64),
                Seq::empty(),
            ),
            final(disk).durable() == old(disk).durable().insert(
                FileId::Wal(old(self).spec_segment()),
                old(disk).live()[FileId::Wal(old(self).spec_segment())],
            ).insert(FileId::Wal((old(self).spec_segment() + 1) as u64), Seq::empty()),
    {
        disk.sync(FileId::Wal(self.segment));
        self.segment = self.segment + 1;
        self.offset = 0;
        proof {
            if disk.live().contains_key(FileId::Wal(self.segment)) {
                assert(false);
            }
        }
        disk.create(FileId::Wal(self.segment));
    }

    fn room_left(&self) -> (r: u64)
        ensures
            r == room(self.spec_config().segment_size, self.spec_offset()),
    {
        if self.offset as u64 <= self.config.segment_size {
            self.config.segment_size - self.offset as u64
        } else {
            0
        }
    }

    /// Appends a record and returns the segment and the offset at which it was written.
    ///
    /// A segment must have room for more than a chunk's header, or a record that holds anything
    /// could not be written.
    #[verifier::rlimit(40)]
    pub fn append(&mut self, disk: &mut Disk, record: &WalRecord) -> (r: Result<(u64, u64), Error>)
        requires
            old(disk).wf(),
            old(self).wf(old(disk).live()),
        ensures
            final(disk).taken() == old(disk).taken(),
            final(disk).wf(),
            final(self).wf(final(disk).live()),
            final(self).spec_config() == old(self).spec_config(),
            match r {
                Ok(at) => {
                    let plan = append_plan(
                        old(self).spec_config().segment_size,
                        old(self).spec_offset(),
                        record.data@,
                    );
                    &&& at == append_place(
                        old(self).spec_config().segment_size,
                        old(self).spec_segment(),
                        old(self).spec_offset(),
                    )
                    &&& final(disk).live() == with_groups(
                        old(disk).live(),
                        old(self).spec_segment(),
                        plan,
                    )
                    &&& final(self).spec_segment() == old(self).spec_segment() + plan.len() - 1
                    &&& append_durable(
                        old(disk).durable(),
                        final(disk).durable(),
                        final(disk).live(),
                        old(self).spec_segment(),
                        final(self).spec_segment(),
                        old(self).spec_config().sync_on_write,
                    )
                },
                Err(e) => {
                    &&& final(disk).live() == old(disk).live()
                    &&& final(disk).durable() == old(disk).durable()
                    &&& *final(self) == *old(self)
                    &&& e@ == append_refusal(
                        old(self).spec_config().segment_size,
                        old(self).spec_segment(),
                        record.data@.len(),
                    )->0
                },
            },
            r is Err == append_refusal(
                old(self).spec_config().segment_size,
                old(self).spec_segment(),
                record.data@.len(),
            ) is Some,
            forall|rs: Seq<Seq<u8>>| #[trigger]
                clean_log(old(disk).live(), rs) && r is Ok && 9 < old(
                    self,
                ).spec_config().segment_size <= 0x1_0000_0000 ==> clean_log(
                    final(disk).live(),
                    rs.push(record.data@),
                ),
            r is Ok && durable_before(
                old(disk).live(),
                old(disk).durable(),
                old(self).spec_segment(),
            ) ==> durable_before(
                final(disk).live(),
                final(disk).durable(),
                final(self).spec_segment(),
            ),
    {
        let len = record.data.len();
        let size = self.config.segment_size;
        if len > 0 && size <= 9 {
            return Err(invalid_argument("segment size leaves no room for data"));
        }
        if self.segment > u64::MAX - 2 || (len as u64) > u64::MAX - 2 - self.segment {
            return Err(Error::Io(text_of("no segment numbers are left")));
        }
        let place = if self.room_left() < 9 {
            (self.segment + 1, 0)
        } else {
            (self.segment, self.offset as u64)
        };
        let ghost live0 = disk.live();
        let ghost durable0 = disk.durable();
        let ghost seg0 = self.segment;
        let ghost off0 = self.spec_offset();
        let ghost data = record.data@;
        let ghost plan = append_plan(size, off0, data);
        let ghost empty_group = Seq::<Chunk>::empty();
        let ghost mut done: Seq<Seq<Chunk>> = seq![empty_group];
        proof {
            assert(encode_chunks(empty_group) =~= Seq::<u8>::empty());
            assert(with_groups(live0, seg0, done) =~= live0) by {
                assert(live0[FileId::Wal(seg0)] + Seq::<u8>::empty()
                    =~= live0[FileId::Wal(seg0)]);
            }
            disk.lemma_domains();
        }
        if len == 0 {
            if self.room_left() < 9 {
                let ghost prev = disk.live();
                self.rotate_segment(disk);
                proof {
                    lemma_groups_rotate(live0, seg0, done);
                    done = done.push(empty_group);
                }
            }
            proof {
                lemma_groups_chunk(live0, seg0, done, (RecordType::Full, data));
            }
            self.put_chunk(disk, RecordType::Full, &record.data);
            proof {
                done = done.update(
                    done.len() - 1,
                    done.last().push((RecordType::Full, data)),
                );
                assert(empty_group.push((RecordType::Full, data)) =~= seq![
                    (RecordType::Full, data),
                ]);
                assert(done =~= plan);
            }
        } else if len as u64 <= self.room_left() && self.room_left() - len as u64 >= 9 {
            proof {
                lemma_groups_chunk(live0, seg0, done, (RecordType::Full, data));
            }
            self.put_chunk(disk, RecordType::Full, &record.data);
            proof {
                done = done.update(
                    done.len() - 1,
                    done.last().push((RecordType::Full, data)),
                );
                assert(empty_group.push((RecordType::Full, data)) =~= seq![
                    (RecordType::Full, data),
                ]);
                assert(done =~= plan);
            }
        } else {
            let mut pos: usize = 0;
            let mut first: bool = true;
            let ghost mut wrote: bool = false;
            proof {
                lemma_split_nonempty(size, off0, data, true);
                assert(data.skip(0) =~= data);
                assert(join_groups(done, plan) =~= plan) by {
                    assert(empty_group + plan[0] =~= plan[0]);
                }
            }
            while pos < len
                invariant
                    disk.taken() == old(disk).taken(),
                    disk.wf(),
                    self.wf(disk.live()),
                    self.spec_config() == old(self).spec_config(),
                    size == self.spec_config().segment_size,
                    size > 9,
                    len == record.data@.len(),
                    data == record.data@,
                    len > 0,
                    pos <= len,
                    done.len() > 0,
                    plan == append_plan(size, off0, data),
                    plan.len() <= len + 2,
                    seg0 + len + 2 <= u64::MAX,
                    disk.live() == with_groups(live0, seg0, done),
                    self.spec_segment() == seg0 + done.len() - 1,
                    plan == join_groups(
                        done,
                        split_plan(size, self.spec_offset(), data.skip(pos as int), first),
                    ),
                    append_durable(
                        durable0,
                        disk.durable(),
                        disk.live(),
                        seg0,
                        self.spec_segment(),
                        self.spec_config().sync_on_write && wrote,
                    ),
                    durable0.dom() == live0.dom(),
                    log_end(live0, seg0, off0),
                    pos == len ==> wrote,
                    empty_group == Seq::<Chunk>::empty(),
                decreases
                        len - pos,
                        (if room(size, self.spec_offset()) < 9 {
                            1nat
                        } else if room(size, self.spec_offset()) == 9 {
                            2
                        } else {
                            0
                        }),
            {
                let remaining = self.room_left();
                let ghost rest_data = data.skip(pos as int);
                let ghost off = self.spec_offset();
                let ghost live_before = disk.live();
                let ghost durable_prev = disk.durable();
                proof {
                    lemma_split_nonempty(size, off, rest_data, first);
                }
                if remaining < 9 {
                    proof {
                        lemma_groups_rotate(live0, seg0, done);
                        lemma_split_nonempty(size, 0, rest_data, first);
                        let rest = split_plan(size, 0, rest_data, first);
                        assert(join_groups(done, seq![empty_group] + rest) =~= join_groups(
                            done.push(empty_group),
                            rest,
                        )) by {
                            assert(done.last() + empty_group =~= done.last());
                            assert(empty_group + rest[0] =~= rest[0]);
                            assert((seq![empty_group] + rest).drop_first() =~= rest);
                            assert(rest =~= seq![rest[0]] + rest.drop_first());
                            assert(done.push(empty_group).drop_last() =~= done);
                            assert(done =~= done.drop_last().push(done.last()));
                        }
                    }
                    self.rotate_segment(disk);
                    proof {
                        lemma_durable_rotate(
                            durable0,
                            durable_prev,
                            live_before,
                            seg0,
                            (self.segment - 1) as u64,
                            self.config.sync_on_write && wrote,
                        );
                        done = done.push(empty_group);
                        wrote = false;
                    }
                    continue ;
                }
                let available = remaining - 9;
                let left = len - pos;
                let n: usize = if left as u64 <= available {
                    left
                } else {
                    available as usize
                };
                let last = n == left;
                let kind = if first && last {
                    RecordType::Full
                } else if first {
                    RecordType::First
                } else if last {
                    RecordType::Last
                } else {
                    RecordType::Middle
                };
                let part = slice_subrange(record.data.as_slice(), pos, pos + n);
                let ghost c: Chunk = (kind, rest_data.take(n as int));
                proof {
                    assert(part@ =~= rest_data.take(n as int));
                    let rest = split_plan(
                        size,
                        (off + 9 + n) as nat,
                        rest_data.skip(n as int),
                        false,
                    );
                    lemma_split_nonempty(size, (off + 9 + n) as nat, rest_data.skip(n as int), false);
                    assert(split_plan(size, off, rest_data, first) == rest.update(
                        0,
                        seq![c] + rest[0],
                    ));
                    let done2 = done.update(done.len() - 1, done.last().push(c));
                    assert(join_groups(done, rest.update(0, seq![c] + rest[0])) =~= join_groups(
                        done2,
                        rest,
                    )) by {
                        assert(done.last() + (seq![c] + rest[0]) =~= done.last().push(c)
                            + rest[0]);
                        assert(done2.drop_last() =~= done.drop_last());
                        assert(rest.update(0, seq![c] + rest[0]).drop_first()
                            =~= rest.drop_first());
                    }
                    assert(rest_data.skip(n as int) =~= data.skip(pos + n));
                    lemma_groups_chunk(live0, seg0, done, c);
                    lemma_chunk_len(c);
                }
                self.put_chunk(disk, kind, part);
                proof {
                    let id = FileId::Wal(self.segment);
                    lemma_durable_chunk(
                        durable0,
                        durable_prev,
                        live_before,
                        seg0,
                        self.segment,
                        self.config.sync_on_write && wrote,
                        self.config.sync_on_write,
                        disk.live()[id],
                    );
                    done = done.update(done.len() - 1, done.last().push(c));
                    wrote = true;
                }
                pos = pos + n;
                first = false;
            }
            proof {
                assert(data.skip(pos as int).len() == 0);
                let tail = split_plan(size, self.spec_offset(), data.skip(pos as int), first);
                assert(tail =~= seq![empty_group]);
                assert(join_groups(done, tail) =~= done) by {
                    assert(done.last() + empty_group =~= done.last());
                    assert(done =~= done.drop_last().push(done.last()));
                }
            }
        }
        proof {
            assert(done == plan);
            let sync = self.config.sync_on_write;
            assert(append_durable(
                durable0,
                disk.durable(),
                disk.live(),
                seg0,
                self.segment,
                sync,
            ));
            assert forall|rs: Seq<Seq<u8>>| #[trigger] clean_log(live0, rs) && 9 < size
                <= 0x1_0000_0000 implies clean_log(disk.live(), rs.push(data)) by {
                law_append_keeps_log(live0, rs, seg0, off0, size, data);
            }
            if durable_before(live0, durable0, seg0) {
                assert forall|n: u64|
                    n < self.segment && #[trigger] disk.live().contains_key(FileId::Wal(n))
                    implies disk.durable()[FileId::Wal(n)] == disk.live()[FileId::Wal(n)] by {
                    if n < seg0 {
                        assert(live0.contains_key(FileId::Wal(n)));
                        assert(durable0.dom().contains(FileId::Wal(n)));
                    }
                    assert(disk.durable().contains_key(FileId::Wal(n)));
                }
            }
        }
        Ok(place)
    }

    /// Makes the segment in use durable.
    pub fn sync(&mut self, disk: &mut Disk)
        requires
            old(disk).wf(),
            old(self).wf(old(disk).live()),
        ensures
            final(disk).taken() == old(disk).taken(),
            final(disk).wf(),
            *final(self) == *old(self),
            final(disk).live() == old(disk).live(),
            final(disk).durable() == old(disk).durable().insert(
                FileId::Wal(old(self).spec_segment()),
                old(disk).live()[FileId::Wal(old(self).spec_segment())],
            ),
    {
        disk.sync(FileId::Wal(self.segment));
    }

    /// The segment in use.
    pub fn current_segment(&self) -> (r: u64)
        ensures
            r == self.spec_segment(),
    {
        self.segment
    }

    /// The place in the segment in use.
    pub fn current_offset(&self) -> (r: u64)
        ensures
            r == self.spec_offset() as u64,
    {
        self.offset as u64
    }
}

/// Why an append is refused, if it is.
pub open spec fn append_refusal(size: u64, seg: u64, len: nat) -> Option<ErrorView> {
    if len > 0 && size <= 9 {
        Some(ErrorView::InvalidArgument("segment size leaves no room for data"@))
    } else if seg + len + 2 > u64::MAX {
        Some(ErrorView::Io("no segment numbers are left"@))
    } else {
        None
    }
}

proof fn lemma_durable_rotate(
    before: Files,
    after: Files,
    live: Files,
    seg: u64,
    now: u64,
    sync: bool,
)
    requires
        append_durable(before, after, live, seg, now, sync),
        seg <= now < u64::MAX,
        live.contains_key(FileId::Wal(now)),
    ensures
        ({
            let next = FileId::Wal((now + 1) as u64);
            append_durable(
                before,
                after.insert(FileId::Wal(now), live[FileId::Wal(now)]).insert(next, Seq::empty()),
                live.insert(next, Seq::empty()),
                seg,
                (now + 1) as u64,
                false,
            )
        }),
{
    let next = FileId::Wal((now + 1) as u64);
    let a = after.insert(FileId::Wal(now), live[FileId::Wal(now)]).insert(next, Seq::empty());
    let l = live.insert(next, Seq::empty());
    let then_now = (now + 1) as u64;
    assert forall|id: FileId| file_durable(before, a, l, seg, then_now, false, id) by {
        let known = after.contains_key(id);
        assert(file_durable(before, after, live, seg, now, sync, id));
        assert(known == after.contains_key(id));
    }
}

proof fn lemma_durable_chunk(
    before: Files,
    after: Files,
    live: Files,
    seg: u64,
    now: u64,
    was: bool,
    sync: bool,
    bytes: Seq<u8>,
)
    requires
        append_durable(before, after, live, seg, now, was),
        seg <= now,
        was ==> sync,
    ensures
        append_durable(
            before,
            if sync {
                after.insert(FileId::Wal(now), bytes)
            } else {
                after
            },
            live.insert(FileId::Wal(now), bytes),
            seg,
            now,
            sync,
        ),
{
    let a = if sync {
        after.insert(FileId::Wal(now), bytes)
    } else {
        after
    };
    let l = live.insert(FileId::Wal(now), bytes);
    assert forall|id: FileId| file_durable(before, a, l, seg, now, sync, id) by {
        let known = after.contains_key(id);
        assert(file_durable(before, after, live, seg, now, was, id));
        assert(known == after.contains_key(id));
    }
}

proof fn lemma_chunk_len(c: Chunk)
    ensures
        chunk_bytes(c).len() == 9 + c.1.len(),
{
    lemma_le_fixed(chunk_crc(c), 0);
    lemma_le_fixed(c.1.len() as u32, 0);
}

proof fn lemma_groups_rotate(live: Files, seg: u64, done: Seq<Seq<Chunk>>)
    requires
        done.len() > 0,
        seg + done.len() <= u64::MAX,
    ensures
        with_groups(live, seg, done.push(Seq::empty())) == with_groups(live, seg, done).insert(
            FileId::Wal((seg + done.len()) as u64),
            Seq::empty(),
        ),
{
    let a = with_groups(live, seg, done.push(Seq::empty()));
    let b = with_groups(live, seg, done).insert(
        FileId::Wal((seg + done.len()) as u64),
        Seq::empty(),
    );
    assert(encode_chunks(Seq::<Chunk>::empty()) =~= Seq::<u8>::empty());
    assert(Seq::<u8>::empty() + Seq::<u8>::empty() =~= Seq::<u8>::empty());
    assert forall|id: FileId| #[trigger] a.contains_key(id) implies a[id] == b[id] by {
        match id {
            FileId::Wal(n) => {
                if seg <= n < seg + done.len() {
                    assert(done.push(Seq::empty())[n - seg] == done[n - seg]);
                }
            },
            _ => {},
        }
    }
    assert(a =~= b);
}

proof fn lemma_groups_chunk(live: Files, seg: u64, done: Seq<Seq<Chunk>>, c: Chunk)
    requires
        done.len() > 0,
        seg + done.len() <= u64::MAX,
    ensures
        ({
            let id = FileId::Wal((seg + done.len() - 1) as u64);
            let now = with_groups(live, seg, done);
            with_groups(live, seg, done.update(done.len() - 1, done.last().push(c)))
                == now.insert(id, now[id] + chunk_bytes(c))
        }),
{
    let id = FileId::Wal((seg + done.len() - 1) as u64);
    let now = with_groups(live, seg, done);
    let done2 = done.update(done.len() - 1, done.last().push(c));
    let a = with_groups(live, seg, done2);
    let b = now.insert(id, now[id] + chunk_bytes(c));
    assert(done.last().push(c).drop_last() =~= done.last());
    assert(encode_chunks(done.last().push(c)) == encode_chunks(done.last()) + chunk_bytes(c));
    let base = if done.len() == 1 {
        live[id]
    } else {
        Seq::empty()
    };
    assert(base + (encode_chunks(done.last()) + chunk_bytes(c)) =~= (base + encode_chunks(
        done.last(),
    )) + chunk_bytes(c));
    assert forall|x: FileId| #[trigger] a.contains_key(x) implies a[x] == b[x] by {
        match x {
            FileId::Wal(n) => {
                if seg <= n < seg + done.len() && n != seg + done.len() - 1 {
                    assert(done2[n - seg] == done[n - seg]);
                }
            },
            _ => {},
        }
    }
    assert(a =~= b);
}

/// What was read at a place of a segment.
enum ChunkFound {
    End,
    Bad(Error),
    Good(RecordType, Vec<u8>),
}

fn parse_chunk(seg: &[u8], off: usize) -> (r: ChunkFound)
    requires
        off <= seg@.len(),
    ensures
        match r {
            ChunkFound::End => chunk_at(seg@, off as nat) is End,
            ChunkFound::Bad(e) => chunk_at(seg@, off as nat) == ChunkRead::Bad(e@),
            ChunkFound::Good(t, d) => chunk_at(seg@, off as nat) == ChunkRead::Good((t, d@)) && off
                + 9 + d@.len() <= seg@.len(),
        },
{
    if seg.len() - off < 9 {
        return ChunkFound::End;
    }
    let crc = get_u32(seg, off);
    let len = get_u32(seg, off + 4);
    let code = seg[off + 8];
    let kind = match RecordType::from_u8(code) {
        Some(t) => t,
        None => {
            let mut msg = text_of("invalid record type: ");
            push_decimal(&mut msg, code as u64);
            return ChunkFound::Bad(Error::Corruption(msg));
        },
    };
    if len as usize > seg.len() - off - 9 {
        return ChunkFound::Bad(corruption("record extends past segment end"));
    }
    let payload = copy_range(seg, off + 9, off + 9 + len as usize);
    let mut one: Vec<u8> = Vec::new();
    one.push(kind.to_u8());
    assert(one@ =~= seq![type_code(kind)]);
    let expected = checksum_append(checksum(&one), &payload);
    if crc != expected {
        let mut msg = text_of("CRC mismatch: expected ");
        push_decimal(&mut msg, expected as u64);
        msg.push_str(", got ");
        push_decimal(&mut msg, crc as u64);
        return ChunkFound::Bad(Error::Corruption(msg));
    }
    ChunkFound::Good(kind, payload)
}

/// Reads the records of the log in order.
pub struct WalReader {
    nums: Vec<u64>,
    segs: Vec<Vec<u8>>,
    idx: usize,
    offset: usize,
}

impl WalReader {
    /// The numbers of the segments to read.
    pub closed spec fn numbers(&self) -> Seq<u64> {
        self.nums@
    }

    /// The bytes of the segments to read.
    pub closed spec fn segments(&self) -> Seq<Seq<u8>> {
        Seq::new(self.segs@.len(), |i: int| self.segs@[i]@)
    }

    /// The segment that is read next, by its place among them.
    pub closed spec fn at_segment(&self) -> nat {
        self.idx as nat
    }

    /// The offset that is read next.
    pub closed spec fn at_offset(&self) -> nat {
        self.offset as nat
    }

    /// Tells whether the place to read next lies in a segment or past the last one.
    pub open spec fn wf(&self) -> bool {
        &&& self.numbers().len() == self.segments().len()
        &&& self.at_segment() <= self.segments().len()
        &&& self.at_segment() < self.segments().len() ==> self.at_offset()
            <= self.segments()[self.at_segment() as int].len()
    }

    /// Reads the segments from a number on.
    pub fn new(disk: &Disk, start_segment: u64) -> (r: WalReader)
        requires
            disk.wf(),
        ensures
            r.wf(),
            r.at_segment() == 0,
            r.at_offset() == 0,
            ascending(r.numbers()),
            forall|n: u64| #[trigger]
                r.numbers().contains(n) == (disk.live().contains_key(FileId::Wal(n)) && n
                    >= start_segment),
            forall|i: int|
                0 <= i < r.numbers().len() ==> #[trigger] r.segments()[i]
                    == disk.live()[FileId::Wal(r.numbers()[i])],
    {
        let all = disk.wal_numbers();
        let mut nums: Vec<u64> = Vec::new();
        let mut segs: Vec<Vec<u8>> = Vec::new();
        let mut i: usize = 0;
        while i < all.len()
            invariant
                disk.wf(),
                i <= all@.len(),
                ascending(all@),
                ascending(nums@),
                forall|n: u64| #[trigger]
                    all@.contains(n) == disk.live().contains_key(FileId::Wal(n)),
                nums@.len() == segs@.len(),
                forall|k: int|
                    0 <= k < nums@.len() ==> (#[trigger] segs@[k])@ == disk.live()[FileId::Wal(
                        nums@[k],
                    )],
                forall|n: u64| #[trigger]
                    nums@.contains(n) == (all@.take(i as int).contains(n) && n >= start_segment),
                i < all@.len() ==> forall|k: int| 0 <= k < nums@.len() ==> nums@[k] < all@[i as int],
            decreases all.len() - i,
        {
            let n = all[i];
            let ghost prev = nums@;
            assert(all@.take(i + 1) =~= all@.take(i as int).push(n));
            if n >= start_segment {
                assert(all@.contains(n));
                match disk.read(FileId::Wal(n)) {
                    Some(d) => {
                        nums.push(n);
                        segs.push(copy_bytes(d));
                    },
                    None => {
                        assert(false);
                    },
                }
            }
            proof {
                assert forall|m: u64| #[trigger] nums@.contains(m) == (all@.take(
                    i + 1,
                ).contains(m) && m >= start_segment) by {
                    let t = all@.take(i as int);
                    let t1 = all@.take(i + 1);
                    if prev.contains(m) {
                        let k = choose|k: int| 0 <= k < prev.len() && prev[k] == m;
                        assert(nums@[k] == m);
                        assert(t.contains(m));
                        let q = choose|q: int| 0 <= q < t.len() && t[q] == m;
                        assert(all@.take(i + 1)[q] == m);
                    }
                    if m == n {
                        assert(all@.take(i + 1)[i as int] == n);
                        if n >= start_segment {
                            assert(nums@[nums@.len() - 1] == n);
                        }
                    }
                    if all@.take(i + 1).contains(m) && m != n {
                        let q = choose|q: int| 0 <= q < t1.len() && t1[q] == m;
                        assert(t[q] == m);
                    }
                    if nums@.contains(m) && m != n {
                        let k = choose|k: int| 0 <= k < nums@.len() && nums@[k] == m;
                        assert(prev[k] == m);
                    }
                }
            }
            i += 1;
        }
        assert(all@.take(i as int) =~= all@);
        let r = WalReader { nums, segs, idx: 0, offset: 0 };
        proof {
            assert forall|n: u64| #[trigger] r.numbers().contains(n) == (disk.live().contains_key(
                FileId::Wal(n),
            ) && n >= start_segment) by {
                assert(all@.contains(n) == disk.live().contains_key(FileId::Wal(n)));
            }
        }
        r
    }

    /// Reads all segments.
    pub fn new_from_start(disk: &Disk) -> (r: WalReader)
        requires
            disk.wf(),
        ensures
            r.wf(),
            r.at_segment() == 0,
            r.at_offset() == 0,
            is_log(disk.live(), r.numbers(), r.segments()),
    {
        WalReader::new(disk, 0)
    }

    /// Reads the next record; none at the end of the log. An error tells what is wrong with the
    /// log at this place.
    pub fn read_record(&mut self) -> (r: Result<Option<WalRecord>, Error>)
        requires
            old(self).wf(),
        ensures
            final(self).wf(),
            final(self).numbers() == old(self).numbers(),
            final(self).segments() == old(self).segments(),
            ({
                let (out, i, o) = read_from(
                    old(self).segments(),
                    old(self).at_segment(),
                    old(self).at_offset(),
                    None,
                );
                &&& final(self).at_segment() == i
                &&& final(self).at_offset() == o
                &&& match r {
                    Ok(Some(rec)) => out == Ok::<Option<Seq<u8>>, ErrorView>(Some(rec.data@)),
                    Ok(None) => out == Ok::<Option<Seq<u8>>, ErrorView>(None),
                    Err(e) => out == Err::<Option<Seq<u8>>, ErrorView>(e@),
                }
            }),
    {
        let ghost segs = self.segments();
        let ghost want = read_from(segs, self.at_segment(), self.at_offset(), None);
        let mut acc: Vec<u8> = Vec::new();
        let mut started: bool = false;
        loop
            invariant
                self.wf(),
                self.segments() == segs,
                self.numbers() == old(self).numbers(),
                segs == old(self).segments(),
                want == read_from(
                    segs,
                    self.at_segment(),
                    self.at_offset(),
                    if started {
                        Some(acc@)
                    } else {
                        None
                    },
                ),
                want == read_from(
                    old(self).segments(),
                    old(self).at_segment(),
                    old(self).at_offset(),
                    None,
                ),
            decreases
                    segs.len() - self.at_segment(),
                    rest_of(segs, self.at_segment(), self.at_offset()),
        {
            if self.idx >= self.segs.len() {
                return Ok(None);
            }
            assert(segs[self.idx as int] == self.segs@[self.idx as int]@);
            let seg = self.segs[self.idx].as_slice();
            let seg_len = seg.len();
            assert(seg@.len() == seg_len);
            match parse_chunk(seg, self.offset) {
                ChunkFound::End => {
                    self.idx = self.idx + 1;
                    self.offset = 0;
                    if started && self.idx >= self.segs.len() {
                        return Err(corruption("incomplete chunked record at end of WAL"));
                    }
                },
                ChunkFound::Bad(e) => {
                    return Err(e);
                },
                ChunkFound::Good(kind, payload) => {
                    self.offset = self.offset + 9 + payload.len();
                    match kind {
                        RecordType::Full => {
                            if started {
                                return Err(corruption("Full record while accumulating chunks"));
                            }
                            return Ok(Some(WalRecord::new(payload)));
                        },
                        RecordType::First => {
                            if started {
                                return Err(corruption("First record while accumulating chunks"));
                            }
                            started = true;
                            acc = payload;
                        },
                        RecordType::Middle => {
                            if !started {
                                return Err(corruption("Middle record without First"));
                            }
                            append_bytes(&mut acc, &payload);
                        },
                        RecordType::Last => {
                            if !started {
                                return Err(corruption("Last record without First"));
                            }
                            append_bytes(&mut acc, &payload);
                            return Ok(Some(WalRecord::new(acc)));
                        },
                    }
                },
            }
        }
    }

    /// The place to read next: the number of a segment and an offset in it; the end of the last
    /// segment where all is read.
    pub fn position(&self) -> (r: (u64, u64))
        requires
            self.wf(),
        ensures
            r == (if self.at_segment() < self.segments().len() {
                (self.numbers()[self.at_segment() as int], self.at_offset() as u64)
            } else if self.segments().len() > 0 {
                (self.numbers().last(), self.segments().last().len() as u64)
            } else {
                (0, 0)
            }),
    {
        let n = self.segs.len();
        if self.idx < n {
            (self.nums[self.idx], self.offset as u64)
        } else if n > 0 {
            assert(self.segments().last() == self.segs@[n - 1]@);
            (self.nums[n - 1], self.segs[n - 1].len() as u64)
        } else {
            (0, 0)
        }
    }
}

/// Cuts a segment at an offset and makes it durable, where it exists.
pub fn truncate_segment(disk: &mut Disk, segment: u64, offset: usize)
    requires
        old(disk).wf(),
    ensures
        final(disk).taken() == old(disk).taken(),
        final(disk).wf(),
        old(disk).live().contains_key(FileId::Wal(segment)) ==> {
            let s = old(disk).live()[FileId::Wal(segment)];
            let t = if offset <= s.len() {
                s.take(offset as int)
            } else {
                s
            };
            &&& final(disk).live() == old(disk).live().insert(FileId::Wal(segment), t)
            &&& final(disk).durable() == old(disk).durable().insert(FileId::Wal(segment), t)
        },
        !old(disk).live().contains_key(FileId::Wal(segment)) ==> final(disk).live() == old(
            disk,
        ).live() && final(disk).durable() == old(disk).durable(),
{
    disk.truncate(FileId::Wal(segment), offset);
}

/// The files without the log segments before a number.
pub open spec fn without_segments(files: Files, before: u64) -> Files {
    files.restrict(
        Set::new(|id: FileId| !(id matches FileId::Wal(n) && n < before)),
    )
}

/// Removes the segments before a number.
pub fn delete_segments_before(disk: &mut Disk, before_segment: u64)
    requires
        old(disk).wf(),
    ensures
        final(disk).taken() == old(disk).taken(),
        final(disk).wf(),
        final(disk).live() == without_segments(old(disk).live(), before_segment),
        final(disk).durable() == without_segments(old(disk).durable(), before_segment),
{
    let nums = disk.wal_numbers();
    let ghost live = disk.live();
    let ghost durable = disk.durable();
    let ghost gone = |i: int|
        Set::new(
            |id: FileId|
                exists|k: int| 0 <= k < i && id == FileId::Wal(#[trigger] nums@[k]),
        );
    proof {
        disk.lemma_domains();
        assert(live.remove_keys(gone(0)) =~= live);
        assert(durable.remove_keys(gone(0)) =~= durable);
    }
    let mut i: usize = 0;
    while i < nums.len() && nums[i] < before_segment
        invariant
            disk.taken() == old(disk).taken(),
            disk.wf(),
            i <= nums@.len(),
            forall|k: int| 0 <= k < i ==> nums@[k] < before_segment,
            gone == (|i: int|
                Set::new(
                    |id: FileId|
                        exists|k: int| 0 <= k < i && id == FileId::Wal(#[trigger] nums@[k]),
                )),
            disk.live() == live.remove_keys(gone(i as int)),
            disk.durable() == durable.remove_keys(gone(i as int)),
        decreases nums.len() - i,
    {
        disk.remove(FileId::Wal(nums[i]));
        proof {
            let g0 = gone(i as int);
            let g1 = gone(i + 1);
            assert(g1 =~= g0.insert(FileId::Wal(nums@[i as int]))) by {
                assert forall|id: FileId| #[trigger] g1.contains(id) == g0.insert(
                    FileId::Wal(nums@[i as int]),
                ).contains(id) by {
                    if g0.contains(id) {
                        let k = choose|k: int| 0 <= k < i && id == FileId::Wal(#[trigger] nums@[k]);
                        assert(0 <= k < i + 1 && id == FileId::Wal(nums@[k]));
                    }
                }
            }
            assert(disk.live() =~= live.remove_keys(gone(i + 1)));
            assert(disk.durable() =~= durable.remove_keys(gone(i + 1)));
        }
        i += 1;
    }
    proof {
        let g = gone(i as int);
        assert forall|id: FileId| #[trigger] live.contains_key(id) implies g.contains(id) == (
        id matches FileId::Wal(n) && n < before_segment) by {
            match id {
                FileId::Wal(n) => {
                    assert(nums@.contains(n));
                    let k = choose|k: int| 0 <= k < nums@.len() && nums@[k] == n;
                    if n < before_segment {
                        if k >= i {
                            assert(nums@[i as int] <= nums@[k]);
                        }
                        assert(gone(i as int).contains(id));
                    }
                },
                _ => {},
            }
        }
        assert(disk.live() =~= without_segments(live, before_segment));
        assert(disk.durable() =~= without_segments(durable, before_segment));
    }
}

/// A synced log survives a crash: where all segments but the one in use were durable, a sync
/// makes the log of the durable bytes the log of the bytes.
pub proof fn law_synced_log_survives(
    live: Files,
    durable: Files,
    seg: u64,
    off: nat,
    records: Seq<Seq<u8>>,
)
    requires
        live.dom() == durable.dom(),
        log_end(live, seg, off),
        durable_before(live, durable, seg),
        clean_log(live, records),
    ensures
        clean_log(durable.insert(FileId::Wal(seg), live[FileId::Wal(seg)]), records),
{
    let after = durable.insert(FileId::Wal(seg), live[FileId::Wal(seg)]);
    let (nums, segs, css) = choose|
        nums: Seq<u64>,
        segs: Seq<Seq<u8>>,
        css: Seq<Seq<Chunk>>,
    | #[trigger]
        holds_log(live, nums, segs, css, records);
    assert(is_log(live, nums, segs));
    assert forall|n: u64| #[trigger] nums.contains(n) == after.contains_key(FileId::Wal(n)) by {
        assert(nums.contains(n) == live.contains_key(FileId::Wal(n)));
        assert(live.dom().contains(FileId::Wal(n)) == durable.dom().contains(FileId::Wal(n)));
    }
    assert forall|i: int| 0 <= i < nums.len() implies #[trigger] segs[i]
        == after[FileId::Wal(nums[i])] by {
        assert(nums.contains(nums[i]));
        assert(live.contains_key(FileId::Wal(nums[i])));
    }
    assert(is_log(after, nums, segs));
    assert(holds_log(after, nums, segs, css, records));
}

/// Tells whether these are the bytes of the log's segments, in order.
pub open spec fn are_segments(live: Files, segs: Seq<Seq<u8>>) -> bool {
    exists|nums: Seq<u64>| #[trigger] is_log(live, nums, segs)
}

/// The bytes of the log's segments, in order.
pub open spec fn log_segments(live: Files) -> Seq<Seq<u8>> {
    choose|segs: Seq<Seq<u8>>| #[trigger] are_segments(live, segs)
}

/// However the segments of a log are listed, they are the log's segments.
pub proof fn lemma_log_segments(live: Files, nums: Seq<u64>, segs: Seq<Seq<u8>>)
    requires
        is_log(live, nums, segs),
    ensures
        log_segments(live) == segs,
{
    assert(are_segments(live, segs));
    let segs2 = log_segments(live);
    let nums2 = choose|nums: Seq<u64>| #[trigger] is_log(live, nums, segs2);
    assert forall|n: u64| #[trigger] nums.contains(n) == nums2.contains(n) by {
        assert(nums.contains(n) == live.contains_key(FileId::Wal(n)));
        assert(nums2.contains(n) == live.contains_key(FileId::Wal(n)));
    }
    lemma_ascending_unique(nums, nums2);
    assert(segs =~= segs2);
}

/// The segments of a log without a fault read back as its records.
pub proof fn lemma_clean_segments(live: Files, records: Seq<Seq<u8>>)
    requires
        clean_log(live, records),
    ensures
        log_records(log_segments(live)) == (records, None::<ErrorView>),
{
    let (nums, segs, css) = choose|
        nums: Seq<u64>,
        segs: Seq<Seq<u8>>,
        css: Seq<Seq<Chunk>>,
    | #[trigger]
        holds_log(live, nums, segs, css, records);
    lemma_log_segments(live, nums, segs);
}

/// A chunk is read exactly where a whole header is left, the type is one of those there are, the
/// payload is there in full, and the checksum is that of the type and the payload. Anything else is
/// refused, but for less than a header, which is the end.
pub proof fn law_chunk_read(seg: Seq<u8>, off: nat, kind: RecordType, payload: Seq<u8>)
    ensures
        chunk_at(seg, off) == ChunkRead::Good((kind, payload)) <==> {
            let o = off as int;
            &&& off + 9 + payload.len() <= seg.len()
            &&& seg[o + 8] == match kind {
                RecordType::Full => 1u8,
                RecordType::First => 2u8,
                RecordType::Middle => 3u8,
                RecordType::Last => 4u8,
            }
            &&& le32_at(seg, o + 4) == payload.len()
            &&& seg.subrange(o + 9, o + 9 + payload.len()) == payload
            &&& le32_at(seg, o) == crc32c_of(crc32c_of(0, seq![seg[o + 8]]), payload)
        },
        chunk_at(seg, off) is End <==> seg.len() < off + 9,
{
}

proof fn lemma_encoded_front(c: Chunk, cs: Seq<Chunk>)
    ensures
        encode_chunks(seq![c] + cs).len() == 9 + c.1.len() + encode_chunks(cs).len(),
{
    lemma_encode_append(seq![c], cs);
    lemma_chunk_len(c);
    let one = seq![c];
    assert(one.drop_last() =~= Seq::<Chunk>::empty());
    assert(encode_chunks(one) == encode_chunks(one.drop_last()) + chunk_bytes(c));
}

proof fn lemma_split_within(size: u64, off: nat, data: Seq<u8>, first: bool, g: int)
    requires
        size > 9,
        off <= size,
        0 <= g < split_plan(size, off, data, first).len(),
    ensures
        (if g == 0 {
            off
        } else {
            0
        }) + encode_chunks(split_plan(size, off, data, first)[g]).len() <= size,
    decreases
            data.len(),
            (if room(size, off) < 9 {
                1nat
            } else if room(size, off) == 9 {
                2
            } else {
                0
            }),
{
    let none = Seq::<Chunk>::empty();
    let plan = split_plan(size, off, data, first);
    if data.len() == 0 {
    } else if room(size, off) < 9 {
        if g > 0 {
            let rest = split_plan(size, 0, data, first);
            assert(plan[g] == rest[g - 1]);
            lemma_split_within(size, 0, data, first, g - 1);
        } else {
            assert(plan[0] == none);
        }
    } else {
        let free = (room(size, off) - 9) as nat;
        let n = if data.len() <= free {
            data.len()
        } else {
            free
        };
        let c: Chunk = (part_type(first, n == data.len()), data.take(n as int));
        let rest = split_plan(size, off + 9 + n, data.skip(n as int), false);
        lemma_split_nonempty(size, off + 9 + n, data.skip(n as int), false);
        lemma_split_within(size, off + 9 + n, data.skip(n as int), false, g);
        if g == 0 {
            assert(plan[0] == seq![c] + rest[0]);
            lemma_encoded_front(c, rest[0]);
        } else {
            assert(plan[g] == rest[g]);
        }
    }
}

/// No segment grows past its size, however long a record is: what is put into the segment in use
/// fits behind what it holds, and what goes into each new one fits there.
pub proof fn law_segments_within_size(size: u64, off: nat, data: Seq<u8>, g: int)
    requires
        size > 9,
        off <= size,
        0 <= g < append_plan(size, off, data).len(),
    ensures
        (if g == 0 {
            off
        } else {
            0
        }) + encode_chunks(append_plan(size, off, data)[g]).len() <= size,
{
    let c: Chunk = (RecordType::Full, data);
    let none = Seq::<Chunk>::empty();
    lemma_encoded_front(c, none);
    assert(seq![c] + none =~= seq![c]);
    assert(encode_chunks(none).len() == 0);
    if data.len() > 0 && data.len() + 9 > room(size, off) {
        lemma_split_within(size, off, data, true, g);
    }
}

/// Dropping the front of a log takes away the segments before a number and nothing else: every other
/// file is there as it was.
pub proof fn law_front_dropped(files: Files, before: u64, id: FileId)
    ensures
        without_segments(files, before).contains_key(id) <==> files.contains_key(id) && !(
        id matches FileId::Wal(n) && n < before),
        without_segments(files, before).contains_key(id) ==> without_segments(files, before)[id]
            == files[id],
{
}

} // verus!
