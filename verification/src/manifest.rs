//! The manifest: which table files make up the database.
//!
//! ```text
//! 0x4d414e49 (4) | 1 (4) | next file number (8) | sequence (8) | number of levels (4)
//! each level:  number of files (4)
//! each file:   number (8) | size (8) | len (4) | smallest key | len (4) | largest key
//! ```

use crate::codec::{append_bytes, copy_range, get_u32, get_u64, le32, le32_at, le64, le64_at,
    lemma_le_fixed, put_u32, put_u64};
use crate::compaction::{files_view, FileMetadata, FileView, Version};
use crate::error::{corruption, Error, ErrorView};
use vstd::prelude::*;

verus! {

/// The first four bytes of a manifest.
pub const MANIFEST_MAGIC: u32 = 0x4d41_4e49;

/// The bytes of a file's description.
pub open spec fn file_bytes(f: FileView) -> Seq<u8> {
    le64(f.file_num) + le64(f.file_size) + le32(f.smallest_key.len() as u32) + f.smallest_key
        + le32(f.largest_key.len() as u32) + f.largest_key
}

/// The bytes of descriptions of files.
pub open spec fn files_bytes(fs: Seq<FileView>) -> Seq<u8>
    decreases fs.len(),
{
    if fs.len() == 0 {
        Seq::<u8>::empty()
    } else {
        files_bytes(fs.drop_last()) + file_bytes(fs.last())
    }
}

/// The bytes of levels.
pub open spec fn levels_bytes(v: Seq<Seq<FileView>>) -> Seq<u8>
    decreases v.len(),
{
    if v.len() == 0 {
        Seq::<u8>::empty()
    } else {
        levels_bytes(v.drop_last()) + (le32(v.last().len() as u32) + files_bytes(v.last()))
    }
}

/// The bytes of a manifest.
pub open spec fn manifest_bytes(v: Seq<Seq<FileView>>, file_num: u64, seq: u64) -> Seq<u8> {
    le32(MANIFEST_MAGIC) + le32(1) + le64(file_num) + le64(seq) + le32(v.len() as u32)
        + levels_bytes(v)
}

/// The file that bytes describe at a place, and the place after it.
pub open spec fn file_at(d: Seq<u8>, off: nat) -> Option<(FileView, nat)> {
    if off + 20 > d.len() {
        None
    } else {
        let n = le32_at(d, (off + 16) as int);
        let a = off + 20 + n;
        if a + 4 > d.len() {
            None
        } else {
            let m = le32_at(d, a as int);
            let b = a + 4 + m;
            if b > d.len() {
                None
            } else {
                Some(
                    (
                        FileView {
                            file_num: le64_at(d, off as int) as u64,
                            file_size: le64_at(d, (off + 8) as int) as u64,
                            smallest_key: d.subrange((off + 20) as int, a as int),
                            largest_key: d.subrange((a + 4) as int, b as int),
                        },
                        b,
                    ),
                )
            }
        }
    }
}

/// The files that bytes describe from a place on, and the place after them.
pub open spec fn files_at(d: Seq<u8>, off: nat, count: nat) -> Option<(Seq<FileView>, nat)>
    decreases count,
{
    if count == 0 {
        Some((Seq::empty(), off))
    } else {
        match files_at(d, off, (count - 1) as nat) {
            None => None,
            Some((fs, at)) => match file_at(d, at) {
                None => None,
                Some((f, next)) => Some((fs.push(f), next)),
            },
        }
    }
}

/// The levels that bytes describe from a place on, and the place after them.
pub open spec fn levels_at(d: Seq<u8>, off: nat, count: nat) -> Option<(Seq<Seq<FileView>>, nat)>
    decreases count,
{
    if count == 0 {
        Some((Seq::empty(), off))
    } else {
        match levels_at(d, off, (count - 1) as nat) {
            None => None,
            Some((v, at)) => if at + 4 > d.len() {
                None
            } else {
                match files_at(d, at + 4, le32_at(d, at as int)) {
                    None => None,
                    Some((fs, next)) => Some((v.push(fs), next)),
                }
            },
        }
    }
}

/// What a manifest says: the files of each level, the next file number and the sequence number.
pub open spec fn manifest_of_bytes(d: Seq<u8>) -> Result<
    (Seq<Seq<FileView>>, u64, u64),
    ErrorView,
> {
    if d.len() < 24 {
        Err(ErrorView::Corruption("manifest too small"@))
    } else if le32_at(d, 0) != MANIFEST_MAGIC {
        Err(ErrorView::Corruption("invalid manifest magic"@))
    } else if d.len() < 28 {
        Err(ErrorView::Corruption("truncated manifest"@))
    } else {
        match levels_at(d, 28, le32_at(d, 24)) {
            None => Err(ErrorView::Corruption("truncated manifest"@)),
            Some((v, _)) => Ok((v, le64_at(d, 8) as u64, le64_at(d, 16) as u64)),
        }
    }
}

fn put_file(data: &mut Vec<u8>, f: &FileMetadata)
    ensures
        final(data)@ == old(data)@ + file_bytes(f@),
{
    let ghost before = data@;
    put_u64(data, f.file_num);
    put_u64(data, f.file_size);
    put_u32(data, f.smallest_key.len() as u32);
    append_bytes(data, &f.smallest_key);
    put_u32(data, f.largest_key.len() as u32);
    append_bytes(data, &f.largest_key);
    assert(data@ =~= before + file_bytes(f@));
}

fn put_files(data: &mut Vec<u8>, files: &Vec<FileMetadata>)
    ensures
        final(data)@ == old(data)@ + files_bytes(files_view(files@)),
{
    let ghost start = data@;
    let ghost fs = files_view(files@);
    let mut i: usize = 0;
    assert(start + files_bytes(fs.take(0)) =~= start);
    while i < files.len()
        invariant
            i <= files@.len(),
            fs == files_view(files@),
            data@ == start + files_bytes(fs.take(i as int)),
        decreases files@.len() - i,
    {
        proof {
            assert(fs.take(i + 1).drop_last() =~= fs.take(i as int));
            assert(fs.take(i + 1).last() == files@[i as int]@);
        }
        let ghost before = files_bytes(fs.take(i as int));
        put_file(data, &files[i]);
        assert(data@ =~= start + (before + file_bytes(files@[i as int]@)));
        i += 1;
    }
    assert(fs.take(i as int) =~= fs);
}

/// Encodes a manifest.
pub fn encode_manifest(version: &Version, file_num: u64, seq: u64) -> (r: Vec<u8>)
    ensures
        r@ == manifest_bytes(version@, file_num, seq),
{
    let mut data: Vec<u8> = Vec::new();
    put_u32(&mut data, MANIFEST_MAGIC);
    put_u32(&mut data, 1);
    put_u64(&mut data, file_num);
    put_u64(&mut data, seq);
    put_u32(&mut data, version.levels.len() as u32);
    let ghost head = data@;
    let ghost v = version@;
    proof {
        assert(head =~= le32(MANIFEST_MAGIC) + le32(1) + le64(file_num) + le64(seq) + le32(
            v.len() as u32,
        ));
        assert(head + levels_bytes(v.take(0)) =~= head);
    }
    let mut i: usize = 0;
    while i < version.levels.len()
        invariant
            i <= version.levels@.len(),
            v == version@,
            data@ == head + levels_bytes(v.take(i as int)),
        decreases version.levels@.len() - i,
    {
        let level = &version.levels[i];
        proof {
            assert(v.take(i + 1).drop_last() =~= v.take(i as int));
            assert(v.take(i + 1).last() == files_view(level@));
        }
        let ghost before = levels_bytes(v.take(i as int));
        put_u32(&mut data, level.len() as u32);
        put_files(&mut data, level);
        assert(data@ =~= head + (before + (le32(level@.len() as u32) + files_bytes(
            files_view(level@),
        ))));
        i += 1;
    }
    assert(v.take(i as int) =~= v);
    data
}

fn get_file(data: &[u8], off: usize) -> (r: Option<(FileMetadata, usize)>)
    requires
        off <= data@.len(),
    ensures
        match r {
            Some((f, next)) => file_at(data@, off as nat) == Some((f@, next as nat)) && next
                <= data@.len(),
            None => file_at(data@, off as nat) is None,
        },
{
    let len = data.len();
    if len - off < 20 {
        return None;
    }
    let file_num = get_u64(data, off);
    let file_size = get_u64(data, off + 8);
    let n = get_u32(data, off + 16) as usize;
    if len - off - 20 < 4 || len - off - 24 < n {
        return None;
    }
    let a = off + 20 + n;
    let smallest_key = copy_range(data, off + 20, a);
    let m = get_u32(data, a) as usize;
    if len - a - 4 < m {
        return None;
    }
    let largest_key = copy_range(data, a + 4, a + 4 + m);
    Some((FileMetadata { file_num, file_size, smallest_key, largest_key }, a + 4 + m))
}

fn get_files(data: &[u8], off: usize, count: u32) -> (r: Option<(Vec<FileMetadata>, usize)>)
    requires
        off <= data@.len(),
    ensures
        match r {
            Some((fs, next)) => files_at(data@, off as nat, count as nat) == Some(
                (files_view(fs@), next as nat),
            ) && next <= data@.len(),
            None => files_at(data@, off as nat, count as nat) is None,
        },
{
    let mut out: Vec<FileMetadata> = Vec::new();
    let mut at: usize = off;
    let mut i: u32 = 0;
    assert(files_view(out@) =~= Seq::<FileView>::empty());
    while i < count
        invariant
            i <= count,
            at <= data@.len(),
            files_at(data@, off as nat, i as nat) == Some((files_view(out@), at as nat)),
        decreases count - i,
    {
        let ghost before = files_view(out@);
        match get_file(data, at) {
            Some((f, next)) => {
                let ghost x = f@;
                out.push(f);
                assert(files_view(out@) =~= before.push(x));
                at = next;
            },
            None => {
                proof {
                    lemma_files_fail(data@, off as nat, (i + 1) as nat, count as nat);
                }
                return None;
            },
        }
        i += 1;
    }
    Some((out, at))
}

proof fn lemma_files_fail(d: Seq<u8>, off: nat, i: nat, count: nat)
    requires
        i <= count,
        files_at(d, off, i) is None,
    ensures
        files_at(d, off, count) is None,
    decreases count,
{
    if i < count {
        lemma_files_fail(d, off, i, (count - 1) as nat);
    }
}

proof fn lemma_levels_fail(d: Seq<u8>, off: nat, i: nat, count: nat)
    requires
        i <= count,
        levels_at(d, off, i) is None,
    ensures
        levels_at(d, off, count) is None,
    decreases count,
{
    if i < count {
        lemma_levels_fail(d, off, i, (count - 1) as nat);
    }
}

/// Decodes a manifest.
pub fn decode_manifest(data: &[u8]) -> (r: Result<(Version, u64, u64), Error>)
    ensures
        match r {
            Ok((v, file_num, seq)) => manifest_of_bytes(data@) == Ok::<
                (Seq<Seq<FileView>>, u64, u64),
                ErrorView,
            >((v@, file_num, seq)),
            Err(e) => manifest_of_bytes(data@) == Err::<(Seq<Seq<FileView>>, u64, u64), ErrorView>(
                e@,
            ),
        },
{
    let len = data.len();
    if len < 24 {
        return Err(corruption("manifest too small"));
    }
    if get_u32(data, 0) != MANIFEST_MAGIC {
        return Err(corruption("invalid manifest magic"));
    }
    if len < 28 {
        return Err(corruption("truncated manifest"));
    }
    let file_num = get_u64(data, 8);
    let seq = get_u64(data, 16);
    let count = get_u32(data, 24);
    let mut version = Version { levels: Vec::new() };
    let mut at: usize = 28;
    let mut i: u32 = 0;
    assert(version@ =~= Seq::<Seq<FileView>>::empty());
    while i < count
        invariant
            i <= count,
            len == data@.len(),
            at <= len,
            count == le32_at(data@, 24),
            levels_at(data@, 28, i as nat) == Some((version@, at as nat)),
            manifest_of_bytes(data@) == (match levels_at(data@, 28, count as nat) {
                None => Err::<(Seq<Seq<FileView>>, u64, u64), ErrorView>(
                    ErrorView::Corruption("truncated manifest"@),
                ),
                Some((v, _)) => Ok::<(Seq<Seq<FileView>>, u64, u64), ErrorView>(
                    (v, file_num, seq),
                ),
            }),
        decreases count - i,
    {
        let ghost before = version@;
        if len - at < 4 {
            proof {
                lemma_levels_fail(data@, 28, (i + 1) as nat, count as nat);
            }
            return Err(corruption("truncated manifest"));
        }
        let n = get_u32(data, at);
        match get_files(data, at + 4, n) {
            Some((fs, next)) => {
                let ghost x = files_view(fs@);
                version.levels.push(fs);
                assert(version@ =~= before.push(x));
                at = next;
            },
            None => {
                proof {
                    lemma_levels_fail(data@, 28, (i + 1) as nat, count as nat);
                }
                return Err(corruption("truncated manifest"));
            },
        }
        i += 1;
    }
    Ok((version, file_num, seq))
}

/// Tells whether the numbers of a manifest fit where they are held.
pub open spec fn manifest_fits(v: Seq<Seq<FileView>>) -> bool {
    &&& v.len() <= u32::MAX
    &&& forall|i: int| 0 <= i < v.len() ==> level_fits(#[trigger] v[i])
}

/// Tells whether the numbers of a level fit where they are held.
pub open spec fn level_fits(fs: Seq<FileView>) -> bool {
    &&& fs.len() <= u32::MAX
    &&& forall|i: int|
        0 <= i < fs.len() ==> (#[trigger] fs[i]).smallest_key.len() <= u32::MAX
            && fs[i].largest_key.len() <= u32::MAX
}

#[verifier::rlimit(40)]
proof fn lemma_file_at(pre: Seq<u8>, f: FileView, post: Seq<u8>)
    requires
        f.smallest_key.len() <= u32::MAX,
        f.largest_key.len() <= u32::MAX,
    ensures
        file_at(pre + file_bytes(f) + post, pre.len()) == Some(
            (f, pre.len() + file_bytes(f).len()),
        ),
{
    let b = file_bytes(f);
    let d = pre + b + post;
    let p = pre.len() as int;
    let n = f.smallest_key.len() as int;
    let m = f.largest_key.len() as int;
    lemma_le_fixed(n as u32, f.file_num);
    lemma_le_fixed(m as u32, f.file_size);
    assert(b.len() == 24 + n + m);
    assert(b.subrange(0, 8) =~= le64(f.file_num));
    assert(b.subrange(8, 16) =~= le64(f.file_size));
    assert(b.subrange(16, 20) =~= le32(n as u32));
    assert(b.subrange(20, 20 + n) =~= f.smallest_key);
    assert(b.subrange(20 + n, 24 + n) =~= le32(m as u32));
    assert(b.subrange(24 + n, 24 + n + m) =~= f.largest_key);
    assert(d.subrange(p, p + 8) =~= b.subrange(0, 8));
    assert(d.subrange(p + 8, p + 16) =~= b.subrange(8, 16));
    assert(d.subrange(p + 16, p + 20) =~= b.subrange(16, 20));
    assert(d.subrange(p + 20, p + 20 + n) =~= b.subrange(20, 20 + n));
    assert(d.subrange(p + 20 + n, p + 24 + n) =~= b.subrange(20 + n, 24 + n));
    assert(d.subrange(p + 24 + n, p + 24 + n + m) =~= b.subrange(24 + n, 24 + n + m));
}

proof fn lemma_regroup(a: Seq<u8>, b: Seq<u8>, c: Seq<u8>, d: Seq<u8>)
    ensures
        a + (b + c) + d == a + b + (c + d),
        a + (b + c) + d == a + b + c + d,
{
    assert(a + (b + c) + d =~= a + b + (c + d));
    assert(a + (b + c) + d =~= a + b + c + d);
}

proof fn lemma_files_at(pre: Seq<u8>, fs: Seq<FileView>, post: Seq<u8>)
    requires
        level_fits(fs),
    ensures
        files_at(pre + files_bytes(fs) + post, pre.len(), fs.len()) == Some(
            (fs, pre.len() + files_bytes(fs).len()),
        ),
    decreases fs.len(),
{
    let d = pre + files_bytes(fs) + post;
    if fs.len() == 0 {
        assert(fs =~= Seq::<FileView>::empty());
    } else {
        let t = fs.drop_last();
        let f = fs.last();
        assert(fs[fs.len() - 1] == f);
        assert forall|i: int| 0 <= i < t.len() implies (#[trigger] t[i]).smallest_key.len()
            <= u32::MAX && t[i].largest_key.len() <= u32::MAX by {
            assert(t[i] == fs[i]);
        }
        let x = files_bytes(t);
        let y = file_bytes(f);
        lemma_regroup(pre, x, y, post);
        lemma_files_at(pre, t, y + post);
        lemma_file_at(pre + x, f, post);
        assert(t.push(f) =~= fs);
    }
}

#[verifier::rlimit(40)]
proof fn lemma_levels_at(pre: Seq<u8>, v: Seq<Seq<FileView>>, post: Seq<u8>)
    requires
        manifest_fits(v),
    ensures
        levels_at(pre + levels_bytes(v) + post, pre.len(), v.len()) == Some(
            (v, pre.len() + levels_bytes(v).len()),
        ),
    decreases v.len(),
{
    let d = pre + levels_bytes(v) + post;
    if v.len() == 0 {
        assert(v =~= Seq::<Seq<FileView>>::empty());
    } else {
        let t = v.drop_last();
        let l = v.last();
        assert(v[v.len() - 1] == l);
        assert forall|i: int| 0 <= i < t.len() implies level_fits(#[trigger] t[i]) by {
            assert(t[i] == v[i]);
        }
        let n = l.len() as u32;
        let count = le32(n);
        lemma_le_fixed(n, 0);
        let x = levels_bytes(t);
        let y = files_bytes(l);
        let head = pre + x;
        lemma_regroup(pre, x, count + y, post);
        lemma_regroup(head, count, y, post);
        lemma_levels_at(pre, t, (count + y) + post);
        let at = head.len() as int;
        assert(d.subrange(at, at + 4) =~= count) by {
            assert(d == head + count + (y + post));
        }
        lemma_files_at(head + count, l, post);
        assert(t.push(l) =~= v);
    }
}

/// Decoding the bytes of a manifest gives what it says.
pub proof fn law_manifest_round_trip(v: Seq<Seq<FileView>>, file_num: u64, seq: u64)
    requires
        manifest_fits(v),
    ensures
        manifest_of_bytes(manifest_bytes(v, file_num, seq)) == Ok::<
            (Seq<Seq<FileView>>, u64, u64),
            ErrorView,
        >((v, file_num, seq)),
{
    let d = manifest_bytes(v, file_num, seq);
    let n = v.len() as u32;
    lemma_le_fixed(MANIFEST_MAGIC, file_num);
    lemma_le_fixed(1, seq);
    lemma_le_fixed(n, 0);
    let head = le32(MANIFEST_MAGIC) + le32(1) + le64(file_num) + le64(seq) + le32(n);
    assert(d.subrange(0, 4) =~= le32(MANIFEST_MAGIC));
    assert(d.subrange(8, 16) =~= le64(file_num));
    assert(d.subrange(16, 24) =~= le64(seq));
    assert(d.subrange(24, 28) =~= le32(n));
    lemma_levels_at(head, v, Seq::empty());
    assert(head + levels_bytes(v) + Seq::<u8>::empty() =~= d);
}

/// A manifest is accepted only where it begins with the right mark and is long enough for what it
/// counts; the numbers in it are those that the database goes on with.
pub proof fn law_manifest_checked(d: Seq<u8>)
    ensures
        manifest_of_bytes(d) is Ok ==> d.len() >= 28 && le32_at(d, 0) == MANIFEST_MAGIC,
        manifest_of_bytes(d) matches Ok(m) ==> {
            &&& m.0.len() == le32_at(d, 24)
            &&& m.1 == le64_at(d, 8) as u64
            &&& m.2 == le64_at(d, 16) as u64
        },
        d.len() < 24 ==> manifest_of_bytes(d) is Err,
{
    if d.len() >= 28 {
        lemma_levels_count(d, 28, le32_at(d, 24));
    }
}

proof fn lemma_levels_count(d: Seq<u8>, off: nat, count: nat)
    ensures
        levels_at(d, off, count) matches Some((v, _)) ==> v.len() == count,
    decreases count,
{
    if count > 0 {
        lemma_levels_count(d, off, (count - 1) as nat);
    }
}

} // verus!
