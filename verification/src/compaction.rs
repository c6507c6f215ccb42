//! Levels of table files, and merging them down.
//!
//! Level 0 holds what was flushed; its files may overlap. On each level below, the files are in
//! order and do not overlap, and each level may grow to a multiple of the one above it.
//! Compaction merges the files of a level with those of the next that they overlap.

use crate::block::{raw_view, RawEntry};
use crate::codec::{bytes_eq, bytes_le, bytes_lt, copy_bytes, lemma_lex_asymmetric, lemma_lex_irreflexive,
    lemma_lex_le_lt, lemma_lex_lt_le, lemma_lex_total, lemma_lex_transitive, lex_le, lex_lt};
use crate::disk::{table_file_name, table_name, Disk, FileId, Files};
use crate::error::{corruption, Error, ErrorView};
use crate::memtable::{entries_view, InternalKey, MemtableValue};
use crate::merge::{front_of, held_by_some, is_tombstone, joined, law_gc_keeps, law_gc_keeps_reads,
    law_merge_has_all, law_merge_sorted, law_newest_keeps, law_newest_keeps_reads,
    law_surviving_sorted, lemma_parts, merged, newest_below, reads, seq_of, sources_sorted,
    sources_view, surviving, tail_of, user_of, visible, whole_keys, MergeIterator};
use crate::sstable::{all_of, blocks_of, build_table, decode_internal_key, decode_value,
    encode_internal_key, entries_from, front_from, is_key, key_bytes, key_of_bytes, law_key_bytes_round_trip,
    law_key_order, law_key_round_trip, no_empty_block, raw_entries, raw_entry, raw_sorted, seq_part,
    table_bytes, table_index, user_part, value_of_bytes, SSTableConfig, SSTableReader};
use crate::text::text_of;
use vstd::prelude::*;

verus! {

/// Settings of compaction.
#[derive(Debug, Clone, Copy)]
pub struct CompactionConfig {
    /// Number of files on level 0 that starts a compaction.
    pub l0_compaction_trigger: usize,
    /// Size of level 1 in bytes.
    pub base_level_size: u64,
    /// Size ratio between levels.
    pub size_ratio: u64,
    /// Number of levels.
    pub max_levels: usize,
    /// Settings of the table files.
    pub sstable_config: SSTableConfig,
}

impl Default for CompactionConfig {
    fn default() -> (r: Self)
        ensures
            r.l0_compaction_trigger == 4,
            r.base_level_size == 64 * 1024 * 1024,
            r.size_ratio == 10,
            r.max_levels == 7,
            r.sstable_config.block_size == 4096,
            r.sstable_config.use_learned_indexes,
    {
        CompactionConfig {
            l0_compaction_trigger: 4,
            base_level_size: 67_108_864,
            size_ratio: 10,
            max_levels: 7,
            sstable_config: SSTableConfig::default(),
        }
    }
}

/// A table file of a version.
#[derive(Debug, Clone)]
pub struct FileMetadata {
    /// Its number.
    pub file_num: u64,
    /// Its size in bytes.
    pub file_size: u64,
    /// Its smallest key.
    pub smallest_key: Vec<u8>,
    /// Its largest key.
    pub largest_key: Vec<u8>,
}

/// A table file in the mathematical model.
pub struct FileView {
    pub file_num: u64,
    pub file_size: u64,
    pub smallest_key: Seq<u8>,
    pub largest_key: Seq<u8>,
}

impl View for FileMetadata {
    type V = FileView;

    open spec fn view(&self) -> FileView {
        FileView {
            file_num: self.file_num,
            file_size: self.file_size,
            smallest_key: self.smallest_key@,
            largest_key: self.largest_key@,
        }
    }
}

/// The views of table files.
pub open spec fn files_view(s: Seq<FileMetadata>) -> Seq<FileView> {
    s.map_values(|f: FileMetadata| f@)
}

/// Tells whether the key range of a file overlaps a key range.
pub open spec fn overlaps_keys(f: FileView, smallest: Seq<u8>, largest: Seq<u8>) -> bool {
    !(lex_lt(f.largest_key, smallest) || lex_lt(largest, f.smallest_key))
}

impl FileMetadata {
    /// Tells whether the key range overlaps that of another file.
    pub fn overlaps(&self, other: &FileMetadata) -> (r: bool)
        ensures
            r == overlaps_keys(self@, other@.smallest_key, other@.largest_key),
    {
        self.overlaps_range(&other.smallest_key, &other.largest_key)
    }

    /// Tells whether the key range overlaps a key range.
    pub fn overlaps_range(&self, smallest: &[u8], largest: &[u8]) -> (r: bool)
        ensures
            r == overlaps_keys(self@, smallest@, largest@),
    {
        !(bytes_lt(&self.largest_key, smallest) || bytes_lt(largest, &self.smallest_key))
    }

    /// Copies the description of a file.
    pub fn copy(&self) -> (r: Self)
        ensures
            r@ == self@,
    {
        FileMetadata {
            file_num: self.file_num,
            file_size: self.file_size,
            smallest_key: copy_bytes(&self.smallest_key),
            largest_key: copy_bytes(&self.largest_key),
        }
    }
}

/// Copies descriptions of files.
pub fn copy_files(s: &Vec<FileMetadata>) -> (r: Vec<FileMetadata>)
    ensures
        files_view(r@) == files_view(s@),
{
    let mut r: Vec<FileMetadata> = Vec::new();
    let mut i: usize = 0;
    while i < s.len()
        invariant
            i <= s@.len(),
            r@.len() == i,
            forall|j: int| 0 <= j < i ==> (#[trigger] r@[j])@ == s@[j]@,
        decreases s@.len() - i,
    {
        r.push(s[i].copy());
        i += 1;
    }
    assert(files_view(r@) =~= files_view(s@));
    r
}

/// The files of each level.
#[derive(Debug, Clone)]
pub struct Version {
    /// The files of each level, level 0 first.
    pub levels: Vec<Vec<FileMetadata>>,
}

impl View for Version {
    type V = Seq<Seq<FileView>>;

    open spec fn view(&self) -> Seq<Seq<FileView>> {
        self.levels@.map_values(|l: Vec<FileMetadata>| files_view(l@))
    }
}

/// The sizes of files, added up.
pub open spec fn total_size(files: Seq<FileView>) -> nat
    decreases files.len(),
{
    if files.len() == 0 {
        0
    } else {
        total_size(files.drop_last()) + files.last().file_size as nat
    }
}

/// A number, or the largest that fits where it is larger.
pub open spec fn capped(n: nat) -> u64 {
    if n <= u64::MAX {
        n as u64
    } else {
        u64::MAX
    }
}

/// The size of a level in bytes, or the largest number where it is larger.
pub open spec fn size_of_level(v: Seq<Seq<FileView>>, level: int) -> u64 {
    if 0 <= level < v.len() {
        capped(total_size(v[level]))
    } else {
        0
    }
}

/// The files whose key range overlaps a key range, in order.
pub open spec fn overlapping(files: Seq<FileView>, smallest: Seq<u8>, largest: Seq<u8>) -> Seq<
    FileView,
>
    decreases files.len(),
{
    if files.len() == 0 {
        Seq::empty()
    } else {
        let before = overlapping(files.drop_last(), smallest, largest);
        if overlaps_keys(files.last(), smallest, largest) {
            before.push(files.last())
        } else {
            before
        }
    }
}

/// Tells whether files are in order and do not overlap.
pub open spec fn level_ordered(files: Seq<FileView>) -> bool {
    &&& forall|i: int|
        0 <= i < files.len() ==> lex_le((#[trigger] files[i]).smallest_key, files[i].largest_key)
    &&& forall|i: int, j: int|
        0 <= i < j < files.len() ==> lex_lt(
            (#[trigger] files[i]).largest_key,
            (#[trigger] files[j]).smallest_key,
        )
}

/// Where halving files from `lo` up to `hi` for the first whose largest key is not before a key
/// stops.
pub open spec fn reaching(files: Seq<FileView>, key: Seq<u8>, lo: int, hi: int) -> int
    decreases hi - lo,
{
    if lo >= hi {
        lo
    } else {
        let mid = lo + (hi - lo) / 2;
        if lex_lt(files[mid].largest_key, key) {
            reaching(files, key, mid + 1, hi)
        } else {
            reaching(files, key, lo, mid)
        }
    }
}

/// Where halving files from `lo` up to `hi` for the first whose smallest key is after a key stops.
pub open spec fn beyond(files: Seq<FileView>, key: Seq<u8>, lo: int, hi: int) -> int
    decreases hi - lo,
{
    if lo >= hi {
        lo
    } else {
        let mid = lo + (hi - lo) / 2;
        if lex_le(files[mid].smallest_key, key) {
            beyond(files, key, mid + 1, hi)
        } else {
            beyond(files, key, lo, mid)
        }
    }
}

/// The files of a level below level 0 that are found for a key range, by halving.
pub open spec fn found_overlapping(files: Seq<FileView>, smallest: Seq<u8>, largest: Seq<u8>) -> Seq<
    FileView,
> {
    let start = reaching(files, smallest, 0, files.len() as int);
    let end = beyond(files, largest, 0, files.len() as int);
    if start <= end {
        files.subrange(start, end)
    } else {
        Seq::empty()
    }
}

/// The number of files, all at the front, whose largest key is before a key.
spec fn is_first_reaching(files: Seq<FileView>, key: Seq<u8>, n: int) -> bool {
    &&& 0 <= n <= files.len()
    &&& forall|i: int| 0 <= i < n ==> lex_lt((#[trigger] files[i]).largest_key, key)
    &&& forall|i: int| n <= i < files.len() ==> !lex_lt((#[trigger] files[i]).largest_key, key)
}

/// The number of files, all at the front, whose smallest key is at or before a key.
spec fn is_first_beyond(files: Seq<FileView>, key: Seq<u8>, n: int) -> bool {
    &&& 0 <= n <= files.len()
    &&& forall|i: int| 0 <= i < n ==> lex_le((#[trigger] files[i]).smallest_key, key)
    &&& forall|i: int| n <= i < files.len() ==> !lex_le((#[trigger] files[i]).smallest_key, key)
}

proof fn lemma_largest_ascend(files: Seq<FileView>, key: Seq<u8>, i: int, j: int)
    requires
        level_ordered(files),
        0 <= i <= j < files.len(),
    ensures
        lex_lt(files[j].largest_key, key) ==> lex_lt(files[i].largest_key, key),
        lex_le(files[j].smallest_key, key) ==> lex_le(files[i].smallest_key, key),
{
    if i < j {
        let a = files[i];
        let b = files[j];
        assert(lex_lt(a.largest_key, b.smallest_key));
        assert(lex_le(b.smallest_key, b.largest_key));
        assert(lex_le(a.smallest_key, a.largest_key));
        if lex_lt(b.largest_key, key) {
            lemma_lex_lt_le(a.largest_key, b.smallest_key, b.largest_key);
            lemma_lex_transitive(a.largest_key, b.largest_key, key);
        }
        if lex_le(b.smallest_key, key) {
            lemma_lex_le_lt(a.smallest_key, a.largest_key, b.smallest_key);
            lemma_lex_lt_le(a.smallest_key, b.smallest_key, key);
        }
    }
}

proof fn lemma_reaching(files: Seq<FileView>, key: Seq<u8>, lo: int, hi: int)
    requires
        level_ordered(files),
        0 <= lo <= hi <= files.len(),
        forall|i: int| 0 <= i < lo ==> lex_lt((#[trigger] files[i]).largest_key, key),
        forall|i: int| hi <= i < files.len() ==> !lex_lt((#[trigger] files[i]).largest_key, key),
    ensures
        is_first_reaching(files, key, reaching(files, key, lo, hi)),
    decreases hi - lo,
{
    if lo < hi {
        let mid = lo + (hi - lo) / 2;
        if lex_lt(files[mid].largest_key, key) {
            assert forall|i: int| 0 <= i < mid + 1 implies lex_lt(
                (#[trigger] files[i]).largest_key,
                key,
            ) by {
                lemma_largest_ascend(files, key, i, mid);
            }
            lemma_reaching(files, key, mid + 1, hi);
        } else {
            assert forall|i: int| mid <= i < files.len() implies !lex_lt(
                (#[trigger] files[i]).largest_key,
                key,
            ) by {
                lemma_largest_ascend(files, key, mid, i);
            }
            lemma_reaching(files, key, lo, mid);
        }
    }
}

proof fn lemma_beyond(files: Seq<FileView>, key: Seq<u8>, lo: int, hi: int)
    requires
        level_ordered(files),
        0 <= lo <= hi <= files.len(),
        forall|i: int| 0 <= i < lo ==> lex_le((#[trigger] files[i]).smallest_key, key),
        forall|i: int| hi <= i < files.len() ==> !lex_le((#[trigger] files[i]).smallest_key, key),
    ensures
        is_first_beyond(files, key, beyond(files, key, lo, hi)),
    decreases hi - lo,
{
    if lo < hi {
        let mid = lo + (hi - lo) / 2;
        if lex_le(files[mid].smallest_key, key) {
            assert forall|i: int| 0 <= i < mid + 1 implies lex_le(
                (#[trigger] files[i]).smallest_key,
                key,
            ) by {
                lemma_largest_ascend(files, key, i, mid);
            }
            lemma_beyond(files, key, mid + 1, hi);
        } else {
            assert forall|i: int| mid <= i < files.len() implies !lex_le(
                (#[trigger] files[i]).smallest_key,
                key,
            ) by {
                lemma_largest_ascend(files, key, mid, i);
            }
            lemma_beyond(files, key, lo, mid);
        }
    }
}

/// Where files are in order and do not overlap, those found for a key range are those that overlap
/// it.
pub proof fn law_found_overlaps(files: Seq<FileView>, smallest: Seq<u8>, largest: Seq<u8>)
    requires
        level_ordered(files),
    ensures
        found_overlapping(files, smallest, largest) == overlapping(files, smallest, largest),
{
    let n = files.len() as int;
    lemma_reaching(files, smallest, 0, n);
    lemma_beyond(files, largest, 0, n);
    let start = reaching(files, smallest, 0, n);
    let end = beyond(files, largest, 0, n);
    lemma_overlapping_range(files, smallest, largest, start, end, n);
    assert(files.take(n) =~= files);
    if start == end {
        assert(files.subrange(start, end) =~= Seq::<FileView>::empty());
    }
}

/// Finds by halving the first file whose largest key is not before a key.
fn first_reaching(files: &Vec<FileMetadata>, key: &[u8]) -> (r: usize)
    ensures
        r == reaching(files_view(files@), key@, 0, files@.len() as int),
        r <= files@.len(),
{
    let ghost fs = files_view(files@);
    let mut lo: usize = 0;
    let mut hi: usize = files.len();
    while lo < hi
        invariant
            lo <= hi <= files@.len(),
            fs == files_view(files@),
            reaching(fs, key@, 0, fs.len() as int) == reaching(fs, key@, lo as int, hi as int),
        decreases hi - lo,
    {
        let mid = lo + (hi - lo) / 2;
        assert(fs[mid as int] == files@[mid as int]@);
        if bytes_lt(&files[mid].largest_key, key) {
            lo = mid + 1;
        } else {
            hi = mid;
        }
    }
    lo
}

/// Finds by halving the first file whose smallest key is after a key.
fn first_beyond(files: &Vec<FileMetadata>, key: &[u8]) -> (r: usize)
    ensures
        r == beyond(files_view(files@), key@, 0, files@.len() as int),
        r <= files@.len(),
{
    let ghost fs = files_view(files@);
    let mut lo: usize = 0;
    let mut hi: usize = files.len();
    while lo < hi
        invariant
            lo <= hi <= files@.len(),
            fs == files_view(files@),
            beyond(fs, key@, 0, fs.len() as int) == beyond(fs, key@, lo as int, hi as int),
        decreases hi - lo,
    {
        let mid = lo + (hi - lo) / 2;
        assert(fs[mid as int] == files@[mid as int]@);
        if bytes_le(&files[mid].smallest_key, key) {
            lo = mid + 1;
        } else {
            hi = mid;
        }
    }
    lo
}

proof fn lemma_overlapping_range(
    files: Seq<FileView>,
    smallest: Seq<u8>,
    largest: Seq<u8>,
    start: int,
    end: int,
    n: int,
)
    requires
        is_first_reaching(files, smallest, start),
        is_first_beyond(files, largest, end),
        0 <= n <= files.len(),
    ensures
        overlapping(files.take(n), smallest, largest) == (if start >= n || start >= end {
            Seq::<FileView>::empty()
        } else if n <= end {
            files.subrange(start, n)
        } else {
            files.subrange(start, end)
        }),
    decreases n,
{
    if n > 0 {
        lemma_overlapping_range(files, smallest, largest, start, end, n - 1);
        let f = files[n - 1];
        assert(files.take(n).drop_last() =~= files.take(n - 1));
        lemma_lex_total(f.smallest_key, largest);
        lemma_lex_irreflexive(largest);
        if lex_lt(largest, f.smallest_key) && lex_le(f.smallest_key, largest) {
            lemma_lex_le_lt(f.smallest_key, largest, f.smallest_key);
            lemma_lex_irreflexive(f.smallest_key);
        }
        assert(overlaps_keys(f, smallest, largest) == (n - 1 >= start && n - 1 < end));
        if n - 1 >= start && n - 1 < end {
            if n - 1 == start {
                assert(files.subrange(start, n) =~= Seq::<FileView>::empty().push(f));
            } else {
                assert(files.subrange(start, n) =~= files.subrange(start, n - 1).push(f));
            }
        }
    }
}

/// The files of a list of references.
pub open spec fn refs_view(s: Seq<&FileMetadata>) -> Seq<FileView> {
    s.map_values(|f: &FileMetadata| f@)
}

impl Version {
    /// No files, on this many levels.
    pub fn new(num_levels: usize) -> (r: Self)
        ensures
            r@ == Seq::new(num_levels as nat, |i: int| Seq::<FileView>::empty()),
    {
        let mut levels: Vec<Vec<FileMetadata>> = Vec::new();
        let mut i: usize = 0;
        while i < num_levels
            invariant
                i <= num_levels,
                levels@.len() == i,
                forall|j: int| 0 <= j < i ==> (#[trigger] levels@[j])@.len() == 0,
            decreases num_levels - i,
        {
            levels.push(Vec::new());
            i += 1;
        }
        let r = Version { levels };
        proof {
            let want = Seq::new(num_levels as nat, |i: int| Seq::<FileView>::empty());
            assert forall|j: int| 0 <= j < want.len() implies #[trigger] r@[j] == want[j] by {
                assert(r@[j] =~= Seq::<FileView>::empty());
            }
            assert(r@ =~= want);
        }
        r
    }

    /// Copies the version.
    pub fn copy(&self) -> (r: Self)
        ensures
            r@ == self@,
    {
        let mut levels: Vec<Vec<FileMetadata>> = Vec::new();
        let mut i: usize = 0;
        while i < self.levels.len()
            invariant
                i <= self.levels@.len(),
                levels@.len() == i,
                forall|j: int|
                    0 <= j < i ==> files_view((#[trigger] levels@[j])@) == files_view(
                        self.levels@[j]@,
                    ),
            decreases self.levels@.len() - i,
        {
            levels.push(copy_files(&self.levels[i]));
            i += 1;
        }
        let r = Version { levels };
        assert(r@ =~= self@);
        r
    }

    /// The size of a level in bytes; the largest number where it is larger.
    pub fn level_size(&self, level: usize) -> (r: u64)
        ensures
            r == size_of_level(self@, level as int),
    {
        if level >= self.levels.len() {
            return 0;
        }
        let files = &self.levels[level];
        let ghost fs = files_view(files@);
        let mut sum: u64 = 0;
        let mut i: usize = 0;
        while i < files.len()
            invariant
                i <= files@.len(),
                fs == files_view(files@),
                sum == capped(total_size(fs.take(i as int))),
            decreases files@.len() - i,
        {
            proof {
                assert(fs.take(i + 1).drop_last() =~= fs.take(i as int));
                assert(fs.take(i + 1).last() == files@[i as int]@);
            }
            sum = sum.saturating_add(files[i].file_size);
            i += 1;
        }
        assert(fs.take(i as int) =~= fs);
        assert(self@[level as int] == fs);
        sum
    }

    /// The files of level 0 whose key range overlaps a key range.
    pub fn get_overlapping_l0(&self, smallest: &[u8], largest: &[u8]) -> (r: Vec<&FileMetadata>)
        requires
            self@.len() > 0,
        ensures
            refs_view(r@) == overlapping(self@[0], smallest@, largest@),
    {
        let files = &self.levels[0];
        let ghost fs = files_view(files@);
        let mut r: Vec<&FileMetadata> = Vec::new();
        let mut i: usize = 0;
        assert(refs_view(r@) =~= overlapping(fs.take(0), smallest@, largest@));
        while i < files.len()
            invariant
                i <= files@.len(),
                fs == files_view(files@),
                refs_view(r@) == overlapping(fs.take(i as int), smallest@, largest@),
            decreases files@.len() - i,
        {
            let f = &files[i];
            let ghost before = refs_view(r@);
            proof {
                assert(fs.take(i + 1).drop_last() =~= fs.take(i as int));
                assert(fs.take(i + 1).last() == f@);
            }
            if f.overlaps_range(smallest, largest) {
                r.push(f);
                assert(refs_view(r@) =~= before.push(f@));
            }
            i += 1;
        }
        assert(fs.take(i as int) =~= fs);
        assert(self@[0] == fs);
        r
    }

    /// The files of a level whose key range overlaps a key range. Below level 0 they are found by
    /// halving, so there the files have to be in order.
    pub fn get_overlapping(&self, level: usize, smallest: &[u8], largest: &[u8]) -> (r: Vec<
        &FileMetadata,
    >)
        requires
            level < self@.len(),
        ensures
            refs_view(r@) == (if level == 0 {
                overlapping(self@[0], smallest@, largest@)
            } else {
                found_overlapping(self@[level as int], smallest@, largest@)
            }),
    {
        if level == 0 {
            return self.get_overlapping_l0(smallest, largest);
        }
        let files = &self.levels[level];
        let ghost fs = files_view(files@);
        assert(self@[level as int] == fs);
        let start = first_reaching(files, smallest);
        let end = first_beyond(files, largest);
        let mut r: Vec<&FileMetadata> = Vec::new();
        let mut i: usize = start;
        while i < end
            invariant
                start <= i,
                i <= end || start > end,
                start > end ==> i == start,
                end <= files@.len(),
                fs == files_view(files@),
                refs_view(r@) == (if start <= end {
                    fs.subrange(start as int, i as int)
                } else {
                    Seq::<FileView>::empty()
                }),
            decreases end - i,
        {
            let ghost before = refs_view(r@);
            let f = &files[i];
            r.push(f);
            proof {
                assert(fs[i as int] == f@);
                assert(refs_view(r@) =~= before.push(f@));
                assert(fs.subrange(start as int, i + 1) =~= fs.subrange(
                    start as int,
                    i as int,
                ).push(f@));
            }
            i += 1;
        }
        r
    }
}

/// Files that overlap a key range are among the files.
pub proof fn lemma_overlapping_subset(
    files: Seq<FileView>,
    smallest: Seq<u8>,
    largest: Seq<u8>,
    i: int,
)
    requires
        0 <= i < overlapping(files, smallest, largest).len(),
    ensures
        files.contains(overlapping(files, smallest, largest)[i]),
    decreases files.len(),
{
    let before = overlapping(files.drop_last(), smallest, largest);
    let all = overlapping(files, smallest, largest);
    if i < before.len() {
        lemma_overlapping_subset(files.drop_last(), smallest, largest, i);
        let x = before[i];
        let t = files.drop_last();
        let p = choose|p: int| 0 <= p < t.len() && t[p] == x;
        assert(files[p] == x);
        assert(all[i] == x);
    } else {
        assert(all[i] == files.last());
        assert(files[files.len() - 1] == all[i]);
    }
}

/// Files to merge.
#[derive(Debug)]
pub struct CompactionTask {
    /// The level to merge from.
    pub level: usize,
    /// Files of that level.
    pub input_files: Vec<FileMetadata>,
    /// Files of the next level.
    pub output_level_files: Vec<FileMetadata>,
}

/// Files to merge, in the mathematical model.
pub struct TaskView {
    pub level: nat,
    pub input_files: Seq<FileView>,
    pub output_level_files: Seq<FileView>,
}

impl View for CompactionTask {
    type V = TaskView;

    open spec fn view(&self) -> TaskView {
        TaskView {
            level: self.level as nat,
            input_files: files_view(self.input_files@),
            output_level_files: files_view(self.output_level_files@),
        }
    }
}

/// A number to the power `n`.
pub open spec fn power(base: nat, n: nat) -> nat
    decreases n,
{
    if n == 0 {
        1
    } else {
        base * power(base, (n - 1) as nat)
    }
}

/// The size up to which a level may grow; level 0 goes by the number of its files.
pub open spec fn target_size(config: CompactionConfig, level: nat) -> u64 {
    if level == 0 {
        0
    } else {
        capped(config.base_level_size as nat * power(config.size_ratio as nat, (level - 1) as nat))
    }
}

/// The first level from `level` on, but for the last, that is larger than it may be.
pub open spec fn first_oversized(config: CompactionConfig, v: Seq<Seq<FileView>>, level: nat) -> Option<
    nat,
>
    decreases v.len() - level,
{
    if level + 1 >= v.len() {
        None
    } else if size_of_level(v, level as int) > target_size(config, level) {
        Some(level)
    } else {
        first_oversized(config, v, level + 1)
    }
}

/// The smallest of the smallest keys.
pub open spec fn min_key(files: Seq<FileView>) -> Seq<u8>
    decreases files.len(),
{
    if files.len() <= 1 {
        files[0].smallest_key
    } else {
        let m = min_key(files.drop_last());
        let k = files.last().smallest_key;
        if lex_lt(k, m) {
            k
        } else {
            m
        }
    }
}

/// The largest of the largest keys.
pub open spec fn max_key(files: Seq<FileView>) -> Seq<u8>
    decreases files.len(),
{
    if files.len() <= 1 {
        files[0].largest_key
    } else {
        let m = max_key(files.drop_last());
        let k = files.last().largest_key;
        if lex_lt(m, k) {
            k
        } else {
            m
        }
    }
}

/// The file with the largest size; of equal ones the last.
pub open spec fn largest_file(files: Seq<FileView>) -> FileView
    decreases files.len(),
{
    if files.len() <= 1 {
        files[0]
    } else {
        let m = largest_file(files.drop_last());
        if m.file_size <= files.last().file_size {
            files.last()
        } else {
            m
        }
    }
}

/// The first key that a version of a user key can have.
pub open spec fn first_of_user(k: Seq<u8>) -> Seq<u8> {
    if is_key(k) {
        key_bytes((user_part(k), u64::MAX))
    } else {
        k
    }
}

/// The last key that a version of a user key can have.
pub open spec fn last_of_user(k: Seq<u8>) -> Seq<u8> {
    if is_key(k) {
        key_bytes((user_part(k), 0))
    } else {
        k
    }
}

/// A key lies between the first and the last that a version of its user key can have.
pub proof fn lemma_of_user(k: Seq<u8>)
    ensures
        lex_le(first_of_user(k), k),
        lex_le(k, last_of_user(k)),
{
    if is_key(k) {
        let u = user_part(k);
        law_key_bytes_round_trip(k);
        law_key_order((u, u64::MAX), (u, seq_part(k)));
        law_key_order((u, seq_part(k)), (u, 0));
    }
}

fn version_key(k: &[u8], seq: u64) -> (r: Vec<u8>)
    ensures
        r@ == if is_key(k@) {
            key_bytes((user_part(k@), seq))
        } else {
            k@
        },
{
    match decode_internal_key(k) {
        Some(key) => encode_internal_key(&InternalKey::new(key.user_key, seq)),
        None => copy_bytes(k),
    }
}

/// Merge level 0, all of it, with the files of level 1 that hold user keys in its range.
pub open spec fn l0_task(v: Seq<Seq<FileView>>) -> Option<TaskView> {
    if v[0].len() == 0 {
        None
    } else {
        Some(
            TaskView {
                level: 0,
                input_files: v[0],
                output_level_files: found_overlapping(
                    v[1],
                    first_of_user(min_key(v[0])),
                    last_of_user(max_key(v[0])),
                ),
            },
        )
    }
}

/// Merge the largest file of a level with the files of the next that hold user keys in its range.
pub open spec fn level_task(v: Seq<Seq<FileView>>, level: nat) -> Option<TaskView> {
    let files = v[level as int];
    if files.len() == 0 {
        None
    } else {
        let f = largest_file(files);
        Some(
            TaskView {
                level,
                input_files: seq![f],
                output_level_files: found_overlapping(
                    v[(level + 1) as int],
                    first_of_user(f.smallest_key),
                    last_of_user(f.largest_key),
                ),
            },
        )
    }
}

/// What to merge next.
pub open spec fn picked(config: CompactionConfig, v: Seq<Seq<FileView>>) -> Option<TaskView> {
    if v[0].len() >= config.l0_compaction_trigger {
        l0_task(v)
    } else {
        match first_oversized(config, v, 1) {
            Some(level) => level_task(v, level),
            None => None,
        }
    }
}

proof fn lemma_oversized_place(config: CompactionConfig, v: Seq<Seq<FileView>>, level: nat)
    ensures
        first_oversized(config, v, level) matches Some(l) ==> level <= l && l + 1 < v.len(),
    decreases v.len() - level,
{
    if level + 1 < v.len() {
        lemma_oversized_place(config, v, level + 1);
    }
}

/// There is a level after the one to merge; it is level 0 only where all of it is merged.
pub proof fn lemma_picked_level(config: CompactionConfig, v: Seq<Seq<FileView>>)
    requires
        v.len() >= 2,
    ensures
        picked(config, v) matches Some(t) ==> t.level + 1 < v.len() && (t.level == 0
            ==> t.input_files == v[0]) && (t.level > 0 ==> v[0].len() < config.l0_compaction_trigger),
{
    lemma_oversized_place(config, v, 1);
}

/// Tells whether the files of each level below level 0 are in order and do not overlap.
pub open spec fn levels_ordered(v: Seq<Seq<FileView>>) -> bool {
    forall|i: int| 1 <= i < v.len() ==> level_ordered(#[trigger] v[i])
}

fn copy_refs(s: &Vec<&FileMetadata>) -> (r: Vec<FileMetadata>)
    ensures
        files_view(r@) == refs_view(s@),
{
    let mut r: Vec<FileMetadata> = Vec::new();
    let mut i: usize = 0;
    while i < s.len()
        invariant
            i <= s@.len(),
            r@.len() == i,
            forall|j: int| 0 <= j < i ==> (#[trigger] r@[j])@ == s@[j]@,
        decreases s@.len() - i,
    {
        r.push(s[i].copy());
        i += 1;
    }
    assert(files_view(r@) =~= refs_view(s@));
    r
}

/// The view of a task, if there is one.
pub open spec fn task_view(t: Option<CompactionTask>) -> Option<TaskView> {
    match t {
        Some(t) => Some(t@),
        None => None,
    }
}

/// Picks what to merge next.
pub struct CompactionPicker {
    config: CompactionConfig,
}

impl CompactionPicker {
    /// The settings.
    pub closed spec fn spec_config(&self) -> CompactionConfig {
        self.config
    }

    /// Makes a picker.
    pub fn new(config: CompactionConfig) -> (r: Self)
        ensures
            r.spec_config() == config,
    {
        CompactionPicker { config }
    }

    /// Picks what to merge next, if anything: level 0 where it has enough files, or else the first
    /// level that is larger than it may be.
    pub fn pick_compaction(&self, version: &Version) -> (r: Option<CompactionTask>)
        requires
            version@.len() >= 2,
        ensures
            task_view(r) == picked(self.spec_config(), version@),
    {
        let ghost v = version@;
        assert(v[0] == files_view(version.levels@[0]@));
        if version.levels[0].len() >= self.config.l0_compaction_trigger {
            return self.pick_l0_compaction(version);
        }
        let mut level: usize = 1;
        while level < version.levels.len() - 1
            invariant
                v == version@,
                v.len() >= 2,
                1 <= level <= v.len() - 1,
                v.len() == version.levels@.len(),
                first_oversized(self.config, v, 1) == first_oversized(
                    self.config,
                    v,
                    level as nat,
                ),
                picked(self.config, v) == (match first_oversized(self.config, v, 1) {
                    Some(level) => level_task(v, level),
                    None => None,
                }),
            decreases v.len() - level,
        {
            if version.level_size(level) > self.target_level_size(level) {
                return self.pick_level_compaction(version, level);
            }
            level += 1;
        }
        None
    }

    /// The size up to which a level may grow; the largest number where it is larger.
    pub fn target_level_size(&self, level: usize) -> (r: u64)
        ensures
            r == target_size(self.spec_config(), level as nat),
    {
        if level == 0 {
            return 0;
        }
        let ghost base = self.config.base_level_size as nat;
        let ghost ratio = self.config.size_ratio as nat;
        let mut size: u64 = self.config.base_level_size;
        let mut i: usize = 1;
        assert(base * power(ratio, 0) == base) by (nonlinear_arith)
            requires
                power(ratio, 0) == 1,
        ;
        while i < level
            invariant
                1 <= i <= level,
                base == self.config.base_level_size,
                ratio == self.config.size_ratio,
                size == capped(base * power(ratio, (i - 1) as nat)),
            decreases level - i,
        {
            proof {
                let p = power(ratio, (i - 1) as nat);
                assert(power(ratio, i as nat) == ratio * p);
                lemma_capped_product(base, ratio, p);
            }
            size = match size.checked_mul(self.config.size_ratio) {
                Some(n) => n,
                None => u64::MAX,
            };
            i += 1;
        }
        size
    }

    fn pick_l0_compaction(&self, version: &Version) -> (r: Option<CompactionTask>)
        requires
            version@.len() >= 2,
        ensures
            task_view(r) == l0_task(version@),
    {
        let ghost v = version@;
        let files = &version.levels[0];
        let ghost fs = files_view(files@);
        assert(v[0] == fs);
        if files.len() == 0 {
            return None;
        }
        let mut lo: usize = 0;
        let mut hi: usize = 0;
        let mut i: usize = 1;
        assert(fs.take(1)[0] == files@[0]@);
        while i < files.len()
            invariant
                1 <= i <= files@.len(),
                fs == files_view(files@),
                lo < files@.len(),
                hi < files@.len(),
                files@[lo as int].smallest_key@ == min_key(fs.take(i as int)),
                files@[hi as int].largest_key@ == max_key(fs.take(i as int)),
            decreases files@.len() - i,
        {
            proof {
                assert(fs.take(i + 1).drop_last() =~= fs.take(i as int));
                assert(fs.take(i + 1).last() == files@[i as int]@);
            }
            if bytes_lt(&files[i].smallest_key, &files[lo].smallest_key) {
                lo = i;
            }
            if bytes_lt(&files[hi].largest_key, &files[i].largest_key) {
                hi = i;
            }
            i += 1;
        }
        assert(fs.take(i as int) =~= fs);
        let smallest = version_key(&files[lo].smallest_key, u64::MAX);
        let largest = version_key(&files[hi].largest_key, 0);
        let found = version.get_overlapping(1, &smallest, &largest);
        let task = CompactionTask {
            level: 0,
            input_files: copy_files(files),
            output_level_files: copy_refs(&found),
        };
        Some(task)
    }

    fn pick_level_compaction(&self, version: &Version, level: usize) -> (r: Option<CompactionTask>)
        requires
            level + 1 < version@.len(),
        ensures
            task_view(r) == level_task(version@, level as nat),
    {
        let ghost v = version@;
        let files = &version.levels[level];
        let ghost fs = files_view(files@);
        assert(v[level as int] == fs);
        if files.len() == 0 {
            return None;
        }
        let mut best: usize = 0;
        let mut i: usize = 1;
        assert(fs.take(1)[0] == files@[0]@);
        while i < files.len()
            invariant
                1 <= i <= files@.len(),
                fs == files_view(files@),
                best < files@.len(),
                files@[best as int]@ == largest_file(fs.take(i as int)),
            decreases files@.len() - i,
        {
            proof {
                assert(fs.take(i + 1).drop_last() =~= fs.take(i as int));
                assert(fs.take(i + 1).last() == files@[i as int]@);
            }
            if files[best].file_size <= files[i].file_size {
                best = i;
            }
            i += 1;
        }
        assert(fs.take(i as int) =~= fs);
        let n = version.levels.len();
        assert(level + 1 < n);
        let file = files[best].copy();
        let smallest = version_key(&file.smallest_key, u64::MAX);
        let largest = version_key(&file.largest_key, 0);
        let found = version.get_overlapping(level + 1, &smallest, &largest);
        let output_level_files = copy_refs(&found);
        let ghost f = file@;
        let mut input_files: Vec<FileMetadata> = Vec::new();
        input_files.push(file);
        let task = CompactionTask { level, input_files, output_level_files };
        assert(task@.input_files =~= seq![f]);
        Some(task)
    }
}

proof fn lemma_capped_product(base: nat, ratio: nat, p: nat)
    requires
        ratio <= u64::MAX,
    ensures
        base * (ratio * p) == (base * p) * ratio,
        capped(base * (ratio * p)) == (if capped(base * p) * ratio > u64::MAX {
            u64::MAX as int
        } else {
            capped(base * p) * ratio
        }),
{
    assert(base * (ratio * p) == (base * p) * ratio) by (nonlinear_arith);
    let x = base * p;
    if x > u64::MAX {
        if ratio >= 1 {
            assert(x * ratio > u64::MAX) by (nonlinear_arith)
                requires
                    x > u64::MAX,
                    ratio >= 1,
            ;
            if ratio == 1 {
                assert(x * ratio == x) by (nonlinear_arith)
                    requires
                        ratio == 1,
                ;
                assert(u64::MAX * ratio == u64::MAX) by (nonlinear_arith)
                    requires
                        ratio == 1,
                ;
            } else {
                assert(u64::MAX * ratio > u64::MAX) by (nonlinear_arith)
                    requires
                        ratio >= 2,
                ;
            }
        } else {
            assert(x * ratio == 0) by (nonlinear_arith)
                requires
                    ratio == 0,
            ;
            assert(u64::MAX * ratio == 0) by (nonlinear_arith)
                requires
                    ratio == 0,
            ;
        }
    }
}

/// What a compaction did.
#[derive(Debug)]
pub struct CompactionResult {
    /// Numbers of the files that were merged.
    pub removed_files: Vec<u64>,
    /// The files that were made.
    pub new_files: Vec<FileMetadata>,
    /// The level of the files that were made.
    pub target_level: usize,
}

/// Files without those with given numbers.
pub open spec fn without_files(files: Seq<FileView>, removed: Seq<u64>) -> Seq<FileView>
    decreases files.len(),
{
    if files.len() == 0 {
        Seq::empty()
    } else {
        let before = without_files(files.drop_last(), removed);
        if removed.contains(files.last().file_num) {
            before
        } else {
            before.push(files.last())
        }
    }
}

/// The place of a file among files in order of their smallest keys: after those that are not
/// larger.
pub open spec fn insert_place(files: Seq<FileView>, f: FileView) -> nat
    decreases files.len(),
{
    if files.len() == 0 {
        0
    } else if lex_lt(f.smallest_key, files.last().smallest_key) {
        insert_place(files.drop_last(), f)
    } else {
        files.len()
    }
}

/// Files in order of their smallest keys; equal ones as they were.
pub open spec fn sorted_files(files: Seq<FileView>) -> Seq<FileView>
    decreases files.len(),
{
    if files.len() == 0 {
        Seq::empty()
    } else {
        let before = sorted_files(files.drop_last());
        before.insert(insert_place(before, files.last()) as int, files.last())
    }
}

/// A version after a compaction from `level` to `target`.
pub open spec fn applied(
    v: Seq<Seq<FileView>>,
    level: int,
    target: int,
    removed: Seq<u64>,
    new_files: Seq<FileView>,
) -> Seq<Seq<FileView>> {
    let a = v.update(level, without_files(v[level], removed));
    if target < v.len() {
        let files = without_files(a[target], removed) + new_files;
        a.update(
            target,
            if target > 0 {
                sorted_files(files)
            } else {
                files
            },
        )
    } else {
        a
    }
}

fn holds_number(s: &Vec<u64>, n: u64) -> (r: bool)
    ensures
        r == s@.contains(n),
{
    let mut i: usize = 0;
    while i < s.len()
        invariant
            i <= s@.len(),
            forall|j: int| 0 <= j < i ==> s@[j] != n,
        decreases s@.len() - i,
    {
        if s[i] == n {
            return true;
        }
        i += 1;
    }
    false
}

fn retain_files(files: &Vec<FileMetadata>, removed: &Vec<u64>) -> (r: Vec<FileMetadata>)
    ensures
        files_view(r@) == without_files(files_view(files@), removed@),
{
    let ghost fs = files_view(files@);
    let mut r: Vec<FileMetadata> = Vec::new();
    let mut i: usize = 0;
    assert(files_view(r@) =~= without_files(fs.take(0), removed@));
    while i < files.len()
        invariant
            i <= files@.len(),
            fs == files_view(files@),
            files_view(r@) == without_files(fs.take(i as int), removed@),
        decreases files@.len() - i,
    {
        let ghost before = files_view(r@);
        proof {
            assert(fs.take(i + 1).drop_last() =~= fs.take(i as int));
            assert(fs.take(i + 1).last() == files@[i as int]@);
        }
        if !holds_number(removed, files[i].file_num) {
            r.push(files[i].copy());
            assert(files_view(r@) =~= before.push(files@[i as int]@));
        }
        i += 1;
    }
    assert(fs.take(i as int) =~= fs);
    r
}

fn insert_file(files: &mut Vec<FileMetadata>, f: FileMetadata)
    ensures
        files_view(final(files)@) == files_view(old(files)@).insert(
            insert_place(files_view(old(files)@), f@) as int,
            f@,
        ),
{
    let ghost fs = files_view(files@);
    let mut i: usize = files.len();
    assert(fs.take(i as int) =~= fs);
    while i > 0 && bytes_lt(&f.smallest_key, &files[i - 1].smallest_key)
        invariant
            i <= files@.len(),
            fs == files_view(files@),
            insert_place(fs, f@) == insert_place(fs.take(i as int), f@),
        decreases i,
    {
        proof {
            assert(fs.take(i as int).last() == files@[i - 1]@);
            assert(fs.take(i as int).drop_last() =~= fs.take(i - 1));
        }
        i -= 1;
    }
    proof {
        if i > 0 {
            assert(fs.take(i as int).last() == files@[i - 1]@);
        }
        assert(insert_place(fs, f@) == i);
    }
    let ghost before = files@;
    files.insert(i, f);
    assert(files_view(files@) =~= fs.insert(i as int, f@));
}

fn sort_files(files: &Vec<FileMetadata>) -> (r: Vec<FileMetadata>)
    ensures
        files_view(r@) == sorted_files(files_view(files@)),
{
    let ghost fs = files_view(files@);
    let mut r: Vec<FileMetadata> = Vec::new();
    let mut i: usize = 0;
    assert(files_view(r@) =~= sorted_files(fs.take(0)));
    while i < files.len()
        invariant
            i <= files@.len(),
            fs == files_view(files@),
            files_view(r@) == sorted_files(fs.take(i as int)),
        decreases files@.len() - i,
    {
        proof {
            assert(fs.take(i + 1).drop_last() =~= fs.take(i as int));
            assert(fs.take(i + 1).last() == files@[i as int]@);
        }
        insert_file(&mut r, files[i].copy());
        i += 1;
    }
    assert(fs.take(i as int) =~= fs);
    r
}

/// The version after a compaction: without the files that were merged, and with those that were
/// made on their level, which below level 0 is kept in order of smallest keys.
pub fn apply_compaction(version: &Version, task: &CompactionTask, result: &CompactionResult) -> (r:
    Version)
    requires
        task.level < version@.len(),
    ensures
        r@ == applied(
            version@,
            task.level as int,
            result.target_level as int,
            result.removed_files@,
            files_view(result.new_files@),
        ),
{
    let mut v = version.copy();
    let ghost v0 = version@;
    let level = task.level;
    let target = result.target_level;
    let ghost removed = result.removed_files@;
    assert(v@[level as int] == files_view(v.levels@[level as int]@));
    let retained = retain_files(&v.levels[level], &result.removed_files);
    let ghost levels0 = v.levels@;
    v.levels.set(level, retained);
    let ghost a = v0.update(level as int, without_files(v0[level as int], removed));
    proof {
        assert(v@ =~= a);
    }
    if target < v.levels.len() {
        assert(v@[target as int] == files_view(v.levels@[target as int]@));
        let mut files = retain_files(&v.levels[target], &result.removed_files);
        let ghost kept = files_view(files@);
        let mut more = copy_files(&result.new_files);
        let ghost x = files@;
        let ghost y = more@;
        files.append(&mut more);
        proof {
            assert(files@ =~= x + y);
            assert(files_view(files@) =~= kept + files_view(result.new_files@));
        }
        if target > 0 {
            files = sort_files(&files);
        }
        let ghost b = a.update(target as int, files_view(files@));
        v.levels.set(target, files);
        assert(v@ =~= b);
    }
    v
}

/// The entries of a table file.
pub open spec fn source_of(live: Files, num: u64) -> Result<Seq<RawEntry>, ErrorView> {
    let id = FileId::Sst(num);
    if !live.contains_key(id) {
        Err(ErrorView::Io("no such file: "@ + table_name(num)))
    } else {
        match table_index(live[id]) {
            Err(e) => Err(e),
            Ok(index) => entries_from(live[id], index, 0),
        }
    }
}

/// The entries of a table file before the first data block that cannot be read, and why that one
/// cannot.
pub open spec fn table_front(live: Files, num: u64) -> Result<
    (Seq<RawEntry>, Option<ErrorView>),
    ErrorView,
> {
    let id = FileId::Sst(num);
    if !live.contains_key(id) {
        Err(ErrorView::Io("no such file: "@ + table_name(num)))
    } else {
        match table_index(live[id]) {
            Err(e) => Err(e),
            Ok(index) => Ok(front_from(live[id], index, 0)),
        }
    }
}

/// The entries of table files; the first problem where one cannot be read.
pub open spec fn sources_of(live: Files, nums: Seq<u64>) -> Result<Seq<Seq<RawEntry>>, ErrorView>
    decreases nums.len(),
{
    if nums.len() == 0 {
        Ok(Seq::empty())
    } else {
        match sources_of(live, nums.drop_last()) {
            Err(e) => Err(e),
            Ok(ss) => match source_of(live, nums.last()) {
                Err(e) => Err(e),
                Ok(s) => Ok(ss.push(s)),
            },
        }
    }
}

/// The numbers of files.
pub open spec fn nums_of(files: Seq<FileView>) -> Seq<u64> {
    files.map_values(|f: FileView| f.file_num)
}

/// The numbers of the files to merge.
pub open spec fn task_nums(t: TaskView) -> Seq<u64> {
    nums_of(t.input_files) + nums_of(t.output_level_files)
}

/// What keeps an entry from being written again.
pub open spec fn entry_problem(e: RawEntry) -> Option<ErrorView> {
    if key_of_bytes(e.0) is None {
        Some(ErrorView::Corruption("invalid internal key"@))
    } else if value_of_bytes(e.1) is None {
        Some(ErrorView::Corruption("invalid value"@))
    } else {
        None
    }
}

/// An entry, read and written again.
pub open spec fn recoded(e: RawEntry) -> RawEntry {
    raw_entry((key_of_bytes(e.0)->0, value_of_bytes(e.1)->0))
}

/// Entries, read and written again; the first problem where there is one.
pub open spec fn recode_all(es: Seq<RawEntry>) -> Result<Seq<RawEntry>, ErrorView>
    decreases es.len(),
{
    if es.len() == 0 {
        Ok(Seq::empty())
    } else {
        match recode_all(es.drop_last()) {
            Err(e) => Err(e),
            Ok(before) => match entry_problem(es.last()) {
                Some(e) => Err(e),
                None => Ok(before.push(recoded(es.last()))),
            },
        }
    }
}

/// The files into which entries go, and what goes into the last one. A file is full when a hundred
/// bytes for each of its entries make up the target size, and is closed before the first entry of
/// another user key after that, so that all versions of a user key are in one file.
pub open spec fn grouped(es: Seq<RawEntry>, target: nat) -> (Seq<Seq<RawEntry>>, Seq<RawEntry>)
    decreases es.len(),
{
    if es.len() == 0 {
        (Seq::empty(), Seq::empty())
    } else {
        let (done, cur) = grouped(es.drop_last(), target);
        let e = es.last();
        if cur.len() > 0 && cur.len() * 100 >= target && user_of(cur.last().0) != user_of(e.0) {
            (done.push(cur), seq![e])
        } else {
            (done, cur.push(e))
        }
    }
}

/// The files into which entries go.
pub open spec fn file_groups(front: Seq<RawEntry>, tail: Seq<RawEntry>, target: nat) -> Seq<
    Seq<RawEntry>,
> {
    let (done, cur) = grouped(front + tail, target);
    if cur.len() > 0 {
        done.push(cur)
    } else {
        done
    }
}

/// Tells whether the keys of each file come in ascending order.
pub open spec fn all_sorted(files: Seq<Seq<RawEntry>>) -> bool {
    forall|i: int| 0 <= i < files.len() ==> raw_sorted(#[trigger] files[i])
}

/// What the files hold that merging sources makes.
pub open spec fn merged_files(
    srcs: Seq<Seq<RawEntry>>,
    watermark: Option<u64>,
    config: CompactionConfig,
) -> Result<Seq<Seq<RawEntry>>, ErrorView> {
    let all = joined(srcs);
    match recode_all(front_of(all, watermark)) {
        Err(e) => Err(e),
        Ok(front) => match recode_all(tail_of(all, watermark)) {
            Err(e) => Err(e),
            Ok(tail) => {
                let files = file_groups(front, tail, (config.base_level_size / 10) as nat);
                if all_sorted(files) {
                    Ok(files)
                } else {
                    Err(ErrorView::InvalidArgument("keys must be added in sorted order"@))
                }
            },
        },
    }
}

/// The name of the table file that is `i` numbers after the next.
pub open spec fn sst_at(next: u64, i: int) -> FileId {
    FileId::Sst((next + i) as u64)
}

/// Tells whether none of the next file numbers is in use.
pub open spec fn numbers_free(live: Files, next: u64, n: nat) -> bool {
    forall|i: int| 0 <= i < n ==> !live.contains_key(#[trigger] sst_at(next, i))
}

/// What a compaction makes of the files to merge.
pub open spec fn compaction_outcome(
    live: Files,
    task: TaskView,
    watermark: Option<u64>,
    config: CompactionConfig,
    next: u64,
) -> Result<Seq<Seq<RawEntry>>, ErrorView> {
    match sources_of(live, task_nums(task)) {
        Err(e) => Err(e),
        Ok(srcs) => match merged_files(srcs, watermark, config) {
            Err(e) => Err(e),
            Ok(files) => if next + files.len() > u64::MAX {
                Err(ErrorView::Io("no file numbers are left"@))
            } else if !numbers_free(live, next, files.len()) {
                Err(ErrorView::Io("file exists"@))
            } else {
                Ok(files)
            },
        },
    }
}

/// The bytes of a table file without a filter.
pub open spec fn plain_table(es: Seq<RawEntry>, config: SSTableConfig) -> Seq<u8> {
    table_bytes(blocks_of(es, config.block_size as nat), Seq::empty())
}

/// The description of a file that was made.
pub open spec fn made_file(num: u64, es: Seq<RawEntry>, config: SSTableConfig) -> FileView {
    FileView {
        file_num: num,
        file_size: plain_table(es, config).len() as u64,
        smallest_key: es[0].0,
        largest_key: es[es.len() - 1].0,
    }
}

/// The descriptions of files that were made, numbered from `next` on.
pub open spec fn made_files(next: u64, files: Seq<Seq<RawEntry>>, config: SSTableConfig) -> Seq<
    FileView,
> {
    Seq::new(files.len(), |i: int| made_file((next + i) as u64, files[i], config))
}

/// Files with the first `n` table files added, numbered from `next` on.
pub open spec fn with_tables(
    live: Files,
    next: u64,
    files: Seq<Seq<RawEntry>>,
    config: SSTableConfig,
    n: nat,
) -> Files
    decreases n,
{
    if n == 0 {
        live
    } else {
        with_tables(live, next, files, config, (n - 1) as nat).insert(
            FileId::Sst((next + n - 1) as u64),
            plain_table(files[n - 1], config),
        )
    }
}

fn decode_all(es: &Vec<(Vec<u8>, Vec<u8>)>) -> (r: Result<
    Vec<(InternalKey, MemtableValue)>,
    Error,
>)
    ensures
        match r {
            Ok(v) => recode_all(raw_view(es@)) == Ok::<Seq<RawEntry>, ErrorView>(
                raw_entries(entries_view(v@)),
            ),
            Err(e) => recode_all(raw_view(es@)) == Err::<Seq<RawEntry>, ErrorView>(e@),
        },
{
    let ghost all = raw_view(es@);
    let mut out: Vec<(InternalKey, MemtableValue)> = Vec::new();
    let mut i: usize = 0;
    assert(raw_entries(entries_view(out@)) =~= Seq::<RawEntry>::empty());
    while i < es.len()
        invariant
            i <= es@.len(),
            all == raw_view(es@),
            recode_all(all.take(i as int)) == Ok::<Seq<RawEntry>, ErrorView>(
                raw_entries(entries_view(out@)),
            ),
        decreases es@.len() - i,
    {
        let (k, v) = &es[i];
        proof {
            assert(all.take(i + 1).drop_last() =~= all.take(i as int));
            assert(all.take(i + 1).last() == (k@, v@));
        }
        let key = match decode_internal_key(k) {
            Some(key) => key,
            None => {
                proof {
                    lemma_recode_fails(all, i + 1);
                }
                return Err(corruption("invalid internal key"));
            },
        };
        let value = match decode_value(v) {
            Some(value) => value,
            None => {
                proof {
                    lemma_recode_fails(all, i + 1);
                }
                return Err(corruption("invalid value"));
            },
        };
        let ghost before = raw_entries(entries_view(out@));
        let ghost e = recoded((k@, v@));
        out.push((key, value));
        proof {
            assert(raw_entries(entries_view(out@)) =~= before.push(e));
        }
        i += 1;
    }
    assert(all.take(i as int) =~= all);
    Ok(out)
}

proof fn lemma_recode_fails(es: Seq<RawEntry>, n: int)
    requires
        0 <= n <= es.len(),
        recode_all(es.take(n)) is Err,
    ensures
        recode_all(es) == recode_all(es.take(n)),
    decreases es.len() - n,
{
    if n < es.len() {
        assert(es.take(n + 1).drop_last() =~= es.take(n));
        lemma_recode_fails(es, n + 1);
    } else {
        assert(es.take(n) =~= es);
    }
}

/// Groups of entries.
pub open spec fn groups_view(s: Seq<Vec<(InternalKey, MemtableValue)>>) -> Seq<Seq<RawEntry>> {
    s.map_values(|g: Vec<(InternalKey, MemtableValue)>| raw_entries(entries_view(g@)))
}

fn append_entries(
    to: &mut Vec<(InternalKey, MemtableValue)>,
    from: &Vec<(InternalKey, MemtableValue)>,
)
    ensures
        raw_entries(entries_view(final(to)@)) == raw_entries(entries_view(old(to)@)) + raw_entries(
            entries_view(from@),
        ),
{
    let ghost start = raw_entries(entries_view(to@));
    let ghost all = raw_entries(entries_view(from@));
    let mut i: usize = 0;
    assert(start + all.take(0) =~= start);
    while i < from.len()
        invariant
            i <= from@.len(),
            all == raw_entries(entries_view(from@)),
            raw_entries(entries_view(to@)) == start + all.take(i as int),
        decreases from@.len() - i,
    {
        let ghost before = raw_entries(entries_view(to@));
        let (k, v) = &from[i];
        to.push((k.copy(), v.copy()));
        proof {
            assert(all[i as int] == raw_entry((k@, v@)));
            assert(raw_entries(entries_view(to@)) =~= before.push(all[i as int]));
            assert(start + all.take(i + 1) =~= (start + all.take(i as int)).push(all[i as int]));
        }
        i += 1;
    }
    assert(all.take(i as int) =~= all);
}

fn group_entries(entries: &Vec<(InternalKey, MemtableValue)>, target: u64) -> (r: Vec<
    Vec<(InternalKey, MemtableValue)>,
>)
    ensures
        groups_view(r@) == file_groups(
            raw_entries(entries_view(entries@)),
            Seq::empty(),
            target as nat,
        ),
{
    let ghost all = raw_entries(entries_view(entries@));
    let mut done: Vec<Vec<(InternalKey, MemtableValue)>> = Vec::new();
    let mut cur: Vec<(InternalKey, MemtableValue)> = Vec::new();
    let mut i: usize = 0;
    proof {
        assert(groups_view(done@) =~= Seq::<Seq<RawEntry>>::empty());
        assert(raw_entries(entries_view(cur@)) =~= Seq::<RawEntry>::empty());
    }
    while i < entries.len()
        invariant
            i <= entries@.len(),
            all == raw_entries(entries_view(entries@)),
            (groups_view(done@), raw_entries(entries_view(cur@))) == grouped(
                all.take(i as int),
                target as nat,
            ),
        decreases entries@.len() - i,
    {
        let (k, v) = &entries[i];
        let ghost e = raw_entry((k@, v@));
        let ghost cur0 = raw_entries(entries_view(cur@));
        let ghost done0 = groups_view(done@);
        proof {
            assert(all[i as int] == e);
            assert(all.take(i + 1).drop_last() =~= all.take(i as int));
            assert(all.take(i + 1).last() == e);
            law_key_round_trip(k@);
            if cur@.len() > 0 {
                let l = cur@.last();
                assert(cur0.last() == raw_entry((l.0@, l.1@)));
                law_key_round_trip(l.0@);
            }
        }
        if cur.len() > 0 && cur.len() as u128 * 100 >= target as u128 && !bytes_eq(
            &cur[cur.len() - 1].0.user_key,
            &k.user_key,
        ) {
            let mut full: Vec<(InternalKey, MemtableValue)> = Vec::new();
            std::mem::swap(&mut full, &mut cur);
            done.push(full);
            cur.push((k.copy(), v.copy()));
            proof {
                assert(groups_view(done@) =~= done0.push(cur0));
                assert(raw_entries(entries_view(cur@)) =~= seq![e]);
            }
        } else {
            cur.push((k.copy(), v.copy()));
            proof {
                assert(raw_entries(entries_view(cur@)) =~= cur0.push(e));
            }
        }
        i += 1;
    }
    assert(all.take(i as int) =~= all);
    assert(all + Seq::<RawEntry>::empty() =~= all);
    let ghost done0 = groups_view(done@);
    if cur.len() > 0 {
        let ghost c = raw_entries(entries_view(cur@));
        done.push(cur);
        assert(groups_view(done@) =~= done0.push(c));
    }
    done
}

/// Carries out compactions.
pub struct CompactionExecutor {
    config: CompactionConfig,
}

impl CompactionExecutor {
    /// The settings.
    pub closed spec fn spec_config(&self) -> CompactionConfig {
        self.config
    }

    /// Makes an executor.
    pub fn new(config: CompactionConfig) -> (r: Self)
        ensures
            r.spec_config() == config,
    {
        CompactionExecutor { config }
    }

    /// Merges the files of a task, keeping only the newest version of each user key.
    pub fn execute(&self, disk: &mut Disk, task: &CompactionTask, next_file_num: &mut u64) -> (r:
        Result<CompactionResult, Error>)
        requires
            old(disk).wf(),
            task.level < usize::MAX,
        ensures
            final(disk).taken() == old(disk).taken(),
            final(disk).wf(),
            executed(
                self.spec_config(),
                task@,
                None,
                old(disk).live(),
                old(disk).durable(),
                *old(next_file_num),
                final(disk).live(),
                final(disk).durable(),
                *final(next_file_num),
                r,
            ),
    {
        self.run(disk, task, next_file_num, None)
    }

    /// Merges the files of a task, dropping the versions that no reader at or above the watermark
    /// needs.
    pub fn execute_with_gc(
        &self,
        disk: &mut Disk,
        task: &CompactionTask,
        next_file_num: &mut u64,
        watermark: u64,
    ) -> (r: Result<CompactionResult, Error>)
        requires
            old(disk).wf(),
            task.level < usize::MAX,
        ensures
            final(disk).taken() == old(disk).taken(),
            final(disk).wf(),
            executed(
                self.spec_config(),
                task@,
                Some(watermark),
                old(disk).live(),
                old(disk).durable(),
                *old(next_file_num),
                final(disk).live(),
                final(disk).durable(),
                *final(next_file_num),
                r,
            ),
    {
        self.run(disk, task, next_file_num, Some(watermark))
    }

    fn read_sources(&self, disk: &Disk, nums: &Vec<u64>) -> (r: Result<
        Vec<Vec<(Vec<u8>, Vec<u8>)>>,
        Error,
    >)
        requires
            disk.wf(),
        ensures
            match r {
                Ok(ss) => sources_of(disk.live(), nums@) == Ok::<Seq<Seq<RawEntry>>, ErrorView>(
                    sources_view(ss@),
                ),
                Err(e) => sources_of(disk.live(), nums@) == Err::<Seq<Seq<RawEntry>>, ErrorView>(
                    e@,
                ),
            },
    {
        let ghost all = nums@;
        let mut out: Vec<Vec<(Vec<u8>, Vec<u8>)>> = Vec::new();
        let mut i: usize = 0;
        assert(sources_view(out@) =~= Seq::<Seq<RawEntry>>::empty());
        while i < nums.len()
            invariant
                i <= nums@.len(),
                disk.wf(),
                all == nums@,
                sources_of(disk.live(), all.take(i as int)) == Ok::<
                    Seq<Seq<RawEntry>>,
                    ErrorView,
                >(sources_view(out@)),
            decreases nums@.len() - i,
        {
            proof {
                assert(all.take(i + 1).drop_last() =~= all.take(i as int));
                assert(all.take(i + 1).last() == nums@[i as int]);
            }
            match read_table(disk, nums[i]) {
                Ok(es) => {
                    let ghost before = sources_view(out@);
                    let ghost e = raw_view(es@);
                    out.push(es);
                    assert(sources_view(out@) =~= before.push(e));
                },
                Err(e) => {
                    proof {
                        lemma_sources_fail(disk.live(), all, i + 1);
                    }
                    return Err(e);
                },
            }
            i += 1;
        }
        assert(all.take(i as int) =~= all);
        Ok(out)
    }

    fn run(
        &self,
        disk: &mut Disk,
        task: &CompactionTask,
        next_file_num: &mut u64,
        watermark: Option<u64>,
    ) -> (r: Result<CompactionResult, Error>)
        requires
            old(disk).wf(),
            task.level < usize::MAX,
        ensures
            final(disk).taken() == old(disk).taken(),
            final(disk).wf(),
            executed(
                self.spec_config(),
                task@,
                watermark,
                old(disk).live(),
                old(disk).durable(),
                *old(next_file_num),
                final(disk).live(),
                final(disk).durable(),
                *final(next_file_num),
                r,
            ),
    {
        let next = *next_file_num;
        let mut removed_files = numbers(&task.input_files);
        let mut more = numbers(&task.output_level_files);
        let ghost a = removed_files@;
        let ghost b = more@;
        removed_files.append(&mut more);
        assert(removed_files@ =~= task_nums(task@));
        let sources = match self.read_sources(disk, &removed_files) {
            Ok(ss) => ss,
            Err(e) => {
                return Err(e);
            },
        };
        let ghost srcs = sources_view(sources@);
        let ghost live = disk.live();
        let groups = match self.make_groups(sources, watermark) {
            Ok(gs) => gs,
            Err(e) => {
                return Err(e);
            },
        };
        let ghost files = groups_view(groups@);
        proof {
            let all = joined(srcs);
            let front = recode_all(front_of(all, watermark))->Ok_0;
            let tail = recode_all(tail_of(all, watermark))->Ok_0;
            lemma_groups_hold_all(front, tail, (self.config.base_level_size / 10) as nat);
            assert forall|i: int| 0 <= i < groups@.len() implies (#[trigger] groups@[i])@.len()
                > 0 by {
                assert(files[i].len() == groups@[i]@.len());
            }
        }
        let tables = match self.make_tables(&groups) {
            Ok(ts) => ts,
            Err(e) => {
                return Err(e);
            },
        };
        let n = tables.len();
        if n as u64 > u64::MAX - next {
            return Err(Error::Io(text_of("no file numbers are left")));
        }
        let mut i: usize = 0;
        while i < n
            invariant
                disk.taken() == old(disk).taken(),
                i <= n,
                n == files.len(),
                next + n <= u64::MAX,
                disk.wf(),
                disk.live() == live,
                forall|j: int|
                    0 <= j < i ==> !live.contains_key(#[trigger] sst_at(next, j)),
                disk.durable() == old(disk).durable(),
                live == old(disk).live(),
                *next_file_num == *old(next_file_num),
                next == *next_file_num,
                sources_of(live, task_nums(task@)) == Ok::<Seq<Seq<RawEntry>>, ErrorView>(srcs),
                merged_files(srcs, watermark, self.config) == Ok::<
                    Seq<Seq<RawEntry>>,
                    ErrorView,
                >(files),
            decreases n - i,
        {
            if disk.contains(FileId::Sst(next + i as u64)) {
                assert(live.contains_key(sst_at(next, i as int)));
                return Err(Error::Io(text_of("file exists")));
            }
            i += 1;
        }
        let ghost durable = disk.durable();
        let ghost config = self.config.sstable_config;
        let new_files = write_tables(
            disk,
            tables,
            next,
            Ghost(files),
            Ghost(config),
        );
        *next_file_num = next + n as u64;
        Ok(CompactionResult { removed_files, new_files, target_level: task.level + 1 })
    }

    fn make_groups(&self, sources: Vec<Vec<(Vec<u8>, Vec<u8>)>>, watermark: Option<u64>) -> (r:
        Result<Vec<Vec<(InternalKey, MemtableValue)>>, Error>)
        ensures
            ({
                let all = joined(sources_view(sources@));
                let front = recode_all(front_of(all, watermark));
                let tail = recode_all(tail_of(all, watermark));
                match r {
                    Ok(gs) => front is Ok && tail is Ok && groups_view(gs@) == file_groups(
                        front->Ok_0,
                        tail->Ok_0,
                        (self.spec_config().base_level_size / 10) as nat,
                    ),
                    Err(e) => if front is Err {
                        e@ == front->Err_0
                    } else {
                        tail is Err && e@ == tail->Err_0
                    },
                }
            }),
    {
        let ghost all = joined(sources_view(sources@));
        let mut merge = match watermark {
            Some(w) => MergeIterator::new_with_gc(sources, w),
            None => MergeIterator::new(sources),
        };
        let ghost want = front_of(all, watermark);
        let mut front: Vec<(Vec<u8>, Vec<u8>)> = Vec::new();
        proof {
            assert(raw_view(front@) + merge.to_come() =~= want);
            assert(merge.at_end() =~= tail_of(all, watermark));
        }
        loop
            invariant_except_break
                merge.wf(),
                want == raw_view(front@) + merge.to_come(),
                merge.at_end() == tail_of(all, watermark),
            ensures
                merge.wf(),
                want == raw_view(front@),
                merge.buffered() == tail_of(all, watermark),
            decreases merge.to_come().len(),
        {
            let ghost before = raw_view(front@);
            let ghost coming = merge.to_come();
            match merge.next_entry() {
                Some(e) => {
                    let ghost x: RawEntry = (e.0@, e.1@);
                    front.push(e);
                    proof {
                        assert(raw_view(front@) =~= before.push(x));
                        assert(before + coming =~= before.push(x) + coming.drop_first());
                    }
                },
                None => {
                    assert(before + coming =~= before);
                    break ;
                },
            }
        }
        let tail = merge.flush_buffer();
        let mut entries = match decode_all(&front) {
            Ok(v) => v,
            Err(e) => {
                return Err(e);
            },
        };
        let tail = match decode_all(&tail) {
            Ok(v) => v,
            Err(e) => {
                return Err(e);
            },
        };
        proof {
            let (f, t) = (raw_entries(entries_view(entries@)), raw_entries(entries_view(tail@)));
            assert(f + t + Seq::<RawEntry>::empty() =~= f + t);
        }
        append_entries(&mut entries, &tail);
        Ok(group_entries(&entries, self.config.base_level_size / 10))
    }

    fn make_tables(&self, groups: &Vec<Vec<(InternalKey, MemtableValue)>>) -> (r: Result<
        Vec<(Vec<u8>, FileMetadata)>,
        Error,
    >)
        requires
            forall|i: int| 0 <= i < groups@.len() ==> (#[trigger] groups@[i])@.len() > 0,
        ensures
            match r {
                Ok(ts) => {
                    &&& all_sorted(groups_view(groups@))
                    &&& are_tables(ts@, groups_view(groups@), self.spec_config().sstable_config)
                },
                Err(e) => {
                    &&& !all_sorted(groups_view(groups@))
                    &&& e@ == ErrorView::InvalidArgument("keys must be added in sorted order"@)
                },
            },
    {
        let ghost files = groups_view(groups@);
        let ghost config = self.config.sstable_config;
        let mut out: Vec<(Vec<u8>, FileMetadata)> = Vec::new();
        let none: Vec<u8> = Vec::new();
        assert(none@ =~= Seq::<u8>::empty());
        let mut i: usize = 0;
        while i < groups.len()
            invariant
                i <= groups@.len(),
                files == groups_view(groups@),
                config == self.config.sstable_config,
                none@ == Seq::<u8>::empty(),
                forall|i: int| 0 <= i < groups@.len() ==> (#[trigger] groups@[i])@.len() > 0,
                forall|j: int| 0 <= j < i ==> raw_sorted(#[trigger] files[j]),
                are_tables(out@, files.take(i as int), config),
            decreases groups@.len() - i,
        {
            let ghost es = files[i as int];
            assert(es == raw_entries(entries_view(groups@[i as int]@)));
            match build_table(&groups[i], self.config.sstable_config, &none) {
                Ok((bytes, meta)) => {
                    let smallest_key = match meta.first_key {
                        Some(k) => k,
                        None => Vec::new(),
                    };
                    let largest_key = match meta.last_key {
                        Some(k) => k,
                        None => Vec::new(),
                    };
                    let file = FileMetadata {
                        file_num: 0,
                        file_size: meta.file_size,
                        smallest_key,
                        largest_key,
                    };
                    let ghost before = out@;
                    out.push((bytes, file));
                    proof {
                        let now = files.take(i + 1);
                        assert forall|j: int| 0 <= j < out@.len() implies is_table(
                            #[trigger] out@[j],
                            now[j],
                            config,
                        ) by {
                            if j < i {
                                assert(out@[j] == before[j]);
                                assert(is_table(before[j], files.take(i as int)[j], config));
                            }
                        }
                    }
                },
                Err(e) => {
                    assert(!raw_sorted(files[i as int]));
                    return Err(e);
                },
            }
            i += 1;
        }
        assert(files.take(i as int) =~= files);
        Ok(out)
    }
}

/// Tells whether bytes and a description, but for its number, are those of a table file.
spec fn is_table(t: (Vec<u8>, FileMetadata), es: Seq<RawEntry>, config: SSTableConfig) -> bool {
    &&& t.0@ == plain_table(es, config)
    &&& t.1@ == made_file(t.1.file_num, es, config)
}

spec fn are_tables(
    ts: Seq<(Vec<u8>, FileMetadata)>,
    files: Seq<Seq<RawEntry>>,
    config: SSTableConfig,
) -> bool {
    &&& ts.len() == files.len()
    &&& forall|i: int| 0 <= i < ts.len() ==> is_table(#[trigger] ts[i], files[i], config)
}

/// Tells what a compaction does to the files and what it gives.
pub open spec fn executed(
    config: CompactionConfig,
    task: TaskView,
    watermark: Option<u64>,
    live: Files,
    durable: Files,
    next: u64,
    live_after: Files,
    durable_after: Files,
    next_after: u64,
    r: Result<CompactionResult, Error>,
) -> bool {
    match compaction_outcome(live, task, watermark, config, next) {
        Err(e) => {
            &&& r is Err
            &&& r->Err_0@ == e
            &&& live_after == live
            &&& durable_after == durable
            &&& next_after == next
        },
        Ok(files) => {
            let c = config.sstable_config;
            &&& r is Ok
            &&& r->Ok_0.removed_files@ == task_nums(task)
            &&& files_view(r->Ok_0.new_files@) == made_files(next, files, c)
            &&& r->Ok_0.target_level == task.level + 1
            &&& next_after == next + files.len()
            &&& live_after == with_tables(live, next, files, c, files.len())
            &&& durable_after == with_tables(durable, next, files, c, files.len())
        },
    }
}

/// Reads all of a table file.
pub fn read_table(disk: &Disk, num: u64) -> (r: Result<Vec<(Vec<u8>, Vec<u8>)>, Error>)
    requires
        disk.wf(),
    ensures
        match r {
            Ok(es) => source_of(disk.live(), num) == Ok::<Seq<RawEntry>, ErrorView>(
                raw_view(es@),
            ),
            Err(e) => source_of(disk.live(), num) == Err::<Seq<RawEntry>, ErrorView>(e@),
        },
{
    match disk.read(FileId::Sst(num)) {
        Some(data) => match SSTableReader::open(data) {
            Ok(reader) => reader.iter(),
            Err(e) => Err(e),
        },
        None => Err(no_such_table(num)),
    }
}

/// Reads a table file up to the first data block that cannot be read.
pub fn read_front(disk: &Disk, num: u64) -> (r: Result<
    (Vec<(Vec<u8>, Vec<u8>)>, Option<Error>),
    Error,
>)
    requires
        disk.wf(),
    ensures
        match r {
            Ok((es, why)) => table_front(disk.live(), num) == Ok::<
                (Seq<RawEntry>, Option<ErrorView>),
                ErrorView,
            >(
                (
                    raw_view(es@),
                    match why {
                        Some(e) => Some(e@),
                        None => None,
                    },
                ),
            ),
            Err(e) => table_front(disk.live(), num) == Err::<
                (Seq<RawEntry>, Option<ErrorView>),
                ErrorView,
            >(e@),
        },
{
    match disk.read(FileId::Sst(num)) {
        Some(data) => match SSTableReader::open(data) {
            Ok(reader) => Ok(reader.front()),
            Err(e) => Err(e),
        },
        None => Err(no_such_table(num)),
    }
}

/// The error for a table file that does not exist.
pub fn no_such_table(num: u64) -> (e: Error)
    ensures
        e@ == ErrorView::Io("no such file: "@ + table_name(num)),
{
    let mut msg = text_of("no such file: ");
    let name = table_file_name(num);
    msg.push_str(name.as_str());
    Error::Io(msg)
}

/// Where some of the first files cannot be read, all cannot, and for the same reason.
pub proof fn lemma_sources_fail(live: Files, nums: Seq<u64>, n: int)
    requires
        0 <= n <= nums.len(),
        sources_of(live, nums.take(n)) is Err,
    ensures
        sources_of(live, nums) == sources_of(live, nums.take(n)),
    decreases nums.len() - n,
{
    if n < nums.len() {
        assert(nums.take(n + 1).drop_last() =~= nums.take(n));
        lemma_sources_fail(live, nums, n + 1);
    } else {
        assert(nums.take(n) =~= nums);
    }
}

fn numbers(files: &Vec<FileMetadata>) -> (r: Vec<u64>)
    ensures
        r@ == nums_of(files_view(files@)),
{
    let mut r: Vec<u64> = Vec::new();
    let mut i: usize = 0;
    while i < files.len()
        invariant
            i <= files@.len(),
            r@.len() == i,
            forall|j: int| 0 <= j < i ==> #[trigger] r@[j] == files@[j].file_num,
        decreases files@.len() - i,
    {
        r.push(files[i].file_num);
        i += 1;
    }
    assert(r@ =~= nums_of(files_view(files@)));
    r
}

/// Writes a new file and makes it durable.
pub fn write_file(disk: &mut Disk, id: FileId, bytes: &[u8])
    requires
        old(disk).wf(),
        !old(disk).live().contains_key(id),
    ensures
        final(disk).taken() == old(disk).taken(),
        final(disk).wf(),
        final(disk).live() == old(disk).live().insert(id, bytes@),
        final(disk).durable() == old(disk).durable().insert(id, bytes@),
{
    let ghost live = disk.live();
    let ghost durable = disk.durable();
    disk.create(id);
    disk.append(id, bytes);
    disk.sync(id);
    proof {
        assert(Seq::<u8>::empty() + bytes@ =~= bytes@);
        assert(disk.live() =~= live.insert(id, bytes@));
        assert(disk.durable() =~= durable.insert(id, bytes@));
    }
}

#[verifier::rlimit(40)]
fn write_tables(
    disk: &mut Disk,
    tables: Vec<(Vec<u8>, FileMetadata)>,
    next: u64,
    Ghost(files): Ghost<Seq<Seq<RawEntry>>>,
    Ghost(config): Ghost<SSTableConfig>,
) -> (r: Vec<FileMetadata>)
    requires
        old(disk).wf(),
        are_tables(tables@, files, config),
        next + files.len() <= u64::MAX,
        numbers_free(old(disk).live(), next, files.len()),
    ensures
        final(disk).taken() == old(disk).taken(),
        final(disk).wf(),
        files_view(r@) == made_files(next, files, config),
        final(disk).live() == with_tables(old(disk).live(), next, files, config, files.len()),
        final(disk).durable() == with_tables(
            old(disk).durable(),
            next,
            files,
            config,
            files.len(),
        ),
{
    let mut out: Vec<FileMetadata> = Vec::new();
    let ghost live = disk.live();
    let ghost durable = disk.durable();
    let mut i: usize = 0;
    while i < tables.len()
        invariant
            disk.taken() == old(disk).taken(),
            i <= tables@.len(),
            disk.wf(),
            are_tables(tables@, files, config),
            next + files.len() <= u64::MAX,
            numbers_free(live, next, files.len()),
            disk.live() == with_tables(live, next, files, config, i as nat),
            disk.durable() == with_tables(durable, next, files, config, i as nat),
            out@.len() == i,
            forall|j: int|
                0 <= j < i ==> (#[trigger] out@[j])@ == made_file(
                    (next + j) as u64,
                    files[j],
                    config,
                ),
        decreases tables@.len() - i,
    {
        assert(is_table(tables@[i as int], files[i as int], config));
        let num = next + i as u64;
        proof {
            lemma_with_tables(live, next, files, config, i as nat, num);
            assert(!live.contains_key(sst_at(next, i as int)));
        }
        write_file(disk, FileId::Sst(num), &tables[i].0);
        let mut file = tables[i].1.copy();
        file.file_num = num;
        out.push(file);
        i += 1;
    }
    assert(files_view(out@) =~= made_files(next, files, config));
    out
}

/// Adding table files adds no others.
pub proof fn lemma_with_tables(
    live: Files,
    next: u64,
    files: Seq<Seq<RawEntry>>,
    config: SSTableConfig,
    n: nat,
    num: u64,
)
    requires
        next + n <= u64::MAX,
        num >= next + n,
    ensures
        with_tables(live, next, files, config, n).contains_key(FileId::Sst(num))
            == live.contains_key(FileId::Sst(num)),
    decreases n,
{
    if n > 0 {
        lemma_with_tables(live, next, files, config, (n - 1) as nat, num);
    }
}

/// Tells whether each file ends with another user key than the next begins with.
pub open spec fn cut_between_users(files: Seq<Seq<RawEntry>>) -> bool {
    forall|i: int|
        0 < i < files.len() ==> user_of(files[i - 1].last().0) != user_of((#[trigger] files[i])[0].0)
}

proof fn lemma_grouped(es: Seq<RawEntry>, target: nat)
    ensures
        ({
            let (done, cur) = grouped(es, target);
            &&& all_of(done) + cur == es
            &&& no_empty_block(done)
            &&& es.len() > 0 ==> cur.len() > 0
            &&& cut_between_users(done.push(cur))
        }),
    decreases es.len(),
{
    if es.len() > 0 {
        lemma_grouped(es.drop_last(), target);
        let (done, cur) = grouped(es.drop_last(), target);
        let e = es.last();
        let before = done.push(cur);
        assert(es =~= es.drop_last().push(e));
        if cur.len() > 0 && cur.len() * 100 >= target && user_of(cur.last().0) != user_of(e.0) {
            assert(before.drop_last() =~= done);
            assert(all_of(before) + seq![e] =~= es);
            let after = before.push(seq![e]);
            assert forall|i: int| 0 < i < after.len() implies user_of(after[i - 1].last().0)
                != user_of((#[trigger] after[i])[0].0) by {
                if i < before.len() {
                    assert(after[i] == before[i] && after[i - 1] == before[i - 1]);
                }
            }
        } else {
            let c = cur.push(e);
            assert(all_of(done) + c =~= es);
            let after = done.push(c);
            assert forall|i: int| 0 < i < after.len() implies user_of(after[i - 1].last().0)
                != user_of((#[trigger] after[i])[0].0) by {
                assert(after[i - 1] == before[i - 1]);
                assert(user_of(before[i - 1].last().0) != user_of(before[i][0].0));
                if cur.len() == 0 {
                    assert(es.drop_last().len() == 0);
                }
            }
        }
    } else {
        assert(all_of(Seq::<Seq<RawEntry>>::empty()) + Seq::<RawEntry>::empty() =~= es);
    }
}

/// The files hold the entries, in order, none is empty, and none cuts a user key apart.
pub proof fn lemma_groups_hold_all(front: Seq<RawEntry>, tail: Seq<RawEntry>, target: nat)
    ensures
        all_of(file_groups(front, tail, target)) == front + tail,
        no_empty_block(file_groups(front, tail, target)),
        cut_between_users(file_groups(front, tail, target)),
{
    lemma_grouped(front + tail, target);
    let (done, cur) = grouped(front + tail, target);
    if cur.len() > 0 {
        assert(done.push(cur).drop_last() =~= done);
    } else {
        assert(front + tail =~= Seq::<RawEntry>::empty());
        assert(all_of(done) =~= front + tail);
        assert forall|i: int| 0 < i < done.len() implies user_of(done[i - 1].last().0) != user_of(
            (#[trigger] done[i])[0].0,
        ) by {
            let all = done.push(cur);
            assert(all[i] == done[i] && all[i - 1] == done[i - 1]);
        }
    }
}

/// Tells whether entries are as a table file holds them.
pub open spec fn canonical(es: Seq<RawEntry>) -> bool {
    forall|i: int|
        0 <= i < es.len() ==> entry_problem(#[trigger] es[i]) is None && recoded(es[i]) == es[i]
}

proof fn lemma_recode_canonical(es: Seq<RawEntry>)
    requires
        canonical(es),
    ensures
        recode_all(es) == Ok::<Seq<RawEntry>, ErrorView>(es),
    decreases es.len(),
{
    if es.len() > 0 {
        let t = es.drop_last();
        assert forall|i: int| 0 <= i < t.len() implies entry_problem(#[trigger] t[i]) is None
            && recoded(t[i]) == t[i] by {
            assert(t[i] == es[i]);
        }
        lemma_recode_canonical(t);
        let x = es.last();
        assert(x == es[es.len() - 1]);
        assert(es =~= t.push(x));
    } else {
        assert(es =~= Seq::<RawEntry>::empty());
    }
}

proof fn lemma_parts_sorted(files: Seq<Seq<RawEntry>>)
    requires
        raw_sorted(all_of(files)),
    ensures
        all_sorted(files),
    decreases files.len(),
{
    if files.len() > 0 {
        let a = all_of(files.drop_last());
        let b = files.last();
        let c = all_of(files);
        assert(c == a + b);
        assert forall|i: int, j: int| 0 <= i < j < a.len() implies lex_lt(
            (#[trigger] a[i]).0,
            (#[trigger] a[j]).0,
        ) by {
            assert(c[i] == a[i] && c[j] == a[j]);
        }
        assert forall|i: int, j: int| 0 <= i < j < b.len() implies lex_lt(
            (#[trigger] b[i]).0,
            (#[trigger] b[j]).0,
        ) by {
            assert(c[i + a.len()] == b[i] && c[j + a.len()] == b[j]);
        }
        lemma_parts_sorted(files.drop_last());
        assert forall|i: int| 0 <= i < files.len() implies raw_sorted(#[trigger] files[i]) by {
            if i < files.len() - 1 {
                assert(files[i] == files.drop_last()[i]);
            }
        }
    }
}

/// Tells whether sources are what table files hold: in ascending order, entries with the same key
/// the same, and every entry as a table file holds it.
pub open spec fn sound_sources(srcs: Seq<Seq<RawEntry>>) -> bool {
    &&& sources_sorted(srcs)
    &&& forall|i: int| 0 <= i < srcs.len() ==> canonical(#[trigger] srcs[i])
}

/// What is merged of table files is as a table file holds it.
pub proof fn lemma_merged_canonical(srcs: Seq<Seq<RawEntry>>)
    requires
        sound_sources(srcs),
    ensures
        canonical(joined(srcs)),
        whole_keys(joined(srcs)),
        raw_sorted(joined(srcs)),
{
    law_merge_sorted(srcs);
    let all = joined(srcs);
    assert forall|i: int| 0 <= i < all.len() implies entry_problem(#[trigger] all[i]) is None
        && recoded(all[i]) == all[i] && is_key(all[i].0) by {
        let e = all[i];
        assert(all.contains(e));
        let j = choose|j: int| 0 <= j < srcs.len() && (#[trigger] srcs[j]).contains(e);
        let p = choose|p: int| 0 <= p < srcs[j].len() && srcs[j][p] == e;
        assert(canonical(srcs[j]));
        assert(entry_problem(srcs[j][p]) is None);
    }
}

proof fn lemma_surviving_canonical(es: Seq<RawEntry>, watermark: Option<u64>)
    requires
        canonical(es),
        raw_sorted(es),
        whole_keys(es),
    ensures
        canonical(front_of(es, watermark)),
        canonical(tail_of(es, watermark)),
{
    lemma_parts(es, watermark);
    let out = surviving(es, watermark);
    let front = front_of(es, watermark);
    let tail = tail_of(es, watermark);
    assert forall|x: RawEntry| #[trigger] out.contains(x) implies es.contains(x) by {
        match watermark {
            Some(w) => {
                law_gc_keeps(es, w, x);
            },
            None => {
                law_newest_keeps(es, x);
            },
        }
    }
    assert forall|i: int| 0 <= i < front.len() implies entry_problem(#[trigger] front[i]) is None
        && recoded(front[i]) == front[i] by {
        assert(out[i] == front[i]);
        assert(out.contains(front[i]));
        let p = choose|p: int| 0 <= p < es.len() && es[p] == front[i];
        assert(entry_problem(es[p]) is None);
    }
    assert forall|i: int| 0 <= i < tail.len() implies entry_problem(#[trigger] tail[i]) is None
        && recoded(tail[i]) == tail[i] by {
        assert(out[i + front.len()] == tail[i]);
        assert(out.contains(tail[i]));
        let p = choose|p: int| 0 <= p < es.len() && es[p] == tail[i];
        assert(entry_problem(es[p]) is None);
    }
}

/// Merging what table files hold always succeeds, and the files made hold what survives.
pub proof fn law_merge_succeeds(
    srcs: Seq<Seq<RawEntry>>,
    watermark: Option<u64>,
    config: CompactionConfig,
)
    requires
        sound_sources(srcs),
    ensures
        merged_files(srcs, watermark, config) is Ok,
        all_of(merged_files(srcs, watermark, config)->Ok_0) == surviving(joined(srcs), watermark),
        no_empty_block(merged_files(srcs, watermark, config)->Ok_0),
        cut_between_users(merged_files(srcs, watermark, config)->Ok_0),
{
    let all = joined(srcs);
    lemma_merged_canonical(srcs);
    lemma_surviving_canonical(all, watermark);
    let front = front_of(all, watermark);
    let tail = tail_of(all, watermark);
    lemma_recode_canonical(front);
    lemma_recode_canonical(tail);
    let target = (config.base_level_size / 10) as nat;
    lemma_groups_hold_all(front, tail, target);
    lemma_parts(all, watermark);
    law_surviving_sorted(all, watermark);
    lemma_parts_sorted(file_groups(front, tail, target));
}

/// A reader gets the same whether keys are repeated or not.
proof fn lemma_joined_reads(srcs: Seq<Seq<RawEntry>>, key: Seq<u8>, at: u64, r: Option<RawEntry>)
    requires
        sound_sources(srcs),
        reads(merged(srcs), key, at, r),
    ensures
        reads(joined(srcs), key, at, r),
{
    law_merge_sorted(srcs);
    let (a, b) = (merged(srcs), joined(srcs));
    if let Some(e) = r {
        law_merge_has_all(srcs, e);
    }
    assert forall|i: int| 0 <= i < b.len() implies exists|j: int| 0 <= j < a.len() && a[j] == #[trigger] b[i] by {
        assert(b.contains(b[i]));
        law_merge_has_all(srcs, b[i]);
    }
}

/// A compaction with a watermark changes nothing for a reader at or above the watermark: what it
/// read from the files that were merged, it reads from those that were made.
pub proof fn law_compaction_keeps_reads(
    srcs: Seq<Seq<RawEntry>>,
    watermark: u64,
    config: CompactionConfig,
    key: Seq<u8>,
    at: u64,
    r: Option<RawEntry>,
)
    requires
        sound_sources(srcs),
        at >= watermark,
        reads(merged(srcs), key, at, r),
    ensures
        merged_files(srcs, Some(watermark), config) is Ok,
        reads(all_of(merged_files(srcs, Some(watermark), config)->Ok_0), key, at, r),
{
    law_merge_succeeds(srcs, Some(watermark), config);
    lemma_merged_canonical(srcs);
    lemma_joined_reads(srcs, key, at, r);
    law_gc_keeps_reads(joined(srcs), watermark, key, at, r);
}

/// A compaction without a watermark changes nothing for a reader that sees all versions.
pub proof fn law_compaction_keeps_latest(
    srcs: Seq<Seq<RawEntry>>,
    config: CompactionConfig,
    key: Seq<u8>,
    r: Option<RawEntry>,
)
    requires
        sound_sources(srcs),
        reads(merged(srcs), key, u64::MAX, r),
    ensures
        merged_files(srcs, None, config) is Ok,
        reads(all_of(merged_files(srcs, None, config)->Ok_0), key, u64::MAX, r),
{
    law_merge_succeeds(srcs, None, config);
    lemma_merged_canonical(srcs);
    lemma_joined_reads(srcs, key, u64::MAX, r);
    law_newest_keeps_reads(joined(srcs), key, r);
}

/// Tells whether two files have key ranges of which one ends before the other starts.
spec fn apart(a: FileView, b: FileView) -> bool {
    lex_lt(a.largest_key, b.smallest_key) || lex_lt(b.largest_key, a.smallest_key)
}

spec fn all_apart(files: Seq<FileView>) -> bool {
    &&& forall|i: int|
        0 <= i < files.len() ==> lex_le((#[trigger] files[i]).smallest_key, files[i].largest_key)
    &&& forall|i: int, j: int|
        0 <= i < j < files.len() ==> apart(#[trigger] files[i], #[trigger] files[j])
}

proof fn lemma_insert_place(files: Seq<FileView>, f: FileView)
    ensures
        insert_place(files, f) <= files.len(),
        insert_place(files, f) > 0 ==> !lex_lt(
            f.smallest_key,
            files[insert_place(files, f) - 1].smallest_key,
        ),
        forall|i: int|
            insert_place(files, f) <= i < files.len() ==> lex_lt(
                f.smallest_key,
                (#[trigger] files[i]).smallest_key,
            ),
    decreases files.len(),
{
    if files.len() > 0 && lex_lt(f.smallest_key, files.last().smallest_key) {
        let t = files.drop_last();
        lemma_insert_place(t, f);
        let p = insert_place(files, f) as int;
        if p > 0 {
            assert(t[p - 1] == files[p - 1]);
        }
        assert forall|i: int| p <= i < files.len() implies lex_lt(
            f.smallest_key,
            (#[trigger] files[i]).smallest_key,
        ) by {
            if i < t.len() {
                assert(t[i] == files[i]);
            }
        }
    }
}

/// Sorting files changes only their order.
pub proof fn lemma_sorted_has(files: Seq<FileView>, x: FileView)
    ensures
        sorted_files(files).contains(x) == files.contains(x),
        sorted_files(files).len() == files.len(),
    decreases files.len(),
{
    if files.len() > 0 {
        let t = files.drop_last();
        let f = files.last();
        lemma_sorted_has(t, x);
        let b = sorted_files(t);
        lemma_insert_place(b, f);
        let p = insert_place(b, f) as int;
        let c = b.insert(p, f);
        assert(c[p] == f);
        assert(files[files.len() - 1] == f);
        if c.contains(x) {
            let i = choose|i: int| 0 <= i < c.len() && c[i] == x;
            if i < p {
                assert(b[i] == x);
            } else if i > p {
                assert(b[i - 1] == x);
            }
            if i != p {
                let q = choose|q: int| 0 <= q < t.len() && t[q] == x;
                assert(files[q] == x);
            }
        }
        if files.contains(x) {
            let q = choose|q: int| 0 <= q < files.len() && files[q] == x;
            if q < t.len() {
                assert(t[q] == x);
                let i = choose|i: int| 0 <= i < b.len() && b[i] == x;
                if i < p {
                    assert(c[i] == x);
                } else {
                    assert(c[i + 1] == x);
                }
            }
        }
    }
}

proof fn lemma_insert_ordered(b: Seq<FileView>, f: FileView)
    requires
        level_ordered(b),
        lex_le(f.smallest_key, f.largest_key),
        forall|i: int| 0 <= i < b.len() ==> apart(#[trigger] b[i], f),
    ensures
        level_ordered(b.insert(insert_place(b, f) as int, f)),
{
    lemma_insert_place(b, f);
    let p = insert_place(b, f) as int;
    let c = b.insert(p, f);
    assert forall|i: int| 0 <= i < p implies lex_lt(
        (#[trigger] b[i]).largest_key,
        f.smallest_key,
    ) by {
        assert(apart(b[i], f));
        if lex_lt(f.largest_key, b[i].smallest_key) {
            lemma_lex_le_lt(f.smallest_key, f.largest_key, b[i].smallest_key);
            if i < p - 1 {
                assert(lex_lt(b[i].largest_key, b[p - 1].smallest_key));
                assert(lex_le(b[i].smallest_key, b[i].largest_key));
                lemma_lex_lt_le(f.smallest_key, b[i].smallest_key, b[i].largest_key);
                lemma_lex_transitive(f.smallest_key, b[i].largest_key, b[p - 1].smallest_key);
            }
        }
    }
    assert forall|i: int| p <= i < b.len() implies lex_lt(
        f.largest_key,
        (#[trigger] b[i]).smallest_key,
    ) by {
        assert(apart(b[i], f));
        assert(lex_lt(f.smallest_key, b[i].smallest_key));
        if lex_lt(b[i].largest_key, f.smallest_key) {
            assert(lex_le(b[i].smallest_key, b[i].largest_key));
            lemma_lex_lt_le(f.smallest_key, b[i].smallest_key, b[i].largest_key);
            lemma_lex_asymmetric(f.smallest_key, b[i].largest_key);
        }
    }
    assert forall|i: int| 0 <= i < c.len() implies lex_le(
        (#[trigger] c[i]).smallest_key,
        c[i].largest_key,
    ) by {
        if i < p {
            assert(c[i] == b[i]);
        } else if i > p {
            assert(c[i] == b[i - 1]);
        }
    }
    assert forall|i: int, j: int| 0 <= i < j < c.len() implies lex_lt(
        (#[trigger] c[i]).largest_key,
        (#[trigger] c[j]).smallest_key,
    ) by {
        if j < p {
            assert(c[i] == b[i] && c[j] == b[j]);
        } else if j == p {
            assert(c[i] == b[i]);
        } else if i < p {
            assert(c[i] == b[i] && c[j] == b[j - 1]);
        } else if i == p {
            assert(c[j] == b[j - 1]);
        } else {
            assert(c[i] == b[i - 1] && c[j] == b[j - 1]);
        }
    }
}

proof fn lemma_sorted_ordered(files: Seq<FileView>)
    requires
        all_apart(files),
    ensures
        level_ordered(sorted_files(files)),
    decreases files.len(),
{
    if files.len() > 0 {
        let t = files.drop_last();
        let f = files.last();
        assert forall|i: int, j: int| 0 <= i < j < t.len() implies apart(
            #[trigger] t[i],
            #[trigger] t[j],
        ) by {
            assert(t[i] == files[i] && t[j] == files[j]);
        }
        assert forall|i: int| 0 <= i < t.len() implies lex_le(
            (#[trigger] t[i]).smallest_key,
            t[i].largest_key,
        ) by {
            assert(t[i] == files[i]);
        }
        lemma_sorted_ordered(t);
        let b = sorted_files(t);
        let n = files.len() - 1;
        assert(files[n] == f);
        assert forall|i: int| 0 <= i < b.len() implies apart(#[trigger] b[i], f) by {
            lemma_sorted_has(t, b[i]);
            assert(b.contains(b[i]));
            let q = choose|q: int| 0 <= q < t.len() && t[q] == b[i];
            assert(apart(files[q], files[n]));
        }
        lemma_insert_ordered(b, f);
    }
}

/// Files that are left were there, and their numbers are not among those taken out.
pub proof fn lemma_without_files(files: Seq<FileView>, removed: Seq<u64>, i: int)
    requires
        0 <= i < without_files(files, removed).len(),
    ensures
        files.contains(without_files(files, removed)[i]),
        !removed.contains(without_files(files, removed)[i].file_num),
    decreases files.len(),
{
    let t = files.drop_last();
    let before = without_files(t, removed);
    let all = without_files(files, removed);
    if i < before.len() {
        lemma_without_files(t, removed, i);
        let x = before[i];
        assert(all[i] == x);
        let q = choose|q: int| 0 <= q < t.len() && t[q] == x;
        assert(files[q] == x);
    } else {
        assert(all[i] == files.last());
        assert(files[files.len() - 1] == files.last());
    }
}

proof fn lemma_without_ordered(files: Seq<FileView>, removed: Seq<u64>)
    requires
        level_ordered(files),
    ensures
        level_ordered(without_files(files, removed)),
    decreases files.len(),
{
    if files.len() > 0 {
        let t = files.drop_last();
        let f = files.last();
        let n = files.len() - 1;
        assert(files[n] == f);
        assert forall|i: int, j: int| 0 <= i < j < t.len() implies lex_lt(
            (#[trigger] t[i]).largest_key,
            (#[trigger] t[j]).smallest_key,
        ) by {
            assert(t[i] == files[i] && t[j] == files[j]);
        }
        assert forall|i: int| 0 <= i < t.len() implies lex_le(
            (#[trigger] t[i]).smallest_key,
            t[i].largest_key,
        ) by {
            assert(t[i] == files[i]);
        }
        lemma_without_ordered(t, removed);
        let before = without_files(t, removed);
        assert forall|i: int| 0 <= i < before.len() implies lex_lt(
            (#[trigger] before[i]).largest_key,
            f.smallest_key,
        ) by {
            lemma_without_files(t, removed, i);
            let q = choose|q: int| 0 <= q < t.len() && t[q] == before[i];
            assert(lex_lt(files[q].largest_key, files[n].smallest_key));
        }
    }
}

/// A file that overlaps a range is among those that do.
pub proof fn lemma_overlapping_has(files: Seq<FileView>, smallest: Seq<u8>, largest: Seq<u8>, i: int)
    requires
        0 <= i < files.len(),
        overlaps_keys(files[i], smallest, largest),
    ensures
        overlapping(files, smallest, largest).contains(files[i]),
    decreases files.len(),
{
    let t = files.drop_last();
    let before = overlapping(t, smallest, largest);
    let all = overlapping(files, smallest, largest);
    if i == files.len() - 1 {
        assert(all[before.len() as int] == files[i]);
    } else {
        assert(t[i] == files[i]);
        lemma_overlapping_has(t, smallest, largest, i);
        let q = choose|q: int| 0 <= q < before.len() && before[q] == files[i];
        assert(all[q] == files[i]);
    }
}

/// Tells whether a file that was made lies within the keys of the files that were merged: those of
/// the key range `smallest..largest` and those of files that overlap it.
pub open spec fn within_merged(
    f: FileView,
    smallest: Seq<u8>,
    largest: Seq<u8>,
    outputs: Seq<FileView>,
) -> bool {
    &&& lex_le(smallest, f.smallest_key) || exists|i: int|
        0 <= i < outputs.len() && lex_le((#[trigger] outputs[i]).smallest_key, f.smallest_key)
    &&& lex_le(f.largest_key, largest) || exists|i: int|
        0 <= i < outputs.len() && lex_le(f.largest_key, (#[trigger] outputs[i]).largest_key)
}

proof fn lemma_kept_apart(
    files: Seq<FileView>,
    smallest: Seq<u8>,
    largest: Seq<u8>,
    r: int,
    f: FileView,
)
    requires
        level_ordered(files),
        0 <= r < files.len(),
        !overlaps_keys(files[r], smallest, largest),
        lex_le(f.smallest_key, f.largest_key),
        within_merged(f, smallest, largest, overlapping(files, smallest, largest)),
    ensures
        apart(files[r], f),
{
    let outputs = overlapping(files, smallest, largest);
    let x = files[r];
    assert(lex_le(x.smallest_key, x.largest_key));
    if lex_lt(x.largest_key, smallest) {
        if lex_le(smallest, f.smallest_key) {
            lemma_lex_lt_le(x.largest_key, smallest, f.smallest_key);
        } else {
            let i = choose|i: int|
                0 <= i < outputs.len() && lex_le(
                    (#[trigger] outputs[i]).smallest_key,
                    f.smallest_key,
                );
            lemma_overlapping_subset(files, smallest, largest, i);
            lemma_overlapping_overlaps(files, smallest, largest, i);
            let o = outputs[i];
            let q = choose|q: int| 0 <= q < files.len() && files[q] == o;
            assert(!lex_lt(o.largest_key, smallest));
            if q <= r {
                if q < r {
                    assert(lex_lt(files[q].largest_key, files[r].smallest_key));
                    lemma_lex_lt_le(o.largest_key, x.smallest_key, x.largest_key);
                    lemma_lex_transitive(o.largest_key, x.largest_key, smallest);
                }
                assert(false);
            }
            assert(lex_lt(files[r].largest_key, files[q].smallest_key));
            lemma_lex_lt_le(x.largest_key, o.smallest_key, f.smallest_key);
        }
    } else {
        assert(lex_lt(largest, x.smallest_key));
        if lex_le(f.largest_key, largest) {
            lemma_lex_le_lt(f.largest_key, largest, x.smallest_key);
        } else {
            let i = choose|i: int|
                0 <= i < outputs.len() && lex_le(
                    f.largest_key,
                    (#[trigger] outputs[i]).largest_key,
                );
            lemma_overlapping_subset(files, smallest, largest, i);
            lemma_overlapping_overlaps(files, smallest, largest, i);
            let o = outputs[i];
            let q = choose|q: int| 0 <= q < files.len() && files[q] == o;
            assert(!lex_lt(largest, o.smallest_key));
            if q >= r {
                if q > r {
                    assert(lex_lt(files[r].largest_key, files[q].smallest_key));
                    lemma_lex_lt_le(largest, x.smallest_key, x.largest_key);
                    lemma_lex_transitive(largest, x.largest_key, o.smallest_key);
                }
                assert(false);
            }
            assert(lex_lt(files[q].largest_key, files[r].smallest_key));
            lemma_lex_le_lt(f.largest_key, o.largest_key, x.smallest_key);
        }
    }
}

proof fn lemma_overlapping_overlaps(
    files: Seq<FileView>,
    smallest: Seq<u8>,
    largest: Seq<u8>,
    i: int,
)
    requires
        0 <= i < overlapping(files, smallest, largest).len(),
    ensures
        overlaps_keys(overlapping(files, smallest, largest)[i], smallest, largest),
    decreases files.len(),
{
    let before = overlapping(files.drop_last(), smallest, largest);
    if i < before.len() {
        lemma_overlapping_overlaps(files.drop_last(), smallest, largest, i);
    }
}

/// A compaction keeps the files of each level below level 0 in order and apart: those merged are
/// taken out, and those made lie where they were.
pub proof fn law_compaction_keeps_order(
    v: Seq<Seq<FileView>>,
    level: int,
    smallest: Seq<u8>,
    largest: Seq<u8>,
    removed: Seq<u64>,
    new_files: Seq<FileView>,
)
    requires
        levels_ordered(v),
        0 <= level,
        level + 1 < v.len(),
        forall|i: int|
            0 <= i < overlapping(v[level + 1], smallest, largest).len() ==> removed.contains(
                (#[trigger] overlapping(v[level + 1], smallest, largest)[i]).file_num,
            ),
        level_ordered(new_files),
        forall|i: int|
            0 <= i < new_files.len() ==> within_merged(
                #[trigger] new_files[i],
                smallest,
                largest,
                overlapping(v[level + 1], smallest, largest),
            ),
    ensures
        levels_ordered(applied(v, level, level + 1, removed, new_files)),
{
    let target = level + 1;
    let files = v[target];
    let outputs = overlapping(files, smallest, largest);
    let rest = without_files(files, removed);
    let all = rest + new_files;
    let after = applied(v, level, target, removed, new_files);
    assert(level_ordered(files));
    lemma_without_ordered(files, removed);
    assert forall|i: int| 0 <= i < all.len() implies lex_le(
        (#[trigger] all[i]).smallest_key,
        all[i].largest_key,
    ) by {
        if i < rest.len() {
            assert(all[i] == rest[i]);
        } else {
            assert(all[i] == new_files[i - rest.len()]);
        }
    }
    assert forall|i: int, j: int| 0 <= i < j < all.len() implies apart(
        #[trigger] all[i],
        #[trigger] all[j],
    ) by {
        if j < rest.len() {
            assert(all[i] == rest[i] && all[j] == rest[j]);
        } else if i >= rest.len() {
            assert(all[i] == new_files[i - rest.len()] && all[j] == new_files[j - rest.len()]);
        } else {
            let f = new_files[j - rest.len()];
            assert(all[i] == rest[i] && all[j] == f);
            lemma_without_files(files, removed, i);
            let r = choose|r: int| 0 <= r < files.len() && files[r] == rest[i];
            if overlaps_keys(files[r], smallest, largest) {
                lemma_overlapping_has(files, smallest, largest, r);
                let q = choose|q: int| 0 <= q < outputs.len() && outputs[q] == files[r];
                assert(removed.contains(outputs[q].file_num));
            }
            lemma_kept_apart(files, smallest, largest, r, f);
        }
    }
    lemma_sorted_ordered(all);
    assert forall|i: int| 1 <= i < after.len() implies level_ordered(#[trigger] after[i]) by {
        if i == target {
            assert(after[i] == sorted_files(all));
        } else if i == level {
            assert(level_ordered(v[level]));
            lemma_without_ordered(v[level], removed);
        } else {
            assert(after[i] == v[i]);
        }
    }
}

/// A file is among those that overlap a range exactly where it is one of the files and a key of
/// the range can be in it.
pub proof fn law_overlapping_has(
    files: Seq<FileView>,
    smallest: Seq<u8>,
    largest: Seq<u8>,
    f: FileView,
)
    ensures
        overlapping(files, smallest, largest).contains(f) <==> files.contains(f) && lex_le(
            smallest,
            f.largest_key,
        ) && lex_le(f.smallest_key, largest),
    decreases files.len(),
{
    lemma_not_lt(f.largest_key, smallest);
    lemma_not_lt(largest, f.smallest_key);
    if files.len() > 0 {
        let t = files.drop_last();
        let before = overlapping(t, smallest, largest);
        let all = overlapping(files, smallest, largest);
        law_overlapping_has(t, smallest, largest, f);
        assert(files[files.len() - 1] == files.last());
        if t.contains(f) {
            let i = choose|i: int| 0 <= i < t.len() && t[i] == f;
            assert(files[i] == f);
        }
        if files.contains(f) && f != files.last() {
            let i = choose|i: int| 0 <= i < files.len() && files[i] == f;
            assert(t[i] == f);
        }
        if before.contains(f) {
            let i = choose|i: int| 0 <= i < before.len() && before[i] == f;
            assert(all[i] == f);
        }
        if all.contains(f) {
            let i = choose|i: int| 0 <= i < all.len() && all[i] == f;
            if i < before.len() {
                assert(before[i] == f);
            }
        }
        if f == files.last() && overlaps_keys(f, smallest, largest) {
            assert(all[before.len() as int] == f);
        }
    }
}

proof fn lemma_not_lt(a: Seq<u8>, b: Seq<u8>)
    ensures
        !lex_lt(a, b) <==> lex_le(b, a),
{
    crate::codec::lemma_lex_total(a, b);
    crate::codec::lemma_lex_irreflexive(a);
    if lex_lt(a, b) {
        crate::codec::lemma_lex_asymmetric(a, b);
    }
}

/// One file more on a level adds its size to that of the level, up to the largest number; a level
/// without files, or one that is not there, has none.
pub proof fn law_level_size(v: Seq<Seq<FileView>>, level: int, f: FileView)
    requires
        0 <= level < v.len(),
    ensures
        size_of_level(v.update(level, v[level].push(f)), level) == (if size_of_level(v, level)
            + f.file_size > u64::MAX {
            u64::MAX as int
        } else {
            size_of_level(v, level) + f.file_size
        }),
        v[level].len() == 0 ==> size_of_level(v, level) == 0,
        size_of_level(v, v.len() as int) == 0,
{
    let w = v.update(level, v[level].push(f));
    assert(w[level].drop_last() =~= v[level]);
}

/// The first level below level 0 has the base size, and each level after it is larger by the
/// ratio, up to the largest number.
pub proof fn law_target_sizes(config: CompactionConfig, level: nat)
    requires
        level >= 1,
    ensures
        target_size(config, 1) == config.base_level_size,
        target_size(config, level + 1) == (if target_size(config, level) * config.size_ratio
            > u64::MAX {
            u64::MAX as int
        } else {
            target_size(config, level) * config.size_ratio
        }),
{
    let base = config.base_level_size as nat;
    assert(power(config.size_ratio as nat, 0) == 1);
    assert(base * power(config.size_ratio as nat, 0) == base) by (nonlinear_arith)
        requires
            power(config.size_ratio as nat, 0) == 1,
    ;
    lemma_capped_product(
        config.base_level_size as nat,
        config.size_ratio as nat,
        power(config.size_ratio as nat, (level - 1) as nat),
    );
}

/// Tells whether a level that is not the last is larger than it should be.
pub open spec fn oversized(config: CompactionConfig, v: Seq<Seq<FileView>>, level: int) -> bool {
    1 <= level < v.len() - 1 && size_of_level(v, level) > target_size(config, level as nat)
}

proof fn lemma_first_oversized(config: CompactionConfig, v: Seq<Seq<FileView>>, level: nat)
    requires
        level >= 1,
    ensures
        match first_oversized(config, v, level) {
            Some(l) => oversized(config, v, l as int) && level <= l && forall|m: int|
                level <= m < l ==> !#[trigger] oversized(config, v, m),
            None => forall|m: int| level <= m ==> !#[trigger] oversized(config, v, m),
        },
    decreases v.len() - level,
{
    if level + 1 < v.len() {
        lemma_first_oversized(config, v, level + 1);
    }
}

proof fn lemma_largest_file_size(files: Seq<FileView>, i: int)
    requires
        0 <= i < files.len(),
    ensures
        files[i].file_size <= largest_file(files).file_size,
    decreases files.len(),
{
    if files.len() > 1 {
        let t = files.drop_last();
        if i < t.len() {
            assert(t[i] == files[i]);
            lemma_largest_file_size(t, i);
        } else {
            lemma_largest_file_size(t, 0);
        }
    }
}

/// What is picked to merge. Level 0 comes first, all of it, where it has as many files as start a
/// compaction. Otherwise it is the first level, other than the last, that is larger than it should
/// be, and of that a file of the largest size. Nothing is picked where there is neither.
pub proof fn law_pick(config: CompactionConfig, v: Seq<Seq<FileView>>)
    requires
        v.len() >= 2,
    ensures
        match picked(config, v) {
            Some(t) => {
                &&& t.level == 0 ==> v[0].len() >= config.l0_compaction_trigger && t.input_files
                    == v[0] && v[0].len() > 0
                &&& t.level > 0 ==> {
                    &&& v[0].len() < config.l0_compaction_trigger
                    &&& oversized(config, v, t.level as int)
                    &&& forall|m: int| 1 <= m < t.level ==> !#[trigger] oversized(config, v, m)
                    &&& t.input_files.len() == 1
                    &&& v[t.level as int].contains(t.input_files[0])
                    &&& forall|i: int|
                        0 <= i < v[t.level as int].len() ==> (
                        #[trigger] v[t.level as int][i]).file_size <= t.input_files[0].file_size
                }
            },
            None => {
                ||| v[0].len() == 0 && config.l0_compaction_trigger == 0
                ||| v[0].len() < config.l0_compaction_trigger && forall|m: int|
                    1 <= m ==> !#[trigger] oversized(config, v, m)
            },
        },
{
    lemma_first_oversized(config, v, 1);
    if v[0].len() < config.l0_compaction_trigger {
        if let Some(l) = first_oversized(config, v, 1) {
            let files = v[l as int];
            assert(oversized(config, v, l as int));
            assert(files.len() > 0) by {
                if files.len() == 0 {
                    assert(total_size(files) == 0);
                }
            }
            crate::levels::lemma_largest_file(files);
            assert forall|i: int| 0 <= i < v[l as int].len() implies (
            #[trigger] v[l as int][i]).file_size <= largest_file(files).file_size by {
                lemma_largest_file_size(files, i);
            }
        }
    }
}

/// What is picked to merge takes every file of the next level that a key of its own files can be
/// in, and only files of that level.
pub proof fn law_pick_takes_overlaps(
    config: CompactionConfig,
    v: Seq<Seq<FileView>>,
    i: int,
    f: FileView,
)
    requires
        v.len() >= 2,
        levels_ordered(v),
        picked(config, v) is Some,
        0 <= i < (picked(config, v)->0).input_files.len(),
    ensures
        ({
            let t = picked(config, v)->0;
            let g = t.input_files[i];
            let next = v[t.level as int + 1];
            &&& t.level + 1 < v.len()
            &&& t.output_level_files.contains(f) ==> next.contains(f)
            &&& next.contains(f) && lex_le(g.smallest_key, f.largest_key) && lex_le(
                f.smallest_key,
                g.largest_key,
            ) ==> t.output_level_files.contains(f)
        }),
{
    lemma_picked_level(config, v);
    let t = picked(config, v)->0;
    let g = t.input_files[i];
    let next = v[t.level as int + 1];
    assert(level_ordered(next));
    let (lo, hi) = if t.level == 0 {
        (min_key(v[0]), max_key(v[0]))
    } else {
        (g.smallest_key, g.largest_key)
    };
    if t.level == 0 {
        crate::levels::lemma_range(v[0], i);
    }
    lemma_of_user(lo);
    lemma_of_user(hi);
    let (a, b) = (first_of_user(lo), last_of_user(hi));
    law_found_overlaps(next, a, b);
    law_overlapping_has(next, a, b, f);
    if lex_le(g.smallest_key, f.largest_key) {
        lemma_le_le(lo, g.smallest_key, f.largest_key);
        lemma_le_le(a, lo, f.largest_key);
    }
    if lex_le(f.smallest_key, g.largest_key) {
        lemma_le_le(f.smallest_key, g.largest_key, hi);
        lemma_le_le(f.smallest_key, hi, b);
    }
}

proof fn lemma_le_le(a: Seq<u8>, b: Seq<u8>, c: Seq<u8>)
    requires
        lex_le(a, b),
        lex_le(b, c),
    ensures
        lex_le(a, c),
{
    if lex_lt(a, b) {
        lemma_lex_lt_le(a, b, c);
    }
}

/// The files of a level without those that were removed.
pub proof fn law_without_files(files: Seq<FileView>, removed: Seq<u64>, f: FileView)
    ensures
        without_files(files, removed).contains(f) <==> files.contains(f) && !removed.contains(
            f.file_num,
        ),
    decreases files.len(),
{
    if files.len() > 0 {
        let t = files.drop_last();
        let before = without_files(t, removed);
        let all = without_files(files, removed);
        law_without_files(t, removed, f);
        assert(files[files.len() - 1] == files.last());
        if t.contains(f) {
            let i = choose|i: int| 0 <= i < t.len() && t[i] == f;
            assert(files[i] == f);
        }
        if files.contains(f) && f != files.last() {
            let i = choose|i: int| 0 <= i < files.len() && files[i] == f;
            assert(t[i] == f);
        }
        if before.contains(f) {
            let i = choose|i: int| 0 <= i < before.len() && before[i] == f;
            assert(all[i] == f);
        }
        if all.contains(f) {
            let i = choose|i: int| 0 <= i < all.len() && all[i] == f;
            if i < before.len() {
                assert(before[i] == f);
            }
        }
        if f == files.last() && !removed.contains(f.file_num) {
            assert(all[before.len() as int] == f);
        }
    }
}

proof fn lemma_sorted_rises(files: Seq<FileView>)
    ensures
        sorted_files(files).len() == files.len(),
        forall|i: int, j: int|
            0 <= i < j < files.len() ==> lex_le(
                (#[trigger] sorted_files(files)[i]).smallest_key,
                (#[trigger] sorted_files(files)[j]).smallest_key,
            ),
    decreases files.len(),
{
    if files.len() > 0 {
        let t = files.drop_last();
        let f = files.last();
        lemma_sorted_rises(t);
        let b = sorted_files(t);
        lemma_insert_place(b, f);
        let p = insert_place(b, f) as int;
        let c = b.insert(p, f);
        assert forall|i: int, j: int| 0 <= i < j < files.len() implies lex_le(
            (#[trigger] c[i]).smallest_key,
            (#[trigger] c[j]).smallest_key,
        ) by {
            if j < p {
                assert(c[i] == b[i] && c[j] == b[j]);
            } else if i > p {
                assert(c[i] == b[i - 1] && c[j] == b[j - 1]);
            } else if i < p && j > p {
                assert(c[i] == b[i] && c[j] == b[j - 1]);
            } else if i == p {
                assert(c[j] == b[j - 1]);
            } else {
                assert(c[i] == b[i] && c[j] == f);
                let q = b[p - 1];
                lemma_not_lt(f.smallest_key, q.smallest_key);
                if i < p - 1 {
                    assert(lex_le(b[i].smallest_key, b[p - 1].smallest_key));
                    lemma_le_le(b[i].smallest_key, q.smallest_key, f.smallest_key);
                }
            }
        }
    }
}

/// What a compaction leaves on the levels. The level that it merged from has its files but those
/// that were removed; the next has that and the new files, by smallest key; no other level
/// changes.
pub proof fn law_applied_levels(
    v: Seq<Seq<FileView>>,
    level: int,
    removed: Seq<u64>,
    new_files: Seq<FileView>,
    m: int,
    f: FileView,
)
    requires
        0 <= level < v.len() - 1,
        0 <= m < v.len(),
    ensures
        ({
            let w = applied(v, level, level + 1, removed, new_files);
            &&& w.len() == v.len()
            &&& m != level && m != level + 1 ==> w[m] == v[m]
            &&& w[level].contains(f) <==> v[level].contains(f) && !removed.contains(f.file_num)
            &&& w[level + 1].contains(f) <==> new_files.contains(f) || (v[level + 1].contains(f)
                && !removed.contains(f.file_num))
            &&& forall|i: int, j: int|
                0 <= i < j < w[level + 1].len() ==> lex_le(
                    (#[trigger] w[level + 1][i]).smallest_key,
                    (#[trigger] w[level + 1][j]).smallest_key,
                )
        }),
{
    let a = v.update(level, without_files(v[level], removed));
    let kept = without_files(a[level + 1], removed);
    let files = kept + new_files;
    law_without_files(v[level], removed, f);
    law_without_files(v[level + 1], removed, f);
    lemma_sorted_has(files, f);
    lemma_sorted_rises(files);
    if kept.contains(f) {
        let i = choose|i: int| 0 <= i < kept.len() && kept[i] == f;
        assert(files[i] == f);
    }
    if new_files.contains(f) {
        let i = choose|i: int| 0 <= i < new_files.len() && new_files[i] == f;
        assert(files[kept.len() + i] == f);
    }
    if files.contains(f) {
        let i = choose|i: int| 0 <= i < files.len() && files[i] == f;
        if i < kept.len() {
            assert(kept[i] == f);
        } else {
            assert(new_files[i - kept.len()] == f);
        }
    }
}

/// Tells whether entries of a group go on past the size that is aimed at only for versions of one
/// user key.
pub open spec fn cut_when_full(g: Seq<RawEntry>, target: nat) -> bool {
    forall|k: int|
        0 < k < g.len() && k * 100 >= target ==> user_of(g[k - 1].0) == user_of(
            (#[trigger] g[k]).0,
        )
}

/// Entries are split into files that are full, but for the last, and no longer than it takes to
/// keep the versions of a user key together. Nothing is lost and nothing moves.
pub proof fn law_groups_full(front: Seq<RawEntry>, tail: Seq<RawEntry>, target: nat)
    ensures
        ({
            let gs = file_groups(front, tail, target);
            &&& all_of(gs) == front + tail
            &&& forall|i: int| 0 <= i < gs.len() ==> cut_when_full(#[trigger] gs[i], target)
            &&& forall|i: int| 0 <= i < gs.len() - 1 ==> (#[trigger] gs[i]).len() * 100 >= target
            &&& forall|i: int| 0 <= i < gs.len() ==> (#[trigger] gs[i]).len() > 0
        }),
{
    lemma_groups_hold_all(front, tail, target);
    lemma_grouped_full(front + tail, target);
    let gs = file_groups(front, tail, target);
    let (done, cur) = grouped(front + tail, target);
    assert forall|i: int| 0 <= i < gs.len() implies (#[trigger] gs[i]).len() > 0 by {}
    assert forall|i: int| 0 <= i < gs.len() - 1 implies (#[trigger] gs[i]).len() * 100 >= target by {
        assert(gs[i] == done[i]);
    }
    assert forall|i: int| 0 <= i < gs.len() implies cut_when_full(#[trigger] gs[i], target) by {
        if i < done.len() {
            assert(gs[i] == done[i]);
        }
    }
}

proof fn lemma_grouped_full(es: Seq<RawEntry>, target: nat)
    ensures
        ({
            let (done, cur) = grouped(es, target);
            &&& cut_when_full(cur, target)
            &&& forall|i: int| 0 <= i < done.len() ==> cut_when_full(#[trigger] done[i], target)
            &&& forall|i: int| 0 <= i < done.len() ==> (#[trigger] done[i]).len() * 100 >= target
        }),
    decreases es.len(),
{
    if es.len() > 0 {
        lemma_grouped_full(es.drop_last(), target);
        let (done, cur) = grouped(es.drop_last(), target);
        let e = es.last();
        let next = cur.push(e);
        if !(cur.len() > 0 && cur.len() * 100 >= target && user_of(cur.last().0) != user_of(e.0)) {
            assert forall|k: int| 0 < k < next.len() && k * 100 >= target implies user_of(
                next[k - 1].0,
            ) == user_of((#[trigger] next[k]).0) by {
                assert(next[k - 1] == cur[k - 1]);
                if k < cur.len() {
                    assert(next[k] == cur[k]);
                }
            }
        } else {
            let now = done.push(cur);
            assert forall|i: int| 0 <= i < now.len() implies cut_when_full(
                #[trigger] now[i],
                target,
            ) && now[i].len() * 100 >= target by {
                if i < done.len() {
                    assert(now[i] == done[i]);
                }
            }
        }
    }
}

/// What merging leaves. With a watermark: every version above it, every delete, and of each user
/// key the newest at or below it. Without one: of each user key the newest. Nothing else, and
/// nothing that was not there.
pub proof fn law_merged_holds(
    srcs: Seq<Seq<RawEntry>>,
    watermark: Option<u64>,
    config: CompactionConfig,
    x: RawEntry,
)
    requires
        sound_sources(srcs),
    ensures
        merged_files(srcs, watermark, config) is Ok,
        all_of(merged_files(srcs, watermark, config)->Ok_0).contains(x) <==> held_by_some(srcs, x)
            && match watermark {
            Some(w) => seq_of(x.0) > w || is_tombstone(x.1) || newest_of_all(srcs, w, x),
            None => newest_of_all(srcs, u64::MAX, x),
        },
{
    law_merge_succeeds(srcs, watermark, config);
    lemma_merged_canonical(srcs);
    law_merge_sorted(srcs);
    let all = joined(srcs);
    let w = match watermark {
        Some(w) => w,
        None => u64::MAX,
    };
    match watermark {
        Some(w) => {
            law_gc_keeps(all, w, x);
        },
        None => {
            law_newest_keeps(all, x);
        },
    }
    if newest_of_all(srcs, w, x) {
        assert forall|i: int|
            0 <= i < all.len() && visible(#[trigger] all[i], user_of(x.0), w) implies seq_of(
            all[i].0,
        ) <= seq_of(x.0) by {
            assert(all.contains(all[i]));
            assert(held_by_some(srcs, all[i]));
        }
        assert(newest_below(all, w, x));
    }
    if newest_below(all, w, x) {
        assert forall|y: RawEntry| #[trigger]
            held_by_some(srcs, y) && user_of(y.0) == user_of(x.0) && seq_of(y.0) <= w implies seq_of(
            y.0,
        ) <= seq_of(x.0) by {
            assert(all.contains(y));
            let i = choose|i: int| 0 <= i < all.len() && all[i] == y;
            assert(visible(all[i], user_of(x.0), w));
        }
    }
}

/// Tells whether no version of the same user key that the sources hold, up to a sequence number,
/// is newer.
pub open spec fn newest_of_all(srcs: Seq<Seq<RawEntry>>, w: u64, x: RawEntry) -> bool {
    forall|y: RawEntry| #[trigger]
        held_by_some(srcs, y) && user_of(y.0) == user_of(x.0) && seq_of(y.0) <= w ==> seq_of(y.0)
            <= seq_of(x.0)
}

/// What a compaction says of itself: it removed the files that it was to merge, all of them and no
/// others; the new ones are numbered from the next file number on, one after another, and belong on
/// the level after the one it merged from. One that fails leaves the files as they were.
pub proof fn law_execution_told(
    config: CompactionConfig,
    task: TaskView,
    watermark: Option<u64>,
    live: Files,
    durable: Files,
    next: u64,
    live_after: Files,
    durable_after: Files,
    next_after: u64,
    r: Result<CompactionResult, Error>,
    num: u64,
)
    requires
        executed(
            config,
            task,
            watermark,
            live,
            durable,
            next,
            live_after,
            durable_after,
            next_after,
            r,
        ),
    ensures
        r matches Ok(done) ==> {
            let new_files = files_view(done.new_files@);
            &&& done.removed_files@.contains(num) <==> (exists|i: int|
                0 <= i < task.input_files.len() && (#[trigger] task.input_files[i]).file_num == num)
                || (exists|i: int|
                0 <= i < task.output_level_files.len() && (
                #[trigger] task.output_level_files[i]).file_num == num)
            &&& done.target_level == task.level + 1
            &&& next_after == next + new_files.len()
            &&& forall|i: int|
                0 <= i < new_files.len() ==> (#[trigger] new_files[i]).file_num == next + i
        },
        r is Err ==> live_after == live && durable_after == durable && next_after == next,
{
    if let Ok(done) = r {
        let a = nums_of(task.input_files);
        let b = nums_of(task.output_level_files);
        let all = task_nums(task);
        if all.contains(num) {
            let i = choose|i: int| 0 <= i < all.len() && all[i] == num;
            if i < a.len() {
                assert(task.input_files[i].file_num == num);
            } else {
                assert(task.output_level_files[i - a.len()].file_num == num);
            }
        }
        if exists|i: int|
            0 <= i < task.input_files.len() && (#[trigger] task.input_files[i]).file_num == num {
            let i = choose|i: int|
                0 <= i < task.input_files.len() && (#[trigger] task.input_files[i]).file_num == num;
            assert(all[i] == num);
        }
        if exists|i: int|
            0 <= i < task.output_level_files.len() && (
            #[trigger] task.output_level_files[i]).file_num == num {
            let i = choose|i: int|
                0 <= i < task.output_level_files.len() && (
                #[trigger] task.output_level_files[i]).file_num == num;
            assert(all[a.len() + i] == num);
        }
    }
}

} // verus!
