//! The storage engine.
//!
//! A write goes to the log and then to the memtable; a full memtable is set aside and later
//! flushed to a table file on level 0. A read looks in the memtable, in those set aside (newest
//! first), in the files of level 0 (newest first) and then, level by level, in the one file that
//! may hold the key.

use crate::block::RawEntry;
use crate::codec::{bytes_eq, bytes_le, bytes_lt, copy_bytes, lex_le, lex_lt};
use crate::compaction::{
    applied, apply_compaction, compaction_outcome, files_view, law_pick, lemma_picked_level,
    made_file, made_files, no_such_table, oversized, picked, plain_table, read_front, source_of,
    sources_of,
    table_front, task_nums, with_tables, write_file, CompactionConfig, CompactionExecutor,
    CompactionPicker, CompactionTask, FileMetadata, FileView, TaskView, Version,
};
use crate::disk::{all_done, ops_view, table_name, Disk, DiskOp, FileId, Files, Image};
use crate::error::{invalid_argument, Error, ErrorView};
use crate::group_commit::{
    appended, commit_refusal, counted, fresh_commits, idle, led, refused_commit, refusal_of, same_but_log, wrote_records,
    CommitView, GroupCommitConfig, GroupCommitStats, GroupCommitter,
};
use crate::manifest::{decode_manifest, encode_manifest, manifest_bytes, manifest_of_bytes};
use crate::memtable::{
    entries_list, entries_of, entries_sorted, entries_view, flatten, lemma_entries_of,
    lemma_newest_cases, lookup_at, newest_at, opt_view, size_after, written_after, Entries,
    InternalKey, LookupResult, Memtable, MemtableConfig, MemtableValue, ValueView, Versions,
};
use crate::merge::{user_key_of, user_of};
use crate::payload::{
    encode_batch_record, encode_txn_abort_record, encode_txn_begin_record, encode_txn_commit_record,
    encode_txn_write_record, encode_wal_record, payload_bytes, stamped, PayloadView, WriteView,
    WAL_BATCH_MAGIC,
};
use crate::recovery::{
    larger, last_of_version, lemma_took_effect_push, recovered, replay_log, took_effect, ReplayView,
};
use crate::scan::{
    decode_entries, decoded, goes_past, keep_range, pairs_view, range_ended, range_of, scan_sources,
    scanned, version_sources, BoundView, KeyBound,
};
use crate::sstable::{
    best_in_table, build_table, decode_value, key_bytes, law_front_is_all, law_versions_sorted,
    raw_entries, raw_entry, table_index, table_lookup, value_of_bytes, SSTableReader,
};
use crate::text::text_of;
use crate::wal::{
    append_refusal, lemma_log_segments, log_end, log_segments, WalConfig, WalReader, WalWriter,
};
use vstd::prelude::*;

verus! {

/// Settings of the engine.
#[derive(Debug, Clone, Copy)]
pub struct EngineConfig {
    /// Size in bytes at which a memtable is set aside.
    pub memtable_size: usize,
    /// Size of a segment of the log in bytes.
    pub wal_segment_size: u64,
    /// Settings of compaction.
    pub compaction: CompactionConfig,
}

impl Default for EngineConfig {
    fn default() -> (r: Self)
        ensures
            r.memtable_size == 4 * 1024 * 1024,
            r.wal_segment_size == 64 * 1024 * 1024,
            r.compaction.l0_compaction_trigger == 4,
            r.compaction.base_level_size == 64 * 1024 * 1024,
            r.compaction.size_ratio == 10,
            r.compaction.max_levels == 7,
            r.compaction.sstable_config.block_size == 4096,
            r.compaction.sstable_config.use_learned_indexes,
    {
        EngineConfig {
            memtable_size: 4_194_304,
            wal_segment_size: 67_108_864,
            compaction: CompactionConfig::default(),
        }
    }
}

/// The state of an engine.
pub struct EngineView {
    /// The bytes of each file.
    pub live: Files,
    /// The durable bytes of each file.
    pub durable: Files,
    /// The files as they were when the changes of files were taken last.
    pub taken: Image,
    /// The versions in the memtable.
    pub active: Versions,
    /// The size that the memtable counts.
    pub size: usize,
    /// The versions in the memtables set aside, oldest first.
    pub immutables: Seq<Versions>,
    /// The files of each level.
    pub version: Seq<Seq<FileView>>,
    /// The state of group commit.
    pub commit: CommitView,
    /// The segment of the log in use.
    pub wal_segment: u64,
    /// The next file number.
    pub next_file_num: u64,
    /// The next sequence number.
    pub sequence: u64,
    /// The largest commit timestamp.
    pub max_commit_ts: u64,
    /// The largest transaction number.
    pub max_txn_id: u64,
    /// The watermark for compaction.
    pub watermark: Option<u64>,
}

/// The storage engine.
pub struct LsmEngine {
    disk: Disk,
    config: EngineConfig,
    active: Memtable,
    immutables: Vec<Memtable>,
    version: Version,
    committer: GroupCommitter,
    next_file_num: u64,
    next_memtable_id: u64,
    sequence: u64,
    max_commit_ts: u64,
    max_txn_id: u64,
    watermark: Option<u64>,
}

/// The versions of memtables.
pub open spec fn tables_view(s: Seq<Memtable>) -> Seq<Versions> {
    s.map_values(|m: Memtable| m@)
}

/// Versions with writes added.
pub open spec fn with_writes(m: Versions, ws: Seq<WriteView>) -> Versions
    decreases ws.len(),
{
    if ws.len() == 0 {
        m
    } else {
        let w = ws.last();
        with_writes(m, ws.drop_last()).insert((w.0, w.2), w.1)
    }
}

/// The size counted after writes.
pub open spec fn size_with(size: usize, ws: Seq<WriteView>) -> usize
    decreases ws.len(),
{
    if ws.len() == 0 {
        size
    } else {
        let w = ws.last();
        size_after(size_with(size, ws.drop_last()), w.0.len(), w.1)
    }
}

/// The state after writes to the memtable, which is set aside where it is then full.
pub open spec fn stored(s: EngineView, ws: Seq<WriteView>, max_size: usize) -> EngineView {
    let m = with_writes(s.active, ws);
    let size = size_with(s.size, ws);
    if size >= max_size {
        EngineView { active: Map::empty(), size: 0, immutables: s.immutables.push(m), ..s }
    } else {
        EngineView { active: m, size, ..s }
    }
}

/// The state after the memtable is set aside.
pub open spec fn rotated(s: EngineView) -> EngineView {
    EngineView { active: Map::empty(), size: 0, immutables: s.immutables.push(s.active), ..s }
}

/// The sequence number once all up to `ts` are used.
pub open spec fn raised(sequence: u64, ts: u64) -> u64 {
    if ts >= sequence {
        (ts + 1) as u64
    } else {
        sequence
    }
}

/// What a table file holds of a user key at a sequence number; nothing where its value cannot be
/// decoded.
pub open spec fn file_lookup(live: Files, num: u64, key: Seq<u8>, seq: u64) -> Result<
    Option<ValueView>,
    ErrorView,
> {
    let id = FileId::Sst(num);
    if !live.contains_key(id) {
        Err(ErrorView::Io("no such file: "@ + table_name(num)))
    } else {
        match table_index(live[id]) {
            Err(e) => Err(e),
            Ok(index) => match table_lookup(live[id], index, key, seq) {
                Err(e) => Err(e),
                Ok(None) => Ok(None),
                Ok(Some(d)) => Ok(value_of_bytes(d)),
            },
        }
    }
}

/// What the first `n` memtables set aside hold of a user key, the newest first.
pub open spec fn immutables_lookup(ms: Seq<Versions>, n: nat, key: Seq<u8>, seq: u64) -> Option<
    ValueView,
>
    decreases n,
{
    if n == 0 {
        None
    } else {
        match lookup_at(ms[n - 1], key, seq) {
            Some(v) => Some(v),
            None => immutables_lookup(ms, (n - 1) as nat, key, seq),
        }
    }
}

/// What the memtables hold of a user key, the newest first.
pub open spec fn memory_lookup(s: EngineView, key: Seq<u8>, seq: u64) -> Option<ValueView> {
    match lookup_at(s.active, key, seq) {
        Some(v) => Some(v),
        None => immutables_lookup(s.immutables, s.immutables.len(), key, seq),
    }
}

/// What the first `n` files of level 0 hold of a user key, the newest first.
pub open spec fn level0_lookup(live: Files, files: Seq<FileView>, n: nat, key: Seq<u8>, seq: u64) -> Result<
    Option<ValueView>,
    ErrorView,
>
    decreases n,
{
    if n == 0 {
        Ok(None)
    } else {
        match file_lookup(live, files[n - 1].file_num, key, seq) {
            Err(e) => Err(e),
            Ok(Some(v)) => Ok(Some(v)),
            Ok(None) => level0_lookup(live, files, (n - 1) as nat, key, seq),
        }
    }
}

/// Tells whether a file ends before a user key.
pub open spec fn ends_before(f: FileView, key: Seq<u8>) -> bool {
    lex_lt(user_of(f.largest_key), key)
}

/// Where halving files from `lo` up to `hi` for the first that does not end before a user key
/// stops.
pub open spec fn halved(files: Seq<FileView>, key: Seq<u8>, lo: int, hi: int) -> int
    decreases hi - lo,
{
    if lo >= hi {
        lo
    } else {
        let mid = lo + (hi - lo) / 2;
        if ends_before(files[mid], key) {
            halved(files, key, mid + 1, hi)
        } else {
            halved(files, key, lo, mid)
        }
    }
}

/// The file of a level that may hold a user key, found by halving; the number of files where all
/// end before it.
pub open spec fn candidate(files: Seq<FileView>, key: Seq<u8>) -> nat {
    halved(files, key, 0, files.len() as int) as nat
}

/// Tells whether the files that end before a user key are all at the front.
pub open spec fn partitioned(files: Seq<FileView>, key: Seq<u8>) -> bool {
    forall|i: int, j: int|
        0 <= i < j < files.len() && ends_before(#[trigger] files[j], key) ==> ends_before(
            #[trigger] files[i],
            key,
        )
}

/// What the levels from `level` on hold of a user key: on each the one file that may hold it.
pub open spec fn levels_lookup(
    live: Files,
    v: Seq<Seq<FileView>>,
    level: nat,
    key: Seq<u8>,
    seq: u64,
) -> Result<Option<ValueView>, ErrorView>
    decreases v.len() - level,
{
    if level >= v.len() {
        Ok(None)
    } else {
        let files = v[level as int];
        let i = candidate(files, key);
        if i < files.len() && lex_le(user_of(files[i as int].smallest_key), key) {
            match file_lookup(live, files[i as int].file_num, key, seq) {
                Err(e) => Err(e),
                Ok(Some(x)) => Ok(Some(x)),
                Ok(None) => levels_lookup(live, v, level + 1, key, seq),
            }
        } else {
            levels_lookup(live, v, level + 1, key, seq)
        }
    }
}

/// What a read of a user key at a sequence number finds.
pub open spec fn read_state(s: EngineView, key: Seq<u8>, seq: u64) -> Result<
    Option<ValueView>,
    ErrorView,
> {
    match memory_lookup(s, key, seq) {
        Some(v) => Ok(Some(v)),
        None => match level0_lookup(s.live, s.version[0], s.version[0].len(), key, seq) {
            Err(e) => Err(e),
            Ok(Some(v)) => Ok(Some(v)),
            Ok(None) => levels_lookup(s.live, s.version, 1, key, seq),
        },
    }
}

/// What the manifest gives an engine when it opens: the files of each level, the next file number
/// and the sequence number. Without a manifest that can be read, the database starts empty.
pub open spec fn loaded(live: Files, max_levels: usize) -> (Seq<Seq<FileView>>, u64, u64) {
    let fresh = (Seq::new(max_levels as nat, |i: int| Seq::<FileView>::empty()), 1u64, 1u64);
    if live.contains_key(FileId::Manifest) {
        match manifest_of_bytes(live[FileId::Manifest]) {
            Ok(m) => m,
            Err(_) => fresh,
        }
    } else {
        fresh
    }
}

/// Tells whether there is no log.
pub open spec fn no_log(live: Files) -> bool {
    forall|n: u64| !#[trigger] live.contains_key(FileId::Wal(n))
}

/// The files once there is a log.
pub open spec fn with_log(live: Files) -> Files {
    if no_log(live) {
        live.insert(FileId::Wal(0), Seq::empty())
    } else {
        live
    }
}

/// Tells what an engine is when it has opened: its files and levels as the manifest says, and its
/// memtable as the log says.
pub open spec fn opened(s: EngineView, live: Files, durable: Files, max_levels: usize, p: ReplayView) -> bool {
    let (v, file_num, seq) = loaded(live, max_levels);
    &&& s.live == with_log(live)
    &&& s.durable == (if no_log(live) {
        durable.insert(FileId::Wal(0), Seq::<u8>::empty())
    } else {
        durable
    })
    &&& s.active == p.versions
    &&& s.size == p.size
    &&& s.immutables == Seq::<Versions>::empty()
    &&& s.version == v
    &&& s.next_file_num == file_num
    &&& s.sequence == (if p.max_seq > 0 {
        (p.max_seq + 1) as u64
    } else {
        seq
    })
    &&& s.max_commit_ts == p.max_commit_ts
    &&& s.max_txn_id == p.max_txn_id
    &&& s.watermark is None
    &&& s.commit == fresh_commits()
    &&& log_end(s.live, s.wal_segment, s.live[FileId::Wal(s.wal_segment)].len())
}

proof fn lemma_halved(files: Seq<FileView>, key: Seq<u8>, lo: int, hi: int)
    requires
        partitioned(files, key),
        0 <= lo <= hi <= files.len(),
        forall|i: int| 0 <= i < lo ==> ends_before(#[trigger] files[i], key),
        forall|i: int| hi <= i < files.len() ==> !ends_before(#[trigger] files[i], key),
    ensures
        0 <= halved(files, key, lo, hi) <= files.len(),
        forall|i: int|
            0 <= i < halved(files, key, lo, hi) ==> ends_before(#[trigger] files[i], key),
        forall|i: int|
            halved(files, key, lo, hi) <= i < files.len() ==> !ends_before(
                #[trigger] files[i],
                key,
            ),
    decreases hi - lo,
{
    if lo < hi {
        let mid = lo + (hi - lo) / 2;
        if ends_before(files[mid], key) {
            lemma_halved(files, key, mid + 1, hi);
        } else {
            assert forall|i: int| mid <= i < files.len() implies !ends_before(
                #[trigger] files[i],
                key,
            ) by {
                if i > mid && ends_before(files[i], key) {
                    assert(ends_before(files[mid], key));
                }
            }
            lemma_halved(files, key, lo, mid);
        }
    }
}

/// Where the files that end before a user key are all at the front, the file found by halving is
/// the first of the others.
pub proof fn law_candidate_is_first(files: Seq<FileView>, key: Seq<u8>)
    requires
        partitioned(files, key),
    ensures
        candidate(files, key) <= files.len(),
        forall|i: int| 0 <= i < candidate(files, key) ==> ends_before(#[trigger] files[i], key),
        forall|i: int|
            candidate(files, key) <= i < files.len() ==> !ends_before(#[trigger] files[i], key),
{
    lemma_halved(files, key, 0, files.len() as int);
}

/// Finds by halving the file of a level that may hold a user key.
fn find_candidate(files: &Vec<FileMetadata>, key: &[u8]) -> (r: usize)
    ensures
        r <= files@.len(),
        r == candidate(files_view(files@), key@),
{
    let ghost fs = files_view(files@);
    let mut lo: usize = 0;
    let mut hi: usize = files.len();
    while lo < hi
        invariant
            lo <= hi <= files@.len(),
            fs == files_view(files@),
            halved(fs, key@, 0, fs.len() as int) == halved(fs, key@, lo as int, hi as int),
        decreases hi - lo,
    {
        let mid = lo + (hi - lo) / 2;
        assert(fs[mid as int] == files@[mid as int]@);
        if bytes_lt(&user_key_of(&files[mid].largest_key), key) {
            lo = mid + 1;
        } else {
            hi = mid;
        }
    }
    lo
}

fn value_of(v: MemtableValue) -> (r: Option<Vec<u8>>)
    ensures
        opt_view(r) == v@,
{
    match v {
        MemtableValue::Put(x) => Some(x),
        MemtableValue::Delete => None,
    }
}

impl LsmEngine {
    /// The state of the engine.
    pub closed spec fn state(&self) -> EngineView {
        EngineView {
            live: self.disk.live(),
            durable: self.disk.durable(),
            taken: self.disk.taken(),
            active: self.active@,
            size: self.active.spec_size(),
            immutables: tables_view(self.immutables@),
            version: self.version@,
            commit: self.committer.state(),
            wal_segment: self.committer.wal_segment(),
            next_file_num: self.next_file_num,
            sequence: self.sequence,
            max_commit_ts: self.max_commit_ts,
            max_txn_id: self.max_txn_id,
            watermark: self.watermark,
        }
    }

    /// The settings.
    pub closed spec fn spec_config(&self) -> EngineConfig {
        self.config
    }

    /// Tells whether the parts of the engine fit each other.
    pub closed spec fn wf(&self) -> bool {
        &&& self.disk.wf()
        &&& self.committer.wf(self.disk.live())
        &&& idle(self.committer.state())
        &&& self.committer.wal_config().segment_size == self.config.wal_segment_size
        &&& !self.committer.wal_config().sync_on_write
        &&& self.active.spec_max_size() == self.config.memtable_size
        &&& self.version@.len() > 0
    }

    /// Opens the database in a directory, or makes one. The table files are those of the manifest;
    /// the log is replayed from its first record into the memtable.
    pub fn open(disk: Disk, config: EngineConfig) -> (r: Result<LsmEngine, Error>)
        requires
            disk.wf(),
        ensures
            ({
                let v = loaded(disk.live(), config.compaction.max_levels).0;
                let log = recovered(log_segments(with_log(disk.live())));
                match r {
                    Ok(e) => {
                        &&& e.wf()
                        &&& e.spec_config() == config
                        &&& e.state().taken == disk.taken()
                        &&& v.len() > 0
                        &&& log is Ok
                        &&& opened(
                            e.state(),
                            disk.live(),
                            disk.durable(),
                            config.compaction.max_levels,
                            log->Ok_0,
                        )
                    },
                    Err(e) => if v.len() == 0 {
                        e@ == ErrorView::InvalidArgument("a database needs a level"@)
                    } else {
                        log is Err && e@ == log->Err_0
                    },
                }
            }),
    {
        let ghost live0 = disk.live();
        let ghost durable0 = disk.durable();
        let mut disk = disk;
        let loaded_manifest = LsmEngine::load_manifest(&disk);
        let (version, next_file_num, sequence) = match loaded_manifest {
            Some(m) => m,
            None => (Version::new(config.compaction.max_levels), 1, 1),
        };
        assert((version@, next_file_num, sequence) == loaded(
            live0,
            config.compaction.max_levels,
        ));
        if version.levels.len() == 0 {
            return Err(invalid_argument("a database needs a level"));
        }
        let wal = WalWriter::new(
            &mut disk,
            WalConfig { segment_size: config.wal_segment_size, sync_on_write: false },
        );
        proof {
            if !no_log(live0) {
                let n = choose|n: u64| #[trigger] live0.contains_key(FileId::Wal(n));
                assert(live0.contains_key(FileId::Wal(n)));
            }
        }
        let committer = GroupCommitter::new(wal, GroupCommitConfig::default());
        let memtable = Memtable::new(0, MemtableConfig { max_size: config.memtable_size });
        let reader = WalReader::new_from_start(&disk);
        proof {
            lemma_log_segments(disk.live(), reader.numbers(), reader.segments());
        }
        let replayer = match replay_log(reader, memtable) {
            Ok(p) => p,
            Err(e) => {
                return Err(e);
            },
        };
        let ghost p = replayer.state();
        proof {
            lemma_recovered_below(log_segments(disk.live()));
        }
        let (active, max_seq, max_txn_id, max_commit_ts) = replayer.finish();
        let engine = LsmEngine {
            disk,
            config,
            active,
            immutables: Vec::new(),
            version,
            committer,
            next_file_num,
            next_memtable_id: 1,
            sequence: if max_seq > 0 {
                max_seq + 1
            } else {
                sequence
            },
            max_commit_ts,
            max_txn_id,
            watermark: None,
        };
        assert(engine.state().immutables =~= Seq::<Versions>::empty());
        assert(engine.state().commit.pending =~= Seq::<Seq<u8>>::empty());
        Ok(engine)
    }

    fn load_manifest(disk: &Disk) -> (r: Option<(Version, u64, u64)>)
        requires
            disk.wf(),
        ensures
            ({
                let live = disk.live();
                let have = live.contains_key(FileId::Manifest);
                let m = manifest_of_bytes(live[FileId::Manifest]);
                match r {
                    Some((v, file_num, seq)) => have && m == Ok::<
                        (Seq<Seq<FileView>>, u64, u64),
                        ErrorView,
                    >((v@, file_num, seq)),
                    None => !have || m is Err,
                }
            }),
    {
        match disk.read(FileId::Manifest) {
            Some(data) => match decode_manifest(data) {
                Ok(m) => Some(m),
                Err(_) => None,
            },
            None => None,
        }
    }

    /// Gives the files back.
    pub fn into_disk(self) -> (r: Disk)
        requires
            self.wf(),
        ensures
            r.wf(),
            r.live() == self.state().live,
            r.durable() == self.state().durable,
            r.taken() == self.state().taken,
    {
        self.disk
    }

    /// Gives the value of a key.
    pub fn get(&self, key: &[u8]) -> (r: Result<Option<Vec<u8>>, Error>)
        requires
            self.wf(),
        ensures
            ({
                let want = read_state(self.state(), key@, self.state().sequence);
                match r {
                    Ok(v) => want is Ok && opt_view(v) == flatten(want->Ok_0),
                    Err(e) => want is Err && want->Err_0 == e@,
                }
            }),
    {
        self.get_at(key, self.sequence)
    }

    /// Gives the value of a key at a sequence number.
    pub fn get_at(&self, key: &[u8], seq: u64) -> (r: Result<Option<Vec<u8>>, Error>)
        requires
            self.wf(),
        ensures
            ({
                let want = read_state(self.state(), key@, seq);
                match r {
                    Ok(v) => want is Ok && opt_view(v) == flatten(want->Ok_0),
                    Err(e) => want is Err && want->Err_0 == e@,
                }
            }),
    {
        let ghost s = self.state();
        match self.active.lookup(key, seq) {
            LookupResult::Found(v) => {
                return Ok(Some(v));
            },
            LookupResult::Deleted => {
                return Ok(None);
            },
            LookupResult::NotFound => {},
        }
        let mut i: usize = self.immutables.len();
        while i > 0
            invariant
                i <= self.immutables@.len(),
                s == self.state(),
                memory_lookup(s, key@, seq) == immutables_lookup(
                    s.immutables,
                    i as nat,
                    key@,
                    seq,
                ),
            decreases i,
        {
            assert(s.immutables[i - 1] == self.immutables@[i - 1]@);
            match self.immutables[i - 1].lookup(key, seq) {
                LookupResult::Found(v) => {
                    return Ok(Some(v));
                },
                LookupResult::Deleted => {
                    return Ok(None);
                },
                LookupResult::NotFound => {},
            }
            i -= 1;
        }
        match self.search_level0(key, seq) {
            Ok(Some(v)) => {
                return Ok(v);
            },
            Ok(None) => {},
            Err(e) => {
                return Err(e);
            },
        }
        match self.search_levels(key, seq) {
            Ok(Some(v)) => Ok(v),
            Ok(None) => Ok(None),
            Err(e) => Err(e),
        }
    }

    fn search_level0(&self, key: &[u8], seq: u64) -> (r: Result<Option<Option<Vec<u8>>>, Error>)
        requires
            self.wf(),
        ensures
            ({
                let s = self.state();
                let want = level0_lookup(s.live, s.version[0], s.version[0].len(), key@, seq);
                match r {
                    Ok(v) => want is Ok && found_view(v) == want->Ok_0,
                    Err(e) => want is Err && want->Err_0 == e@,
                }
            }),
    {
        let ghost s = self.state();
        let files = &self.version.levels[0];
        let ghost fs = files_view(files@);
        assert(s.version[0] == fs);
        let mut i: usize = files.len();
        while i > 0
            invariant
                i <= files@.len(),
                self.wf(),
                s == self.state(),
                fs == files_view(files@),
                level0_lookup(s.live, fs, fs.len(), key@, seq) == level0_lookup(
                    s.live,
                    fs,
                    i as nat,
                    key@,
                    seq,
                ),
                s.version[0] == fs,
            decreases i,
        {
            assert(fs[i - 1] == files@[i - 1]@);
            match search_sstable(&self.disk, files[i - 1].file_num, key, seq) {
                Ok(Some(v)) => {
                    return Ok(Some(v));
                },
                Ok(None) => {},
                Err(e) => {
                    return Err(e);
                },
            }
            i -= 1;
        }
        Ok(None)
    }

    fn search_levels(&self, key: &[u8], seq: u64) -> (r: Result<Option<Option<Vec<u8>>>, Error>)
        requires
            self.wf(),
        ensures
            ({
                let s = self.state();
                let want = levels_lookup(s.live, s.version, 1, key@, seq);
                match r {
                    Ok(v) => want is Ok && found_view(v) == want->Ok_0,
                    Err(e) => want is Err && want->Err_0 == e@,
                }
            }),
    {
        let ghost s = self.state();
        let mut level: usize = 1;
        while level < self.version.levels.len()
            invariant
                1 <= level <= self.version.levels@.len(),
                self.wf(),
                s == self.state(),
                levels_lookup(s.live, s.version, 1, key@, seq) == levels_lookup(
                    s.live,
                    s.version,
                    level as nat,
                    key@,
                    seq,
                ),
            decreases self.version.levels@.len() - level,
        {
            let files = &self.version.levels[level];
            let ghost fs = files_view(files@);
            assert(s.version[level as int] == fs);
            let idx = find_candidate(files, key);
            if idx < files.len() {
                assert(fs[idx as int] == files@[idx as int]@);
                if bytes_le(&user_key_of(&files[idx].smallest_key), key) {
                    match search_sstable(&self.disk, files[idx].file_num, key, seq) {
                        Ok(Some(v)) => {
                            return Ok(Some(v));
                        },
                        Ok(None) => {},
                        Err(e) => {
                            return Err(e);
                        },
                    }
                }
            }
            level += 1;
        }
        Ok(None)
    }
}

/// The view of what a search found.
pub open spec fn found_view(v: Option<Option<Vec<u8>>>) -> Option<ValueView> {
    match v {
        Some(x) => Some(opt_view(x)),
        None => None,
    }
}

/// Looks a user key up in a table file.
fn search_sstable(disk: &Disk, num: u64, key: &[u8], seq: u64) -> (r: Result<
    Option<Option<Vec<u8>>>,
    Error,
>)
    requires
        disk.wf(),
    ensures
        ({
            let want = file_lookup(disk.live(), num, key@, seq);
            match r {
                Ok(v) => want is Ok && found_view(v) == want->Ok_0,
                Err(e) => want is Err && want->Err_0 == e@,
            }
        }),
{
    let data = match disk.read(FileId::Sst(num)) {
        Some(data) => data,
        None => {
            return Err(no_such_table(num));
        },
    };
    let reader = match SSTableReader::open(data) {
        Ok(reader) => reader,
        Err(e) => {
            return Err(e);
        },
    };
    match reader.get_mvcc(key, seq) {
        Ok(Some(d)) => match decode_value(&d) {
            Some(v) => Ok(Some(value_of(v))),
            None => Ok(None),
        },
        Ok(None) => Ok(None),
        Err(e) => Err(e),
    }
}

/// No version of a recovered log has the largest number.
proof fn lemma_recovered_below(segs: Seq<Seq<u8>>)
    ensures
        recovered(segs) matches Ok(p) ==> p.max_seq < u64::MAX,
{
    let (records, fault) = crate::wal::log_records(segs);
    if recovered(segs) is Ok {
        crate::recovery::lemma_max_below(records);
    }
}

/// Tells whether a state differs from another in nothing but the log and its place.
pub open spec fn only_log_changed(a: EngineView, b: EngineView) -> bool {
    &&& b == (EngineView {
        live: b.live,
        durable: b.durable,
        commit: b.commit,
        wal_segment: b.wal_segment,
        ..a
    })
    &&& same_but_log(a.live, b.live)
    &&& same_but_log(a.durable, b.durable)
}

/// Tells whether the log ends with the segment in use, and a crash takes no file away.
pub open spec fn log_placed(s: EngineView) -> bool {
    &&& log_end(s.live, s.wal_segment, s.live[FileId::Wal(s.wal_segment)].len())
    &&& s.live.dom() == s.durable.dom()
}

/// What committing a record does to an engine: the log has the record more, and it is durable.
pub open spec fn committed_record(a: EngineView, b: EngineView, size: u64, record: Seq<u8>) -> bool {
    &&& only_log_changed(a, b)
    &&& log_placed(b)
    &&& led(
        a.live,
        a.durable,
        a.wal_segment,
        size,
        seq![record],
        b.live,
        b.durable,
        b.wal_segment,
        None,
    )
    &&& b.commit == (CommitView {
        next_seq: (a.commit.next_seq + 1) as u64,
        durable_seq: a.commit.next_seq,
        stats: GroupCommitStats {
            total_commits: counted(a.commit.stats.total_commits),
            total_fsyncs: counted(a.commit.stats.total_fsyncs),
        },
        ..a.commit
    })
}

/// What appending a record does to an engine: the log has the record more, and it is not durable
/// yet.
pub open spec fn appended_record(a: EngineView, b: EngineView, size: u64, record: Seq<u8>) -> bool {
    &&& only_log_changed(a, b)
    &&& log_placed(b)
    &&& wrote_records(
        a.live,
        a.durable,
        a.wal_segment,
        size,
        seq![record],
        b.live,
        b.durable,
        b.wal_segment,
        None,
    )
    &&& b.commit == a.commit
}

/// The state after the log refused a record: a commit number may be used up.
pub open spec fn refused_state(s: EngineView, record: Seq<u8>) -> EngineView {
    EngineView { commit: refused_commit(s.commit, record), ..s }
}

/// Why a write is refused, if it is.
pub open spec fn write_refusal(s: EngineView, wal: WalConfig, record: Seq<u8>) -> Option<ErrorView> {
    if s.sequence >= WAL_BATCH_MAGIC {
        Some(ErrorView::Io("no sequence numbers are left"@))
    } else {
        commit_refusal(s.commit, wal, s.wal_segment, record.len())
    }
}

/// The log settings of an engine.
pub open spec fn wal_config_of(config: EngineConfig) -> WalConfig {
    WalConfig { segment_size: config.wal_segment_size, sync_on_write: false }
}

/// Why a write under a commit timestamp is refused, if it is.
pub open spec fn stamp_refusal(ts: u64) -> Option<ErrorView> {
    if ts >= WAL_BATCH_MAGIC {
        Some(ErrorView::InvalidArgument("commit timestamp out of range"@))
    } else {
        None
    }
}

impl LsmEngine {
    /// Puts a key.
    pub fn put(&mut self, key: &[u8], value: &[u8]) -> (r: Result<(), Error>)
        requires
            old(self).wf(),
        ensures
            final(self).wf(),
            final(self).spec_config() == old(self).spec_config(),
            written(
                old(self).state(),
                final(self).state(),
                old(self).spec_config(),
                key@,
                Some(value@),
                r,
            ),
    {
        self.write(key, Some(value))
    }

    /// Deletes a key.
    pub fn delete(&mut self, key: &[u8]) -> (r: Result<(), Error>)
        requires
            old(self).wf(),
        ensures
            final(self).wf(),
            final(self).spec_config() == old(self).spec_config(),
            written(
                old(self).state(),
                final(self).state(),
                old(self).spec_config(),
                key@,
                None,
                r,
            ),
    {
        self.write(key, None)
    }

    fn write(&mut self, key: &[u8], value: Option<&[u8]>) -> (r: Result<(), Error>)
        requires
            old(self).wf(),
        ensures
            final(self).wf(),
            final(self).spec_config() == old(self).spec_config(),
            written(
                old(self).state(),
                final(self).state(),
                old(self).spec_config(),
                key@,
                match value {
                    Some(v) => Some(v@),
                    None => None,
                },
                r,
            ),
    {
        let ghost s = self.state();
        let ghost v = match value {
            Some(v) => Some(v@),
            None => None,
        };
        if self.sequence >= WAL_BATCH_MAGIC {
            return Err(Error::Io(text_of("no sequence numbers are left")));
        }
        let seq = self.sequence;
        self.sequence = seq + 1;
        let record = encode_wal_record(key, value, seq);
        let ghost w: WriteView = (key@, v, seq);
        match self.committer.commit_batch(&mut self.disk, &record) {
            Ok(_) => {},
            Err(e) => {
                proof {
                    assert(self.state() == (EngineView {
                        commit: self.state().commit,
                        sequence: (s.sequence + 1) as u64,
                        ..s
                    }));
                }
                return Err(e);
            },
        }
        let ghost mid = self.state();
        proof {
            lemma_led_same_but_log(
                s.live,
                s.durable,
                s.wal_segment,
                self.config.wal_segment_size,
                seq![record@],
                mid.live,
                mid.durable,
                mid.wal_segment,
            );
            self.disk.lemma_domains();
            assert(committed_record(
                (EngineView { sequence: (s.sequence + 1) as u64, ..s }),
                mid,
                self.config.wal_segment_size,
                payload_bytes(PayloadView::Kv(w)),
            ));
        }
        let copied = match value {
            Some(v) => Some(copy_bytes(v)),
            None => None,
        };
        self.store(copy_bytes(key), copied, seq);
        self.rotate_if_full();
        proof {
            let ws = seq![w];
            assert(ws.drop_last() =~= Seq::<WriteView>::empty());
            assert(with_writes(mid.active, ws) =~= mid.active.insert((key@, seq), v)) by {
                reveal_with_fuel(with_writes, 2);
            }
            assert(size_with(mid.size, ws) == size_after(mid.size, key@.len(), v)) by {
                reveal_with_fuel(size_with, 2);
            }
        }
        Ok(())
    }

    /// Writes a version to the memtable.
    fn store(&mut self, key: Vec<u8>, value: Option<Vec<u8>>, seq: u64)
        requires
            old(self).wf(),
            seq < u64::MAX,
        ensures
            final(self).wf(),
            final(self).spec_config() == old(self).spec_config(),
            final(self).state() == (EngineView {
                active: old(self).state().active.insert((key@, seq), opt_view(value)),
                size: size_after(old(self).state().size, key@.len(), opt_view(value)),
                ..old(self).state()
            }),
    {
        match value {
            Some(v) => self.active.put_with_seq(key, v, seq),
            None => self.active.delete_with_seq(key, seq),
        }
    }

    fn rotate_if_full(&mut self)
        requires
            old(self).wf(),
        ensures
            final(self).wf(),
            final(self).spec_config() == old(self).spec_config(),
            final(self).state() == (if old(self).state().size >= old(
                self,
            ).spec_config().memtable_size {
                rotated(old(self).state())
            } else {
                old(self).state()
            }),
    {
        if self.active.should_flush() {
            self.rotate_memtable();
        }
    }

    /// Sets the memtable aside and starts a new one.
    fn rotate_memtable(&mut self)
        requires
            old(self).wf(),
        ensures
            final(self).wf(),
            final(self).spec_config() == old(self).spec_config(),
            final(self).state() == rotated(old(self).state()),
    {
        let id = self.next_memtable_id;
        self.next_memtable_id = if id < u64::MAX {
            id + 1
        } else {
            0
        };
        let ghost imms = tables_view(self.immutables@);
        let ghost m = self.active@;
        let mut fresh = Memtable::new(id, MemtableConfig { max_size: self.config.memtable_size });
        std::mem::swap(&mut fresh, &mut self.active);
        self.immutables.push(fresh);
        assert(tables_view(self.immutables@) =~= imms.push(m));
    }

    /// Deletes a key under a commit timestamp. The log is not synced.
    pub fn delete_versioned(&mut self, key: &[u8], commit_ts: u64) -> (r: Result<(), Error>)
        requires
            old(self).wf(),
        ensures
            final(self).wf(),
            final(self).spec_config() == old(self).spec_config(),
            versioned(
                old(self).state(),
                final(self).state(),
                old(self).spec_config(),
                (key@, None, commit_ts),
                r,
            ),
    {
        match self.write_versioned(key, None, commit_ts) {
            Ok(_) => Ok(()),
            Err(e) => Err(e),
        }
    }

    /// Appends a version to the log, without a sync, and writes it to the memtable.
    fn write_versioned(&mut self, key: &[u8], value: Option<&[u8]>, commit_ts: u64) -> (r: Result<
        (),
        Error,
    >)
        requires
            old(self).wf(),
        ensures
            final(self).wf(),
            final(self).spec_config() == old(self).spec_config(),
            versioned(
                old(self).state(),
                final(self).state(),
                old(self).spec_config(),
                (
                    key@,
                    match value {
                        Some(v) => Some(v@),
                        None => None,
                    },
                    commit_ts,
                ),
                r,
            ),
    {
        let ghost s = self.state();
        let ghost v = match value {
            Some(v) => Some(v@),
            None => None,
        };
        let ghost w: WriteView = (key@, v, commit_ts);
        if commit_ts >= WAL_BATCH_MAGIC {
            return Err(invalid_argument("commit timestamp out of range"));
        }
        let record = encode_wal_record(key, value, commit_ts);
        assert(record@ == payload_bytes(PayloadView::Kv(w)));
        match self.append_record(record) {
            Ok(_) => {},
            Err(e) => {
                return Err(e);
            },
        }
        let ghost mid = self.state();
        let copied = match value {
            Some(v) => Some(copy_bytes(v)),
            None => None,
        };
        self.store(copy_bytes(key), copied, commit_ts);
        self.rotate_if_full();
        proof {
            lemma_stored_one(mid, w, self.config.memtable_size);
            assert(self.state() == stored(mid, seq![w], self.config.memtable_size));
            assert(appended_record(
                s,
                mid,
                self.config.wal_segment_size,
                payload_bytes(PayloadView::Kv(w)),
            ));
        }
        Ok(())
    }

    /// Appends a record to the log, without a sync.
    fn append_record(&mut self, record: Vec<u8>) -> (r: Result<(), Error>)
        requires
            old(self).wf(),
        ensures
            final(self).wf(),
            final(self).spec_config() == old(self).spec_config(),
            ({
                let s = old(self).state();
                let size = old(self).spec_config().wal_segment_size;
                let refusal = append_refusal(size, s.wal_segment, record@.len());
                match r {
                    Ok(_) => {
                        &&& refusal is None
                        &&& appended_record(s, final(self).state(), size, record@)
                    },
                    Err(e) => {
                        &&& refusal == Some(e@)
                        &&& final(self).state() == s
                    },
                }
            }),
    {
        let ghost s = self.state();
        let ghost size = self.config.wal_segment_size;
        let ghost rs = seq![record@];
        match self.committer.append_raw(&mut self.disk, record) {
            Ok(_) => {
                proof {
                    lemma_can_append_one(s.live, size, s.wal_segment, rs);
                    self.disk.lemma_domains();
                }
                Ok(())
            },
            Err(e) => {
                proof {
                    lemma_can_append_one(s.live, size, s.wal_segment, rs);
                }
                Err(e)
            },
        }
    }

    /// Puts a key under a commit timestamp. The log is not synced.
    pub fn put_versioned(&mut self, key: &[u8], value: &[u8], commit_ts: u64) -> (r: Result<
        (),
        Error,
    >)
        requires
            old(self).wf(),
        ensures
            final(self).wf(),
            final(self).spec_config() == old(self).spec_config(),
            put_at(
                old(self).state(),
                final(self).state(),
                old(self).spec_config(),
                key@,
                value@,
                commit_ts,
                r,
            ),
    {
        match self.write_versioned(key, Some(value), commit_ts) {
            Ok(_) => {},
            Err(e) => {
                return Err(e);
            },
        }
        self.raise_stamps(commit_ts);
        Ok(())
    }

    fn raise_stamps(&mut self, commit_ts: u64)
        requires
            old(self).wf(),
            commit_ts < u64::MAX,
        ensures
            final(self).wf(),
            final(self).spec_config() == old(self).spec_config(),
            final(self).state() == stamped_state(old(self).state(), commit_ts),
    {
        if commit_ts > self.max_commit_ts {
            self.max_commit_ts = commit_ts;
        }
        if commit_ts >= self.sequence {
            self.sequence = commit_ts + 1;
        }
    }

    /// Writes several keys under one commit timestamp, all in one record. When it returns, the
    /// record is durable.
    pub fn put_versioned_batch(
        &mut self,
        commit_ts: u64,
        writes: Vec<(Vec<u8>, Option<Vec<u8>>)>,
    ) -> (r: Result<(), Error>)
        requires
            old(self).wf(),
        ensures
            final(self).wf(),
            final(self).spec_config() == old(self).spec_config(),
            batch_written(
                old(self).state(),
                final(self).state(),
                old(self).spec_config(),
                writes@,
                commit_ts,
                r,
            ),
    {
        if writes.len() == 0 {
            return Ok(());
        }
        if commit_ts >= WAL_BATCH_MAGIC {
            return Err(invalid_argument("commit timestamp out of range"));
        }
        let ghost s = self.state();
        let ghost ws = stamped(writes@, commit_ts);
        let ghost max_size = self.config.memtable_size;
        let record = encode_batch_record(&writes, commit_ts);
        match self.committer.commit_batch(&mut self.disk, &record) {
            Ok(_) => {},
            Err(e) => {
                return Err(e);
            },
        }
        let ghost mid = self.state();
        proof {
            lemma_led_same_but_log(
                s.live,
                s.durable,
                s.wal_segment,
                self.config.wal_segment_size,
                seq![record@],
                mid.live,
                mid.durable,
                mid.wal_segment,
            );
            self.disk.lemma_domains();
            assert(committed_record(
                s,
                mid,
                self.config.wal_segment_size,
                payload_bytes(PayloadView::Batch(ws)),
            ));
        }
        let mut i: usize = 0;
        assert(ws.take(0) =~= Seq::<WriteView>::empty());
        while i < writes.len()
            invariant
                i <= writes@.len(),
                self.wf(),
                commit_ts < WAL_BATCH_MAGIC,
                self.spec_config() == old(self).spec_config(),
                ws == stamped(writes@, commit_ts),
                self.state() == (EngineView {
                    active: with_writes(mid.active, ws.take(i as int)),
                    size: size_with(mid.size, ws.take(i as int)),
                    ..mid
                }),
            decreases writes@.len() - i,
        {
            let (key, value) = &writes[i];
            proof {
                assert(ws[i as int] == (key@, opt_view(*value), commit_ts));
                assert(ws.take(i + 1).drop_last() =~= ws.take(i as int));
            }
            let copied = match value {
                Some(v) => Some(copy_bytes(v)),
                None => None,
            };
            self.store(copy_bytes(key), copied, commit_ts);
            i += 1;
        }
        assert(ws.take(i as int) =~= ws);
        self.rotate_if_full();
        assert(self.state() == stored(mid, ws, max_size));
        self.raise_stamps(commit_ts);
        Ok(())
    }

    /// Appends the begin of a transaction to the log.
    pub fn wal_append_txn_begin(&mut self, txn_id: u64) -> (r: Result<(), Error>)
        requires
            old(self).wf(),
        ensures
            final(self).wf(),
            final(self).spec_config() == old(self).spec_config(),
            logged(
                old(self).state(),
                final(self).state(),
                old(self).spec_config().wal_segment_size,
                PayloadView::TxnBegin(txn_id),
                r,
            ),
    {
        self.append_record(encode_txn_begin_record(txn_id))
    }

    /// Appends a write of a transaction to the log.
    pub fn wal_append_txn_write(&mut self, txn_id: u64, key: &[u8], value: &[u8]) -> (r: Result<
        (),
        Error,
    >)
        requires
            old(self).wf(),
        ensures
            final(self).wf(),
            final(self).spec_config() == old(self).spec_config(),
            logged(
                old(self).state(),
                final(self).state(),
                old(self).spec_config().wal_segment_size,
                PayloadView::TxnWrite(txn_id, key@, value@),
                r,
            ),
    {
        self.append_record(encode_txn_write_record(txn_id, key, value))
    }

    /// Appends the commit of a transaction to the log, and notes its numbers.
    pub fn wal_append_txn_commit(&mut self, txn_id: u64, commit_ts: u64) -> (r: Result<(), Error>)
        requires
            old(self).wf(),
        ensures
            final(self).wf(),
            final(self).spec_config() == old(self).spec_config(),
            commit_logged(
                old(self).state(),
                final(self).state(),
                old(self).spec_config().wal_segment_size,
                txn_id,
                commit_ts,
                r,
            ),
    {
        match self.append_record(encode_txn_commit_record(txn_id, commit_ts)) {
            Ok(_) => {},
            Err(e) => {
                return Err(e);
            },
        }
        let ghost mid = self.state();
        if txn_id > self.max_txn_id {
            self.max_txn_id = txn_id;
        }
        if commit_ts > self.max_commit_ts {
            self.max_commit_ts = commit_ts;
        }
        Ok(())
    }

    /// Appends the abort of a transaction to the log.
    pub fn wal_append_txn_abort(&mut self, txn_id: u64) -> (r: Result<(), Error>)
        requires
            old(self).wf(),
        ensures
            final(self).wf(),
            final(self).spec_config() == old(self).spec_config(),
            logged(
                old(self).state(),
                final(self).state(),
                old(self).spec_config().wal_segment_size,
                PayloadView::TxnAbort(txn_id),
                r,
            ),
    {
        self.append_record(encode_txn_abort_record(txn_id))
    }

    /// Makes the log durable.
    pub fn wal_sync(&mut self)
        requires
            old(self).wf(),
        ensures
            final(self).wf(),
            final(self).spec_config() == old(self).spec_config(),
            final(self).state() == synced_log(old(self).state()),
    {
        self.committer.sync(&mut self.disk);
    }

    /// The next sequence number.
    pub fn sequence(&self) -> (r: u64)
        ensures
            r == self.state().sequence,
    {
        self.sequence
    }

    /// The largest commit timestamp.
    pub fn max_commit_ts(&self) -> (r: u64)
        ensures
            r == self.state().max_commit_ts,
    {
        self.max_commit_ts
    }

    /// The largest transaction number.
    pub fn max_txn_id(&self) -> (r: u64)
        ensures
            r == self.state().max_txn_id,
    {
        self.max_txn_id
    }

    /// The counts of group commit.
    pub fn group_commit_stats(&self) -> (r: &GroupCommitStats)
        ensures
            *r == self.state().commit.stats,
    {
        self.committer.stats()
    }

    /// Sets the watermark that compaction goes by; without one it keeps only the newest versions.
    pub fn set_watermark_source(&mut self, watermark: Option<u64>)
        requires
            old(self).wf(),
        ensures
            final(self).wf(),
            final(self).spec_config() == old(self).spec_config(),
            final(self).state() == (EngineView { watermark, ..old(self).state() }),
    {
        self.watermark = watermark;
    }
}

/// What appending a record of a transaction does, and what it gives.
pub open spec fn logged(
    a: EngineView,
    b: EngineView,
    size: u64,
    p: PayloadView,
    r: Result<(), Error>,
) -> bool {
    let record = payload_bytes(p);
    let refusal = append_refusal(size, a.wal_segment, record.len());
    match r {
        Ok(_) => refusal is None && appended_record(a, b, size, record),
        Err(e) => refusal == Some(e@) && b == a,
    }
}

/// What appending the commit of a transaction does, and what it gives.
pub open spec fn commit_logged(
    a: EngineView,
    b: EngineView,
    size: u64,
    txn_id: u64,
    ts: u64,
    r: Result<(), Error>,
) -> bool {
    let record = payload_bytes(PayloadView::TxnCommit(txn_id, ts));
    let refusal = append_refusal(size, a.wal_segment, record.len());
    match r {
        Ok(_) => {
            &&& refusal is None
            &&& exists|mid: EngineView| #[trigger]
                appended_record(a, mid, size, record) && b == (EngineView {
                    max_txn_id: larger(mid.max_txn_id, txn_id),
                    max_commit_ts: larger(mid.max_commit_ts, ts),
                    ..mid
                })
        },
        Err(e) => {
            &&& refusal == Some(e@)
            &&& b == a
        },
    }
}

/// The state after the segment of the log in use is made durable.
pub open spec fn synced_log(s: EngineView) -> EngineView {
    EngineView {
        durable: s.durable.insert(
            FileId::Wal(s.wal_segment),
            s.live[FileId::Wal(s.wal_segment)],
        ),
        ..s
    }
}

/// The state after writes under a commit timestamp are stored.
pub open spec fn stamped_state(s: EngineView, ts: u64) -> EngineView {
    EngineView {
        max_commit_ts: larger(s.max_commit_ts, ts),
        sequence: raised(s.sequence, ts),
        ..s
    }
}

/// Why a write under a commit timestamp is refused, if it is.
pub open spec fn versioned_refusal(s: EngineView, c: EngineConfig, ts: u64, record: Seq<u8>) -> Option<
    ErrorView,
> {
    if ts >= WAL_BATCH_MAGIC {
        stamp_refusal(ts)
    } else {
        append_refusal(c.wal_segment_size, s.wal_segment, record.len())
    }
}

/// What a write under a commit timestamp does, but for the numbers it raises, and what it gives.
pub open spec fn versioned(
    a: EngineView,
    b: EngineView,
    c: EngineConfig,
    w: WriteView,
    r: Result<(), Error>,
) -> bool {
    let record = payload_bytes(PayloadView::Kv(w));
    match r {
        Ok(_) => {
            &&& versioned_refusal(a, c, w.2, record) is None
            &&& exists|mid: EngineView| #[trigger]
                appended_record(a, mid, c.wal_segment_size, record) && b == stored(
                    mid,
                    seq![w],
                    c.memtable_size,
                )
        },
        Err(e) => {
            &&& versioned_refusal(a, c, w.2, record) == Some(e@)
            &&& b == a
        },
    }
}

/// What a put under a commit timestamp does, and what it gives.
pub open spec fn put_at(
    a: EngineView,
    b: EngineView,
    c: EngineConfig,
    key: Seq<u8>,
    value: Seq<u8>,
    ts: u64,
    r: Result<(), Error>,
) -> bool {
    let w: WriteView = (key, Some(value), ts);
    let record = payload_bytes(PayloadView::Kv(w));
    match r {
        Ok(_) => {
            &&& versioned_refusal(a, c, ts, record) is None
            &&& exists|mid: EngineView| #[trigger]
                appended_record(a, mid, c.wal_segment_size, record) && b == stamped_state(
                    stored(mid, seq![w], c.memtable_size),
                    ts,
                )
        },
        Err(e) => {
            &&& versioned_refusal(a, c, ts, record) == Some(e@)
            &&& b == a
        },
    }
}

/// What writing a batch under a commit timestamp does, and what it gives.
pub open spec fn batch_written(
    a: EngineView,
    b: EngineView,
    c: EngineConfig,
    writes: Seq<(Vec<u8>, Option<Vec<u8>>)>,
    ts: u64,
    r: Result<(), Error>,
) -> bool {
    let ws = stamped(writes, ts);
    let record = payload_bytes(PayloadView::Batch(ws));
    let refusal = if writes.len() == 0 {
        None
    } else if ts >= WAL_BATCH_MAGIC {
        stamp_refusal(ts)
    } else {
        commit_refusal(a.commit, wal_config_of(c), a.wal_segment, record.len())
    };
    match r {
        Ok(_) => {
            &&& refusal is None
            &&& if writes.len() == 0 {
                b == a
            } else {
                exists|mid: EngineView| #[trigger]
                    committed_record(a, mid, c.wal_segment_size, record) && b == stamped_state(
                        stored(mid, ws, c.memtable_size),
                        ts,
                    )
            }
        },
        Err(e) => {
            &&& refusal == Some(e@)
            &&& b == if ts >= WAL_BATCH_MAGIC {
                a
            } else {
                refused_state(a, record)
            }
        },
    }
}

/// What a put or a delete does, and what it gives. The sequence number is used up even where the
/// log refuses the record.
pub open spec fn written(
    a: EngineView,
    b: EngineView,
    c: EngineConfig,
    key: Seq<u8>,
    value: ValueView,
    r: Result<(), Error>,
) -> bool {
    let w: WriteView = (key, value, a.sequence);
    let record = payload_bytes(PayloadView::Kv(w));
    let next = EngineView { sequence: (a.sequence + 1) as u64, ..a };
    match r {
        Ok(_) => {
            &&& write_refusal(a, wal_config_of(c), record) is None
            &&& exists|mid: EngineView| #[trigger]
                committed_record(next, mid, c.wal_segment_size, record) && b == stored(
                    mid,
                    seq![w],
                    c.memtable_size,
                )
        },
        Err(e) => {
            &&& write_refusal(a, wal_config_of(c), record) == Some(e@)
            &&& b == if a.sequence >= WAL_BATCH_MAGIC {
                a
            } else {
                refused_state(next, record)
            }
        },
    }
}

proof fn lemma_stored_one(s: EngineView, w: WriteView, max_size: usize)
    ensures
        stored(s, seq![w], max_size) == ({
            let m = s.active.insert((w.0, w.2), w.1);
            let size = size_after(s.size, w.0.len(), w.1);
            if size >= max_size {
                EngineView { active: Map::empty(), size: 0, immutables: s.immutables.push(m), ..s }
            } else {
                EngineView { active: m, size, ..s }
            }
        }),
{
    let ws = seq![w];
    assert(ws.drop_last() =~= Seq::<WriteView>::empty());
    reveal_with_fuel(with_writes, 2);
    reveal_with_fuel(size_with, 2);
}

proof fn lemma_can_append_one(live: Files, size: u64, seg: u64, rs: Seq<Seq<u8>>)
    requires
        rs.len() == 1,
    ensures
        appended(live, size, seg, rs, 0) == (live, seg),
        crate::group_commit::can_append(live, size, seg, rs, 1) == (append_refusal(
            size,
            seg,
            rs[0].len(),
        ) is None),
{
    reveal_with_fuel(appended, 2);
    reveal_with_fuel(crate::group_commit::can_append, 2);
}

proof fn lemma_led_same_but_log(
    live: Files,
    durable: Files,
    seg: u64,
    size: u64,
    rs: Seq<Seq<u8>>,
    live_after: Files,
    durable_after: Files,
    seg_after: u64,
)
    requires
        led(live, durable, seg, size, rs, live_after, durable_after, seg_after, None),
    ensures
        same_but_log(live, live_after),
        same_but_log(durable, durable_after),
{
    let d = choose|d: Files|
        {
            &&& #[trigger] wrote_records(
                live,
                durable,
                seg,
                size,
                rs,
                live_after,
                d,
                seg_after,
                None,
            )
            &&& durable_after == d.insert(
                FileId::Wal(seg_after),
                live_after[FileId::Wal(seg_after)],
            )
        };
    assert forall|id: FileId| !(id is Wal) implies (#[trigger] durable_after.contains_key(id)
        == durable.contains_key(id)) && (durable.contains_key(id) ==> durable_after[id]
        == durable[id]) by {
        assert(d.contains_key(id) == durable.contains_key(id));
    }
}

/// The files after the manifest is saved: it is written beside the old one, made durable, and
/// takes its name.
pub open spec fn with_manifest(files: Files, d: Seq<u8>) -> Files {
    files.remove(FileId::ManifestTmp).insert(FileId::Manifest, d)
}

/// The state after the manifest is saved.
pub open spec fn saved(s: EngineView) -> EngineView {
    let d = manifest_bytes(s.version, s.next_file_num, s.sequence);
    EngineView { live: with_manifest(s.live, d), durable: with_manifest(s.durable, d), ..s }
}

/// The state after the oldest memtable set aside is flushed, and why it could not be, if it could
/// not. It stays among those set aside until its file is there. A file number is used up either
/// way.
pub open spec fn flushed_one(s: EngineView, c: EngineConfig) -> (EngineView, Option<ErrorView>) {
    let es = raw_entries(entries_of(s.immutables[0]));
    let num = s.next_file_num;
    let id = FileId::Sst(num);
    if num == u64::MAX {
        (s, Some(ErrorView::Io("no file numbers are left"@)))
    } else {
        let t = EngineView { next_file_num: (num + 1) as u64, ..s };
        if s.live.contains_key(id) {
            (t, Some(ErrorView::Io("file exists"@)))
        } else {
            let d = plain_table(es, c.compaction.sstable_config);
            let u = EngineView {
                live: t.live.insert(id, d),
                durable: t.durable.insert(id, d),
                immutables: s.immutables.drop_first(),
                ..t
            };
            if es.len() == 0 {
                (saved(u), None)
            } else {
                let f = made_file(num, es, c.compaction.sstable_config);
                (saved(EngineView { version: u.version.update(0, u.version[0].push(f)), ..u }), None)
            }
        }
    }
}

/// The state after the memtables set aside are flushed, oldest first, and why that stopped, if it
/// did.
pub open spec fn flushed_all(s: EngineView, c: EngineConfig) -> (EngineView, Option<ErrorView>)
    decreases s.immutables.len(),
{
    if s.immutables.len() == 0 {
        (s, None)
    } else {
        let (t, e) = flushed_one(s, c);
        if e is Some || t.immutables.len() >= s.immutables.len() {
            (t, e)
        } else {
            flushed_all(t, c)
        }
    }
}

/// Files without table files with given numbers.
pub open spec fn without_tables(files: Files, nums: Seq<u64>) -> Files
    decreases nums.len(),
{
    if nums.len() == 0 {
        files
    } else {
        without_tables(files, nums.drop_last()).remove(FileId::Sst(nums.last()))
    }
}

/// The state after a compaction, and why there was none, if there was none.
pub open spec fn compacted(s: EngineView, c: EngineConfig, t: TaskView, watermark: Option<u64>) -> (
    EngineView,
    Option<ErrorView>,
) {
    match compaction_outcome(s.live, t, watermark, c.compaction, s.next_file_num) {
        Err(e) => (s, Some(e)),
        Ok(files) => {
            let nums = task_nums(t);
            let next = s.next_file_num;
            let sc = c.compaction.sstable_config;
            let live = with_tables(s.live, next, files, sc, files.len());
            let durable = with_tables(s.durable, next, files, sc, files.len());
            (
                saved(
                    EngineView {
                        live: without_tables(live, nums),
                        durable: without_tables(durable, nums),
                        next_file_num: (next + files.len()) as u64,
                        version: applied(
                            s.version,
                            t.level as int,
                            t.level as int + 1,
                            nums,
                            made_files(next, files, sc),
                        ),
                        ..s
                    },
                ),
                None,
            )
        },
    }
}

/// Tells whether a task is the one to carry out next.
pub open spec fn next_task(c: EngineConfig, v: Seq<Seq<FileView>>, t: TaskView) -> bool {
    v.len() >= 2 && picked(c.compaction, v) == Some(t)
}

/// What one round of compaction does, and what it gives: whether there was anything to do.
pub open spec fn compaction_round(
    a: EngineView,
    b: EngineView,
    c: EngineConfig,
    watermark: Option<u64>,
    r: Result<bool, Error>,
) -> bool {
    if a.version.len() < 2 {
        if a.version[0].len() > 0 && a.version[0].len() >= c.compaction.l0_compaction_trigger {
            r is Err && r->Err_0@ == ErrorView::InvalidArgument("no level to compact into"@) && b
                == a
        } else {
            r is Ok && !r->Ok_0 && b == a
        }
    } else {
        match picked(c.compaction, a.version) {
            None => r is Ok && !r->Ok_0 && b == a,
            Some(t) => b == compacted(a, c, t, watermark).0 && match compacted(
                a,
                c,
                t,
                watermark,
            ).1 {
                None => r is Ok && r->Ok_0,
                Some(e) => r is Err && r->Err_0@ == e,
            },
        }
    }
}

/// Tells whether a step of a list of states is a round of compaction that had something to do.
pub open spec fn round_at(c: EngineConfig, trace: Seq<EngineView>, i: int) -> bool {
    compaction_round(trace[i], trace[i + 1], c, trace[i].watermark, Ok::<bool, Error>(true))
}

/// Tells whether rounds of compaction lead from state to state of a list.
pub open spec fn rounds_lead(c: EngineConfig, trace: Seq<EngineView>) -> bool {
    &&& trace.len() > 0
    &&& forall|i: int| 0 <= i < trace.len() - 1 ==> #[trigger] round_at(c, trace, i)
}

/// What compaction to the end does, and what it gives: rounds until one has nothing to do or
/// fails, or until no more rounds can be counted.
pub open spec fn compacted_fully(
    a: EngineView,
    b: EngineView,
    c: EngineConfig,
    r: Result<(), Error>,
) -> bool {
    exists|trace: Seq<EngineView>| #[trigger]
        rounds_lead(c, trace) && trace[0] == a && {
            let last = trace.last();
            match r {
                Ok(_) => compaction_round(last, b, c, last.watermark, Ok::<bool, Error>(false)),
                Err(e) => {
                    ||| compaction_round(last, b, c, last.watermark, Err::<bool, Error>(e))
                    ||| trace.len() > u64::MAX && b == last && e@ == ErrorView::Io(
                        "compaction does not settle"@,
                    )
                },
            }
        }
}

impl LsmEngine {
    /// Sets the memtable aside and flushes all that are set aside.
    pub fn flush(&mut self) -> (r: Result<(), Error>)
        requires
            old(self).wf(),
        ensures
            final(self).wf(),
            final(self).spec_config() == old(self).spec_config(),
            (final(self).state(), refusal_of(r)) == flushed_all(
                rotated(old(self).state()),
                old(self).spec_config(),
            ),
    {
        self.rotate_memtable();
        self.flush_immutable_memtables()
    }

    /// Flushes the memtables that are set aside, oldest first.
    pub fn flush_immutable_memtables(&mut self) -> (r: Result<(), Error>)
        requires
            old(self).wf(),
        ensures
            final(self).wf(),
            final(self).spec_config() == old(self).spec_config(),
            (final(self).state(), refusal_of(r)) == flushed_all(
                old(self).state(),
                old(self).spec_config(),
            ),
    {
        let ghost c = self.spec_config();
        let ghost want = flushed_all(self.state(), c);
        while self.immutables.len() > 0
            invariant
                self.wf(),
                self.spec_config() == c,
                c == old(self).spec_config(),
                want == flushed_all(self.state(), c),
                want == flushed_all(old(self).state(), c),
            decreases self.immutables@.len(),
        {
            let ghost s = self.state();
            assert(s.immutables.len() == self.immutables@.len());
            match self.flush_oldest() {
                Ok(_) => {
                    assert(self.state().immutables.len() == self.immutables@.len());
                },
                Err(e) => {
                    return Err(e);
                },
            }
        }
        Ok(())
    }

    #[verifier::rlimit(40)]
    fn flush_oldest(&mut self) -> (r: Result<(), Error>)
        requires
            old(self).wf(),
            old(self).state().immutables.len() > 0,
        ensures
            final(self).wf(),
            final(self).spec_config() == old(self).spec_config(),
            (final(self).state(), refusal_of(r)) == flushed_one(
                old(self).state(),
                old(self).spec_config(),
            ),
            r is Ok ==> final(self).state().immutables.len() == old(self).state().immutables.len()
                - 1,
    {
        let ghost s = self.state();
        if self.next_file_num == u64::MAX {
            return Err(Error::Io(text_of("no file numbers are left")));
        }
        let num = self.next_file_num;
        self.next_file_num = num + 1;
        let entries = self.immutables[0].iter();
        let none: Vec<u8> = Vec::new();
        let ghost es = raw_entries(entries_view(entries@));
        proof {
            assert(self.immutables@[0]@ == s.immutables[0]);
            lemma_entries_of(entries_view(entries@), s.immutables[0]);
            law_versions_sorted(entries_view(entries@));
            assert(none@ =~= Seq::<u8>::empty());
        }
        let (bytes, meta) = match build_table(
            &entries,
            self.config.compaction.sstable_config,
            &none,
        ) {
            Ok(t) => t,
            Err(e) => {
                return Err(e);
            },
        };
        if self.disk.contains(FileId::Sst(num)) {
            return Err(Error::Io(text_of("file exists")));
        }
        self.immutables.remove(0);
        assert(tables_view(self.immutables@) =~= s.immutables.drop_first());
        let ghost live0 = self.disk.live();
        write_file(&mut self.disk, FileId::Sst(num), &bytes);
        assert(log_end(
            self.disk.live(),
            self.committer.wal_segment(),
            self.committer.wal_offset(),
        )) by {
            lemma_log_end_kept(
                live0,
                self.disk.live(),
                self.committer.wal_segment(),
                self.committer.wal_offset(),
            );
        }
        if let (Some(smallest_key), Some(largest_key)) = (meta.first_key, meta.last_key) {
            let file = FileMetadata {
                file_num: num,
                file_size: meta.file_size,
                smallest_key,
                largest_key,
            };
            let ghost f = file@;
            let ghost v0 = self.version@;
            let ghost l0 = self.version.levels@[0]@;
            self.version.levels[0].push(file);
            proof {
                assert(f == made_file(num, es, self.config.compaction.sstable_config));
                assert(files_view(l0.push(file)) =~= files_view(l0).push(f));
                assert(v0[0] == files_view(l0));
                assert(self.version@ =~= v0.update(0, v0[0].push(f)));
            }
        } else {
            assert(es.len() == 0);
        }
        self.save_manifest();
        Ok(())
    }

    /// Saves which table files make up the database.
    fn save_manifest(&mut self)
        requires
            old(self).wf(),
        ensures
            final(self).wf(),
            final(self).spec_config() == old(self).spec_config(),
            final(self).state() == saved(old(self).state()),
    {
        let ghost s = self.state();
        let data = encode_manifest(&self.version, self.next_file_num, self.sequence);
        self.disk.remove(FileId::ManifestTmp);
        let ghost l1 = self.disk.live();
        let ghost d1 = self.disk.durable();
        write_file(&mut self.disk, FileId::ManifestTmp, &data);
        self.disk.rename(FileId::ManifestTmp, FileId::Manifest);
        proof {
            let d = manifest_bytes(s.version, s.next_file_num, s.sequence);
            assert(self.disk.live() =~= with_manifest(s.live, d));
            assert(self.disk.durable() =~= with_manifest(s.durable, d));
            lemma_log_end_kept(
                s.live,
                self.disk.live(),
                self.committer.wal_segment(),
                self.committer.wal_offset(),
            );
        }
    }

    /// Runs one round of compaction, if one is due. With a watermark, versions that no reader at
    /// or above it needs are dropped; without one, only the newest versions are kept.
    pub fn maybe_compact(&mut self) -> (r: Result<bool, Error>)
        requires
            old(self).wf(),
        ensures
            final(self).wf(),
            final(self).spec_config() == old(self).spec_config(),
            compaction_round(
                old(self).state(),
                final(self).state(),
                old(self).spec_config(),
                old(self).state().watermark,
                r,
            ),
    {
        self.compact_round(self.watermark)
    }

    /// Runs one round of compaction with a watermark, if one is due.
    pub fn compact_with_gc(&mut self, watermark: u64) -> (r: Result<bool, Error>)
        requires
            old(self).wf(),
        ensures
            final(self).wf(),
            final(self).spec_config() == old(self).spec_config(),
            compaction_round(
                old(self).state(),
                final(self).state(),
                old(self).spec_config(),
                Some(watermark),
                r,
            ),
    {
        self.compact_round(Some(watermark))
    }

    fn compact_round(&mut self, watermark: Option<u64>) -> (r: Result<bool, Error>)
        requires
            old(self).wf(),
        ensures
            final(self).wf(),
            final(self).spec_config() == old(self).spec_config(),
            compaction_round(
                old(self).state(),
                final(self).state(),
                old(self).spec_config(),
                watermark,
                r,
            ),
    {
        let ghost s = self.state();
        assert(s.version[0] == files_view(self.version.levels@[0]@));
        if self.version.levels.len() < 2 {
            let n = self.version.levels[0].len();
            if n > 0 && n >= self.config.compaction.l0_compaction_trigger {
                return Err(invalid_argument("no level to compact into"));
            }
            return Ok(false);
        }
        let picker = CompactionPicker::new(self.config.compaction);
        let task = match picker.pick_compaction(&self.version) {
            Some(task) => task,
            None => {
                return Ok(false);
            },
        };
        proof {
            lemma_picked_level(self.config.compaction, s.version);
        }
        match self.run_compaction(&task, watermark) {
            Ok(_) => Ok(true),
            Err(e) => Err(e),
        }
    }

    #[verifier::rlimit(40)]
    fn run_compaction(&mut self, task: &CompactionTask, watermark: Option<u64>) -> (r: Result<
        (),
        Error,
    >)
        requires
            old(self).wf(),
            task.level + 1 < old(self).state().version.len(),
        ensures
            final(self).wf(),
            final(self).spec_config() == old(self).spec_config(),
            (final(self).state(), refusal_of(r)) == compacted(
                old(self).state(),
                old(self).spec_config(),
                task@,
                watermark,
            ),
    {
        let ghost s = self.state();
        let n = self.version.levels.len();
        assert(task.level < n);
        let executor = CompactionExecutor::new(self.config.compaction);
        let mut next = self.next_file_num;
        let outcome = match watermark {
            Some(w) => executor.execute_with_gc(&mut self.disk, task, &mut next, w),
            None => executor.execute(&mut self.disk, task, &mut next),
        };
        let result = match outcome {
            Ok(result) => result,
            Err(e) => {
                return Err(e);
            },
        };
        let ghost files = compaction_outcome(
            s.live,
            task@,
            watermark,
            self.config.compaction,
            s.next_file_num,
        )->Ok_0;
        self.next_file_num = next;
        self.version = apply_compaction(&self.version, task, &result);
        let ghost live1 = self.disk.live();
        let ghost durable1 = self.disk.durable();
        let ghost nums = result.removed_files@;
        let mut i: usize = 0;
        assert(nums.take(0) =~= Seq::<u64>::empty());
        while i < result.removed_files.len()
            invariant
                i <= result.removed_files@.len(),
                nums == result.removed_files@,
                self.disk.wf(),
                self.disk.live() == without_tables(live1, nums.take(i as int)),
                self.disk.durable() == without_tables(durable1, nums.take(i as int)),
                self.disk.taken() == old(self).disk.taken(),
                self.committer == old(self).committer,
                self.config == old(self).config,
                self.active == old(self).active,
                self.immutables == old(self).immutables,
                self.next_file_num == next,
                self.sequence == old(self).sequence,
                self.max_commit_ts == old(self).max_commit_ts,
                self.max_txn_id == old(self).max_txn_id,
                self.watermark == old(self).watermark,
                self.version@ == applied(
                    s.version,
                    task.level as int,
                    result.target_level as int,
                    nums,
                    files_view(result.new_files@),
                ),
            decreases result.removed_files@.len() - i,
        {
            proof {
                assert(nums.take(i + 1).drop_last() =~= nums.take(i as int));
                assert(nums.take(i + 1).last() == nums[i as int]);
            }
            self.disk.remove(FileId::Sst(result.removed_files[i]));
            i += 1;
        }
        assert(nums.take(i as int) =~= nums);
        proof {
            assert forall|k: u64|
                #![trigger self.disk.live().contains_key(FileId::Wal(k))]
                (self.disk.live().contains_key(FileId::Wal(k)) == s.live.contains_key(
                    FileId::Wal(k),
                )) && (s.live.contains_key(FileId::Wal(k)) ==> self.disk.live()[FileId::Wal(k)]
                    == s.live[FileId::Wal(k)]) by {
                lemma_tables_keep_log(
                    s.live,
                    s.next_file_num,
                    files,
                    self.config.compaction.sstable_config,
                    files.len(),
                    k,
                );
                lemma_without_keeps_log(live1, nums, k);
            }
            assert(self.disk.live().contains_key(FileId::Wal(self.committer.wal_segment())));
            lemma_log_end_kept(
                s.live,
                self.disk.live(),
                self.committer.wal_segment(),
                self.committer.wal_offset(),
            );
        }
        self.save_manifest();
        Ok(())
    }

    /// Runs rounds of compaction until none is due. It gives up with an error where that takes
    /// more rounds than can be counted.
    pub fn compact_all(&mut self) -> (r: Result<(), Error>)
        requires
            old(self).wf(),
        ensures
            final(self).wf(),
            final(self).spec_config() == old(self).spec_config(),
            compacted_fully(old(self).state(), final(self).state(), old(self).spec_config(), r),
    {
        let ghost c = self.spec_config();
        let ghost mut trace: Seq<EngineView> = seq![self.state()];
        let mut rounds: u64 = 0;
        while rounds < u64::MAX
            invariant
                self.wf(),
                self.spec_config() == c,
                c == old(self).spec_config(),
                rounds_lead(c, trace),
                trace.len() == rounds + 1,
                trace[0] == old(self).state(),
                trace.last() == self.state(),
            decreases u64::MAX - rounds,
        {
            match self.maybe_compact() {
                Ok(true) => {},
                Ok(false) => {
                    return Ok(());
                },
                Err(e) => {
                    return Err(e);
                },
            }
            proof {
                let next = trace.push(self.state());
                assert forall|i: int| 0 <= i < next.len() - 1 implies #[trigger] round_at(
                    c,
                    next,
                    i,
                ) by {
                    if i < trace.len() - 1 {
                        assert(round_at(c, trace, i));
                    }
                }
                trace = next;
            }
            rounds += 1;
        }
        Err(Error::Io(text_of("compaction does not settle")))
    }
}

proof fn lemma_log_end_kept(a: Files, b: Files, seg: u64, off: nat)
    requires
        log_end(a, seg, off),
        forall|n: u64| #[trigger]
            b.contains_key(FileId::Wal(n)) == a.contains_key(FileId::Wal(n)),
        b[FileId::Wal(seg)] == a[FileId::Wal(seg)],
    ensures
        log_end(b, seg, off),
{
    assert(a.contains_key(FileId::Wal(seg)));
    assert(b.contains_key(FileId::Wal(seg)));
}

proof fn lemma_tables_keep_log(
    live: Files,
    next: u64,
    files: Seq<Seq<RawEntry>>,
    config: crate::sstable::SSTableConfig,
    n: nat,
    k: u64,
)
    ensures
        with_tables(live, next, files, config, n).contains_key(FileId::Wal(k))
            == live.contains_key(FileId::Wal(k)),
        live.contains_key(FileId::Wal(k)) ==> with_tables(live, next, files, config, n)[FileId::Wal(
            k,
        )] == live[FileId::Wal(k)],
    decreases n,
{
    if n > 0 {
        lemma_tables_keep_log(live, next, files, config, (n - 1) as nat, k);
    }
}

proof fn lemma_without_keeps_log(files: Files, nums: Seq<u64>, k: u64)
    ensures
        without_tables(files, nums).contains_key(FileId::Wal(k)) == files.contains_key(
            FileId::Wal(k),
        ),
        files.contains_key(FileId::Wal(k)) ==> without_tables(files, nums)[FileId::Wal(k)]
            == files[FileId::Wal(k)],
    decreases nums.len(),
{
    if nums.len() > 0 {
        lemma_without_keeps_log(files, nums.drop_last(), k);
    }
}

/// Tells whether a table file holds a version of a user key after a sequence number; its newest
/// version counts, where its value can be decoded.
pub open spec fn file_written_after(live: Files, num: u64, key: Seq<u8>, ts: u64) -> Result<
    bool,
    ErrorView,
> {
    let id = FileId::Sst(num);
    if !live.contains_key(id) {
        Err(ErrorView::Io("no such file: "@ + table_name(num)))
    } else {
        match table_index(live[id]) {
            Err(e) => Err(e),
            Ok(index) => match best_in_table(live[id], index, 0, key, u64::MAX, None) {
                Err(e) => Err(e),
                Ok(None) => Ok(false),
                Ok(Some((s, v))) => Ok(s > ts && value_of_bytes(v) is Some),
            },
        }
    }
}

/// Tells whether a memtable holds a version of a user key after a sequence number.
pub open spec fn memory_written_after(s: EngineView, key: Seq<u8>, ts: u64) -> bool {
    written_after(s.active, key, ts) || exists|i: int|
        0 <= i < s.immutables.len() && written_after(#[trigger] s.immutables[i], key, ts)
}

/// Tells whether one of the files from the `i`-th on holds a version of a user key after a
/// sequence number.
pub open spec fn level0_written_after(
    live: Files,
    files: Seq<FileView>,
    i: nat,
    key: Seq<u8>,
    ts: u64,
) -> Result<bool, ErrorView>
    decreases files.len() - i,
{
    if i >= files.len() {
        Ok(false)
    } else {
        match file_written_after(live, files[i as int].file_num, key, ts) {
            Err(e) => Err(e),
            Ok(true) => Ok(true),
            Ok(false) => level0_written_after(live, files, i + 1, key, ts),
        }
    }
}

/// Tells whether one of the levels from `level` on holds a version of a user key after a sequence
/// number: on each the one file that may hold it.
pub open spec fn levels_written_after(
    live: Files,
    v: Seq<Seq<FileView>>,
    level: nat,
    key: Seq<u8>,
    ts: u64,
) -> Result<bool, ErrorView>
    decreases v.len() - level,
{
    if level >= v.len() {
        Ok(false)
    } else {
        let files = v[level as int];
        let i = candidate(files, key);
        if i < files.len() {
            match file_written_after(live, files[i as int].file_num, key, ts) {
                Err(e) => Err(e),
                Ok(true) => Ok(true),
                Ok(false) => levels_written_after(live, v, level + 1, key, ts),
            }
        } else {
            levels_written_after(live, v, level + 1, key, ts)
        }
    }
}

/// Tells whether a user key has a version after a sequence number.
pub open spec fn state_written_after(s: EngineView, key: Seq<u8>, ts: u64) -> Result<
    bool,
    ErrorView,
> {
    if memory_written_after(s, key, ts) {
        Ok(true)
    } else {
        match level0_written_after(s.live, s.version[0], 0, key, ts) {
            Err(e) => Err(e),
            Ok(true) => Ok(true),
            Ok(false) => levels_written_after(s.live, s.version, 1, key, ts),
        }
    }
}

/// A version of a key: its sequence number and its value.
pub type KeyVersion = (u64, ValueView);

/// The versions of a user key among versions.
pub open spec fn of_key(es: Entries, key: Seq<u8>) -> Seq<KeyVersion>
    decreases es.len(),
{
    if es.len() == 0 {
        Seq::empty()
    } else {
        let before = of_key(es.drop_last(), key);
        if es.last().0.0 == key {
            before.push((es.last().0.1, es.last().1))
        } else {
            before
        }
    }
}

/// The first of versions, up to a number.
pub open spec fn up_to(s: Seq<KeyVersion>, n: nat) -> Seq<KeyVersion> {
    if s.len() <= n {
        s
    } else {
        s.take(n as int)
    }
}

/// The versions of a user key in the first `n` memtables set aside.
pub open spec fn immutables_versions(ms: Seq<Versions>, n: nat, key: Seq<u8>) -> Seq<KeyVersion>
    decreases n,
{
    if n == 0 {
        Seq::empty()
    } else {
        immutables_versions(ms, (n - 1) as nat, key) + of_key(entries_of(ms[n - 1]), key)
    }
}

/// The versions of a user key in the memtables.
pub open spec fn memory_versions(s: EngineView, key: Seq<u8>) -> Seq<KeyVersion> {
    of_key(entries_of(s.active), key) + immutables_versions(s.immutables, s.immutables.len(), key)
}

/// The numbers of the files of all levels, level by level.
pub open spec fn all_nums(v: Seq<Seq<FileView>>) -> Seq<u64>
    decreases v.len(),
{
    if v.len() == 0 {
        Seq::empty()
    } else {
        all_nums(v.drop_last()) + crate::compaction::nums_of(v.last())
    }
}

/// Versions of a user key with those of table files from the `i`-th on added, until there are
/// enough. A data block that cannot be read matters where it is reached.
pub open spec fn gathered(
    live: Files,
    nums: Seq<u64>,
    i: nat,
    key: Seq<u8>,
    enough: nat,
    acc: Seq<KeyVersion>,
) -> Result<Seq<KeyVersion>, ErrorView>
    decreases nums.len() - i,
{
    if acc.len() >= enough || i >= nums.len() {
        Ok(acc)
    } else {
        match table_front(live, nums[i as int]) {
            Err(e) => Err(e),
            Ok((es, why)) => {
                let more = up_to(acc + of_key(decoded(es), key), enough);
                if why is Some && more.len() < enough {
                    Err(why->0)
                } else {
                    gathered(live, nums, i + 1, key, enough, more)
                }
            },
        }
    }
}

/// The versions of a user key, up to a number.
pub open spec fn versions_listed(s: EngineView, key: Seq<u8>, limit: nat) -> Result<
    Seq<KeyVersion>,
    ErrorView,
> {
    gathered(
        s.live,
        all_nums(s.version),
        0,
        key,
        limit,
        up_to(memory_versions(s, key), limit),
    )
}

/// The views of versions of a key.
pub open spec fn key_versions_view(s: Seq<(u64, Option<Vec<u8>>)>) -> Seq<KeyVersion> {
    s.map_values(|x: (u64, Option<Vec<u8>>)| (x.0, opt_view(x.1)))
}

/// Ranges of the versions of table files.
pub open spec fn table_ranges(srcs: Seq<Seq<RawEntry>>, start: BoundView, end: BoundView) -> Seq<
    Entries,
> {
    srcs.map_values(|es: Seq<RawEntry>| range_of(decoded(es), start, end))
}

/// The versions of a range in a table file. A data block that cannot be read matters where the
/// range has not ended before it.
pub open spec fn range_source(live: Files, num: u64, start: BoundView, end: BoundView) -> Result<
    Entries,
    ErrorView,
> {
    match table_front(live, num) {
        Err(e) => Err(e),
        Ok((es, why)) => if why is Some && !range_ended(es, start, end) {
            Err(why->0)
        } else {
            Ok(range_of(decoded(es), start, end))
        },
    }
}

/// The versions of a range in table files; the first problem where there is one.
pub open spec fn range_sources(
    live: Files,
    nums: Seq<u64>,
    start: BoundView,
    end: BoundView,
) -> Result<Seq<Entries>, ErrorView>
    decreases nums.len(),
{
    if nums.len() == 0 {
        Ok(Seq::empty())
    } else {
        match range_sources(live, nums.drop_last(), start, end) {
            Err(e) => Err(e),
            Ok(ss) => match range_source(live, nums.last(), start, end) {
                Err(e) => Err(e),
                Ok(s) => Ok(ss.push(s)),
            },
        }
    }
}

/// Where some of the first ranges cannot be read, all cannot, and for the same reason.
proof fn lemma_ranges_fail(live: Files, nums: Seq<u64>, start: BoundView, end: BoundView, n: int)
    requires
        0 <= n <= nums.len(),
        range_sources(live, nums.take(n), start, end) is Err,
    ensures
        range_sources(live, nums, start, end) == range_sources(live, nums.take(n), start, end),
    decreases nums.len() - n,
{
    if n < nums.len() {
        assert(nums.take(n + 1).drop_last() =~= nums.take(n));
        lemma_ranges_fail(live, nums, start, end, n + 1);
    } else {
        assert(nums.take(n) =~= nums);
    }
}

/// Table files that can be read whole give the ranges of all that they hold.
pub proof fn lemma_ranges_whole(live: Files, nums: Seq<u64>, start: BoundView, end: BoundView)
    requires
        sources_of(live, nums) is Ok,
    ensures
        range_sources(live, nums, start, end) == Ok::<Seq<Entries>, ErrorView>(
            table_ranges(sources_of(live, nums)->Ok_0, start, end),
        ),
    decreases nums.len(),
{
    if nums.len() > 0 {
        let t = nums.drop_last();
        let n = nums.last();
        lemma_ranges_whole(live, t, start, end);
        law_front_is_all(live[FileId::Sst(n)], table_index(live[FileId::Sst(n)])->Ok_0, 0);
        let before = sources_of(live, t)->Ok_0;
        let es = source_of(live, n)->Ok_0;
        assert(table_ranges(before.push(es), start, end) =~= table_ranges(before, start, end).push(
            range_of(decoded(es), start, end),
        ));
    } else {
        assert(table_ranges(sources_of(live, nums)->Ok_0, start, end) =~= Seq::<Entries>::empty());
    }
}

/// Ranges of the versions of memtables.
pub open spec fn memory_ranges(ms: Seq<Versions>, start: BoundView, end: BoundView) -> Seq<
    Entries,
> {
    ms.map_values(|m: Versions| range_of(entries_of(m), start, end))
}

/// The sources of a scan: the memtable, those set aside, and the table files level by level.
pub open spec fn scan_sources_of(s: EngineView, start: BoundView, end: BoundView) -> Result<
    Seq<Entries>,
    ErrorView,
> {
    match range_sources(s.live, all_nums(s.version), start, end) {
        Err(e) => Err(e),
        Ok(srcs) => Ok(memory_ranges(seq![s.active] + s.immutables, start, end) + srcs),
    }
}

fn add_versions(
    out: &mut Vec<(u64, Option<Vec<u8>>)>,
    entries: &Vec<(InternalKey, MemtableValue)>,
    key: &[u8],
    enough: usize,
)
    requires
        old(out)@.len() <= enough,
    ensures
        key_versions_view(final(out)@) == up_to(
            key_versions_view(old(out)@) + of_key(entries_view(entries@), key@),
            enough as nat,
        ),
        final(out)@.len() <= enough,
{
    let ghost start = key_versions_view(out@);
    let ghost es = entries_view(entries@);
    let mut i: usize = 0;
    proof {
        assert(of_key(es.take(0), key@) =~= Seq::<KeyVersion>::empty());
        assert(start + of_key(es.take(0), key@) =~= start);
    }
    while i < entries.len() && out.len() < enough
        invariant
            i <= entries@.len(),
            out@.len() <= enough,
            es == entries_view(entries@),
            start == key_versions_view(old(out)@),
            key_versions_view(out@) == start + of_key(es.take(i as int), key@),
        decreases entries@.len() - i,
    {
        let (k, v) = &entries[i];
        proof {
            assert(es[i as int] == (k@, v@));
            assert(es.take(i + 1).drop_last() =~= es.take(i as int));
        }
        let ghost before = key_versions_view(out@);
        let ghost sofar = of_key(es.take(i as int), key@);
        if bytes_eq(&k.user_key, key) {
            let copied = value_of(v.copy());
            let ghost x: KeyVersion = (k.seq, v@);
            out.push((k.seq, copied));
            proof {
                assert(key_versions_view(out@) =~= before.push(x));
                assert((start + sofar).push(x) =~= start + sofar.push(x));
            }
        }
        i += 1;
    }
    proof {
        lemma_of_key_prefix(es, key@, i as int);
        let full = start + of_key(es, key@);
        let now = start + of_key(es.take(i as int), key@);
        assert(key_versions_view(out@).len() == out@.len());
        if i == entries@.len() {
            assert(es.take(i as int) =~= es);
        } else {
            assert(now =~= full.take(now.len() as int));
        }
        assert(up_to(full, enough as nat) =~= now);
    }
}

proof fn lemma_of_key_prefix(es: Entries, key: Seq<u8>, i: int)
    requires
        0 <= i <= es.len(),
    ensures
        of_key(es.take(i), key).len() <= of_key(es, key).len(),
        of_key(es.take(i), key) == of_key(es, key).take(of_key(es.take(i), key).len() as int),
    decreases es.len(),
{
    let x = of_key(es.take(i), key);
    if i == es.len() {
        assert(es.take(i) =~= es);
        assert(x.take(x.len() as int) =~= x);
    } else {
        assert(es.drop_last().take(i) =~= es.take(i));
        lemma_of_key_prefix(es.drop_last(), key, i);
        let y = of_key(es.drop_last(), key);
        assert(of_key(es, key).take(x.len() as int) =~= y.take(x.len() as int));
    }
}

/// Cutting a list off twice at the same length.
pub proof fn lemma_up_to_twice(a: Seq<KeyVersion>, b: Seq<KeyVersion>, n: nat)
    ensures
        up_to(up_to(a, n) + b, n) == up_to(a + b, n),
{
    assert(up_to(up_to(a, n) + b, n) =~= up_to(a + b, n));
}

impl LsmEngine {
    /// Tells whether a key has a version after a sequence number.
    pub fn has_write_after(&self, key: &[u8], ts: u64) -> (r: Result<bool, Error>)
        requires
            self.wf(),
        ensures
            ({
                let want = state_written_after(self.state(), key@, ts);
                match r {
                    Ok(b) => want == Ok::<bool, ErrorView>(b),
                    Err(e) => want == Err::<bool, ErrorView>(e@),
                }
            }),
    {
        let ghost s = self.state();
        if self.active.has_write_after(key, ts) {
            return Ok(true);
        }
        let mut i: usize = 0;
        while i < self.immutables.len()
            invariant
                i <= self.immutables@.len(),
                s == self.state(),
                !written_after(s.active, key@, ts),
                forall|j: int| 0 <= j < i ==> !written_after(#[trigger] s.immutables[j], key@, ts),
            decreases self.immutables@.len() - i,
        {
            assert(s.immutables[i as int] == self.immutables@[i as int]@);
            if self.immutables[i].has_write_after(key, ts) {
                return Ok(true);
            }
            i += 1;
        }
        assert(!memory_written_after(s, key@, ts));
        let files = &self.version.levels[0];
        let ghost fs = files_view(files@);
        assert(s.version[0] == fs);
        let mut i: usize = 0;
        while i < files.len()
            invariant
                i <= files@.len(),
                self.wf(),
                s == self.state(),
                fs == files_view(files@),
                s.version[0] == fs,
                !memory_written_after(s, key@, ts),
                level0_written_after(s.live, fs, 0, key@, ts) == level0_written_after(
                    s.live,
                    fs,
                    i as nat,
                    key@,
                    ts,
                ),
            decreases files@.len() - i,
        {
            assert(fs[i as int] == files@[i as int]@);
            match check_sstable_has_write_after(&self.disk, files[i].file_num, key, ts) {
                Ok(true) => {
                    return Ok(true);
                },
                Ok(false) => {},
                Err(e) => {
                    return Err(e);
                },
            }
            i += 1;
        }
        let mut level: usize = 1;
        while level < self.version.levels.len()
            invariant
                1 <= level <= self.version.levels@.len(),
                self.wf(),
                s == self.state(),
                state_written_after(s, key@, ts) == levels_written_after(
                    s.live,
                    s.version,
                    level as nat,
                    key@,
                    ts,
                ),
            decreases self.version.levels@.len() - level,
        {
            let files = &self.version.levels[level];
            let ghost fs = files_view(files@);
            assert(s.version[level as int] == fs);
            let idx = find_candidate(files, key);
            if idx < files.len() {
                assert(fs[idx as int] == files@[idx as int]@);
                match check_sstable_has_write_after(&self.disk, files[idx].file_num, key, ts) {
                    Ok(true) => {
                        return Ok(true);
                    },
                    Ok(false) => {},
                    Err(e) => {
                        return Err(e);
                    },
                }
            }
            level += 1;
        }
        Ok(false)
    }

    /// The numbers of the files of all levels, level by level.
    fn file_numbers(&self) -> (r: Vec<u64>)
        ensures
            r@ == all_nums(self.state().version),
    {
        let ghost v = self.state().version;
        let mut out: Vec<u64> = Vec::new();
        let mut level: usize = 0;
        assert(out@ =~= all_nums(v.take(0)));
        while level < self.version.levels.len()
            invariant
                level <= self.version.levels@.len(),
                v == self.state().version,
                out@ == all_nums(v.take(level as int)),
            decreases self.version.levels@.len() - level,
        {
            let files = &self.version.levels[level];
            let ghost fs = files_view(files@);
            let ghost nums = crate::compaction::nums_of(fs);
            let ghost start = out@;
            proof {
                assert(v.take(level + 1).drop_last() =~= v.take(level as int));
                assert(v.take(level + 1).last() == fs);
            }
            let mut i: usize = 0;
            assert(start + nums.take(0) =~= start);
            while i < files.len()
                invariant
                    i <= files@.len(),
                    fs == files_view(files@),
                    nums == crate::compaction::nums_of(fs),
                    out@ == start + nums.take(i as int),
                decreases files@.len() - i,
            {
                out.push(files[i].file_num);
                proof {
                    assert(nums[i as int] == files@[i as int].file_num);
                    assert(start + nums.take(i + 1) =~= (start + nums.take(i as int)).push(
                        nums[i as int],
                    ));
                }
                i += 1;
            }
            assert(nums.take(i as int) =~= nums);
            level += 1;
        }
        assert(v.take(level as int) =~= v);
        out
    }

    /// Lists the versions of a key, up to a number of them: those in the memtable, in the
    /// memtables set aside, and in the table files level by level.
    pub fn iter_versions(&self, key: &[u8], limit: usize) -> (r: Result<
        Vec<(u64, Option<Vec<u8>>)>,
        Error,
    >)
        requires
            self.wf(),
        ensures
            ({
                let want = versions_listed(self.state(), key@, limit as nat);
                match r {
                    Ok(vs) => want == Ok::<Seq<KeyVersion>, ErrorView>(key_versions_view(vs@)),
                    Err(e) => want == Err::<Seq<KeyVersion>, ErrorView>(e@),
                }
            }),
    {
        let ghost s = self.state();
        let mut out: Vec<(u64, Option<Vec<u8>>)> = Vec::new();
        let entries = self.active.iter();
        proof {
            lemma_entries_of(entries_view(entries@), s.active);
            assert(key_versions_view(out@) =~= Seq::<KeyVersion>::empty());
            assert(Seq::<KeyVersion>::empty() + of_key(entries_of(s.active), key@) =~= of_key(
                entries_of(s.active),
                key@,
            ));
        }
        add_versions(&mut out, &entries, key, limit);
        let ghost first = of_key(entries_of(s.active), key@);
        let mut i: usize = 0;
        assert(first + immutables_versions(s.immutables, 0, key@) =~= first);
        while i < self.immutables.len()
            invariant
                i <= self.immutables@.len(),
                s == self.state(),
                out@.len() <= limit,
                first == of_key(entries_of(s.active), key@),
                key_versions_view(out@) == up_to(
                    first + immutables_versions(s.immutables, i as nat, key@),
                    limit as nat,
                ),
            decreases self.immutables@.len() - i,
        {
            assert(s.immutables[i as int] == self.immutables@[i as int]@);
            let entries = self.immutables[i].iter();
            let ghost sofar = immutables_versions(s.immutables, i as nat, key@);
            let ghost more = of_key(entries_of(s.immutables[i as int]), key@);
            proof {
                lemma_entries_of(entries_view(entries@), s.immutables[i as int]);
                lemma_up_to_twice(first + sofar, more, limit as nat);
                assert((first + sofar) + more =~= first + (sofar + more));
            }
            add_versions(&mut out, &entries, key, limit);
            i += 1;
        }
        let nums = self.file_numbers();
        let mut i: usize = 0;
        while i < nums.len() && out.len() < limit
            invariant
                i <= nums@.len(),
                self.wf(),
                s == self.state(),
                nums@ == all_nums(s.version),
                out@.len() <= limit,
                versions_listed(s, key@, limit as nat) == gathered(
                    s.live,
                    nums@,
                    i as nat,
                    key@,
                    limit as nat,
                    key_versions_view(out@),
                ),
            decreases nums@.len() - i,
        {
            match read_front(&self.disk, nums[i]) {
                Ok((es, why)) => {
                    let entries = decode_entries(&es);
                    add_versions(&mut out, &entries, key, limit);
                    assert(key_versions_view(out@).len() == out@.len());
                    if let Some(e) = why {
                        if out.len() < limit {
                            return Err(e);
                        }
                    }
                },
                Err(e) => {
                    return Err(e);
                },
            }
            i += 1;
        }
        assert(key_versions_view(out@).len() == out@.len());
        Ok(out)
    }

    /// Scans a range of keys at a snapshot: each user key in ascending order with the value of its
    /// newest version at or before the snapshot, without those that are deleted.
    pub fn scan_at_snapshot(&self, start: &KeyBound, end: &KeyBound, snapshot_ts: u64) -> (r: Result<
        Vec<(Vec<u8>, Vec<u8>)>,
        Error,
    >)
        requires
            self.wf(),
        ensures
            ({
                let srcs = scan_sources_of(self.state(), start@, end@);
                match r {
                    Ok(kvs) => srcs is Ok && pairs_view(kvs@) == scanned(srcs->Ok_0, snapshot_ts),
                    Err(e) => srcs is Err && srcs->Err_0 == e@,
                }
            }),
    {
        let ghost s = self.state();
        let ghost mems = seq![s.active] + s.immutables;
        let ghost ranges = memory_ranges(mems, start@, end@);
        let mut sources: Vec<Vec<(InternalKey, MemtableValue)>> = Vec::new();
        let entries = self.active.iter();
        sources.push(keep_range(&entries, start, end));
        proof {
            lemma_entries_of(entries_view(entries@), s.active);
            assert(mems[0] == s.active);
            assert(ranges[0] == range_of(entries_of(s.active), start@, end@));
            assert(version_sources(sources@) =~= ranges.take(1));
        }
        let mut i: usize = 0;
        while i < self.immutables.len()
            invariant
                i <= self.immutables@.len(),
                s == self.state(),
                mems == seq![s.active] + s.immutables,
                ranges == memory_ranges(mems, start@, end@),
                version_sources(sources@) == ranges.take(i + 1),
            decreases self.immutables@.len() - i,
        {
            assert(s.immutables[i as int] == self.immutables@[i as int]@);
            assert(mems[i + 1] == s.immutables[i as int]);
            let entries = self.immutables[i].iter();
            let ghost before = version_sources(sources@);
            let part = keep_range(&entries, start, end);
            let ghost x = entries_view(part@);
            sources.push(part);
            proof {
                lemma_entries_of(entries_view(entries@), s.immutables[i as int]);
                assert(ranges[i + 1] == x);
                assert(version_sources(sources@) =~= before.push(x));
                assert(ranges.take(i + 2) =~= ranges.take(i + 1).push(x));
            }
            i += 1;
        }
        assert(ranges.take(i + 1) =~= ranges);
        let nums = self.file_numbers();
        let ghost mut tables = Seq::<Entries>::empty();
        let mut i: usize = 0;
        proof {
            assert(nums@.take(0) =~= Seq::<u64>::empty());
            assert(ranges + tables =~= ranges);
        }
        while i < nums.len()
            invariant
                i <= nums@.len(),
                self.wf(),
                s == self.state(),
                nums@ == all_nums(s.version),
                range_sources(s.live, nums@.take(i as int), start@, end@) == Ok::<
                    Seq<Entries>,
                    ErrorView,
                >(tables),
                version_sources(sources@) == ranges + tables,
            decreases nums@.len() - i,
        {
            proof {
                assert(nums@.take(i + 1).drop_last() =~= nums@.take(i as int));
                assert(nums@.take(i + 1).last() == nums@[i as int]);
            }
            let (es, why) = match read_front(&self.disk, nums[i]) {
                Ok(front) => front,
                Err(e) => {
                    proof {
                        lemma_ranges_fail(s.live, nums@, start@, end@, i + 1);
                    }
                    return Err(e);
                },
            };
            if let Some(e) = why {
                if !goes_past(&es, start, end) {
                    proof {
                        lemma_ranges_fail(s.live, nums@, start@, end@, i + 1);
                    }
                    return Err(e);
                }
            }
            let entries = decode_entries(&es);
            let part = keep_range(&entries, start, end);
            let ghost before = version_sources(sources@);
            let ghost x = entries_view(part@);
            sources.push(part);
            proof {
                assert(version_sources(sources@) =~= before.push(x));
                assert((ranges + tables).push(x) =~= ranges + tables.push(x));
                tables = tables.push(x);
            }
            i += 1;
        }
        assert(nums@.take(i as int) =~= nums@);
        Ok(scan_sources(&sources, snapshot_ts))
    }

    /// Gives out the changes of files since this was last asked, for a host to carry out. Carried
    /// out in turn, they lead from the files as they were then to the files as they are.
    pub fn take_ops(&mut self) -> (r: Vec<DiskOp>)
        requires
            old(self).wf(),
        ensures
            final(self).wf(),
            final(self).spec_config() == old(self).spec_config(),
            ({
                let s = old(self).state();
                let now = Image { live: s.live, durable: s.durable };
                &&& all_done(s.taken, ops_view(r@)) == now
                &&& final(self).state() == (EngineView { taken: now, ..s })
            }),
    {
        self.disk.take_ops()
    }
}

/// Tells whether a table file holds a version of a user key after a sequence number.
fn check_sstable_has_write_after(disk: &Disk, num: u64, key: &[u8], ts: u64) -> (r: Result<
    bool,
    Error,
>)
    requires
        disk.wf(),
    ensures
        ({
            let want = file_written_after(disk.live(), num, key@, ts);
            match r {
                Ok(b) => want == Ok::<bool, ErrorView>(b),
                Err(e) => want == Err::<bool, ErrorView>(e@),
            }
        }),
{
    let data = match disk.read(FileId::Sst(num)) {
        Some(data) => data,
        None => {
            return Err(no_such_table(num));
        },
    };
    let reader = match SSTableReader::open(data) {
        Ok(reader) => reader,
        Err(e) => {
            return Err(e);
        },
    };
    match reader.find_version(key, u64::MAX) {
        Ok(Some((seq, v))) => Ok(seq > ts && decode_value(&v).is_some()),
        Ok(None) => Ok(false),
        Err(e) => Err(e),
    }
}

/// A key that was just written reads back: a put gives its value, a delete hides the key.
#[verifier::rlimit(40)]
pub proof fn law_read_your_write(
    a: EngineView,
    b: EngineView,
    c: EngineConfig,
    key: Seq<u8>,
    value: ValueView,
)
    requires
        written(a, b, c, key, value, Ok::<(), Error>(())),
        forall|t: u64| #[trigger] a.active.contains_key((key, t)) ==> t <= a.sequence,
    ensures
        read_state(b, key, b.sequence) == Ok::<Option<ValueView>, ErrorView>(Some(value)),
{
    let w: WriteView = (key, value, a.sequence);
    let record = payload_bytes(PayloadView::Kv(w));
    let next = EngineView { sequence: (a.sequence + 1) as u64, ..a };
    let mid = choose|mid: EngineView| #[trigger]
        committed_record(next, mid, c.wal_segment_size, record) && b == stored(
            mid,
            seq![w],
            c.memtable_size,
        );
    lemma_stored_one(mid, w, c.memtable_size);
    let m = mid.active.insert((key, a.sequence), value);
    assert forall|t: u64| a.sequence < t <= b.sequence implies !#[trigger] mid.active.contains_key(
        (key, t),
    ) by {}
    crate::memtable::law_read_after_write(mid.active, key, a.sequence, value, b.sequence);
    if size_after(mid.size, key.len(), value) >= c.memtable_size {
        lemma_empty_lookup(key, b.sequence);
        let n = b.immutables.len();
        assert(b.immutables[n - 1] == m);
    }
}

proof fn lemma_empty_lookup(key: Seq<u8>, at: u64)
    ensures
        lookup_at(Versions::empty(), key, at) is None,
{
    lemma_newest_cases(Versions::empty(), key, at);
}

proof fn lemma_immutables_same(a: Seq<Versions>, b: Seq<Versions>, n: nat, key: Seq<u8>, at: u64)
    requires
        n <= a.len(),
        n <= b.len(),
        forall|i: int| 0 <= i < n ==> a[i] == b[i],
    ensures
        immutables_lookup(a, n, key, at) == immutables_lookup(b, n, key, at),
    decreases n,
{
    if n > 0 {
        assert(a[n - 1] == b[n - 1]);
        lemma_immutables_same(a, b, (n - 1) as nat, key, at);
    }
}

/// Setting the memtable aside changes no read.
pub proof fn law_rotate_keeps_reads(s: EngineView, key: Seq<u8>, at: u64)
    ensures
        read_state(rotated(s), key, at) == read_state(s, key, at),
{
    lemma_empty_lookup(key, at);
    let t = rotated(s);
    let n = t.immutables.len();
    assert(t.immutables[n - 1] == s.active);
    lemma_immutables_same(t.immutables, s.immutables, s.immutables.len(), key, at);
}

proof fn lemma_level0_same(
    a: Files,
    b: Files,
    files: Seq<FileView>,
    n: nat,
    key: Seq<u8>,
    at: u64,
)
    requires
        n <= files.len(),
        forall|i: int|
            0 <= i < n ==> a.contains_key(FileId::Sst((#[trigger] files[i]).file_num))
                == b.contains_key(FileId::Sst(files[i].file_num)) && a[FileId::Sst(
                files[i].file_num,
            )] == b[FileId::Sst(files[i].file_num)],
    ensures
        level0_lookup(a, files, n, key, at) == level0_lookup(b, files, n, key, at),
    decreases n,
{
    if n > 0 {
        assert(a.contains_key(FileId::Sst(files[n - 1].file_num)) == b.contains_key(
            FileId::Sst(files[n - 1].file_num),
        ));
        lemma_level0_same(a, b, files, (n - 1) as nat, key, at);
    }
}

/// Tells whether the table files of a version are the same in two sets of files.
pub open spec fn same_tables(a: Files, b: Files, v: Seq<Seq<FileView>>) -> bool {
    forall|i: int, j: int|
        0 <= i < v.len() && 0 <= j < v[i].len() ==> a.contains_key(
            FileId::Sst((#[trigger] v[i][j]).file_num),
        ) == b.contains_key(FileId::Sst(v[i][j].file_num)) && a[FileId::Sst(v[i][j].file_num)]
            == b[FileId::Sst(v[i][j].file_num)]
}

proof fn lemma_levels_same(
    a: Files,
    b: Files,
    v: Seq<Seq<FileView>>,
    w: Seq<Seq<FileView>>,
    level: nat,
    key: Seq<u8>,
    at: u64,
)
    requires
        level >= 1,
        v.len() == w.len(),
        forall|i: int| 1 <= i < v.len() ==> #[trigger] v[i] == w[i],
        same_tables(a, b, v),
    ensures
        levels_lookup(a, v, level, key, at) == levels_lookup(b, w, level, key, at),
    decreases v.len() - level,
{
    if level < v.len() {
        let files = v[level as int];
        assert(v[level as int] == w[level as int]);
        let i = candidate(files, key);
        if i < files.len() {
            assert(v[level as int][i as int] == files[i as int]);
        }
        lemma_levels_same(a, b, v, w, level + 1, key, at);
    }
}

/// States with the same memtables and the same table files read the same.
pub proof fn lemma_same_reads(a: EngineView, b: EngineView, key: Seq<u8>, at: u64)
    requires
        memory_lookup(a, key, at) == memory_lookup(b, key, at),
        a.version == b.version,
        a.version.len() > 0,
        same_tables(a.live, b.live, a.version),
    ensures
        read_state(a, key, at) == read_state(b, key, at),
{
    let v = a.version;
    assert forall|i: int| 0 <= i < v[0].len() implies a.live.contains_key(
        FileId::Sst((#[trigger] v[0][i]).file_num),
    ) == b.live.contains_key(FileId::Sst(v[0][i].file_num)) && a.live[FileId::Sst(
        v[0][i].file_num,
    )] == b.live[FileId::Sst(v[0][i].file_num)] by {}
    lemma_level0_same(a.live, b.live, v[0], v[0].len(), key, at);
    lemma_levels_same(a.live, b.live, v, v, 1, key, at);
}

/// Tells whether all files of the levels exist.
pub open spec fn tables_present(s: EngineView) -> bool {
    forall|i: int, j: int|
        0 <= i < s.version.len() && 0 <= j < s.version[i].len() ==> s.live.contains_key(
            FileId::Sst((#[trigger] s.version[i][j]).file_num),
        )
}

/// A write changes no read of another key, and no read of its own key at an earlier sequence
/// number: a snapshot does not change.
pub proof fn law_write_keeps_other_reads(
    a: EngineView,
    b: EngineView,
    c: EngineConfig,
    key: Seq<u8>,
    value: ValueView,
    other: Seq<u8>,
    at: u64,
)
    requires
        written(a, b, c, key, value, Ok::<(), Error>(())),
        other != key || at < a.sequence,
        a.version.len() > 0,
        tables_present(a),
    ensures
        read_state(b, other, at) == read_state(a, other, at),
{
    let w: WriteView = (key, value, a.sequence);
    let record = payload_bytes(PayloadView::Kv(w));
    let next = EngineView { sequence: (a.sequence + 1) as u64, ..a };
    let mid = choose|mid: EngineView| #[trigger]
        committed_record(next, mid, c.wal_segment_size, record) && b == stored(
            mid,
            seq![w],
            c.memtable_size,
        );
    lemma_stored_one(mid, w, c.memtable_size);
    crate::memtable::law_snapshot_unchanged(
        mid.active,
        key,
        a.sequence,
        value,
        other,
        at,
    );
    if size_after(mid.size, key.len(), value) >= c.memtable_size {
        lemma_empty_lookup(other, at);
        let n = b.immutables.len();
        assert(b.immutables[n - 1] == mid.active.insert((key, a.sequence), value));
        lemma_immutables_same(b.immutables, a.immutables, a.immutables.len(), other, at);
    }
    assert(same_tables(a.live, b.live, a.version)) by {
        assert(same_but_log(a.live, b.live));
        assert forall|i: int, j: int|
            0 <= i < a.version.len() && 0 <= j < a.version[i].len() implies a.live.contains_key(
            FileId::Sst((#[trigger] a.version[i][j]).file_num),
        ) == b.live.contains_key(FileId::Sst(a.version[i][j].file_num)) && a.live[FileId::Sst(
            a.version[i][j].file_num,
        )] == b.live[FileId::Sst(a.version[i][j].file_num)] by {
            let id = FileId::Sst(a.version[i][j].file_num);
            assert(b.live.contains_key(id) == a.live.contains_key(id));
        }
    }
    lemma_same_reads(a, b, other, at);
}

/// Tells whether the table file of versions is small enough for the numbers that it holds.
pub open spec fn flush_fits(m: Versions, c: EngineConfig) -> bool {
    crate::sstable::table_fits(
        crate::sstable::blocks_of(
            raw_entries(entries_of(m)),
            c.compaction.sstable_config.block_size as nat,
        ),
        Seq::empty(),
    )
}

proof fn lemma_table_file(m: Versions, es: Entries, c: EngineConfig, key: Seq<u8>, at: u64)
    requires
        flush_fits(m, c),
        entries_sorted(es),
        entries_list(es, m),
        es == entries_of(m),
    ensures
        ({
            let d = plain_table(raw_entries(es), c.compaction.sstable_config);
            &&& table_index(d) is Ok
            &&& table_lookup(d, table_index(d)->Ok_0, key, at) == Ok::<
                Option<Seq<u8>>,
                ErrorView,
            >(crate::sstable::found_bytes(lookup_at(m, key, at)))
        }),
{
    let raw = raw_entries(es);
    let blocks = crate::sstable::blocks_of(
        raw,
        c.compaction.sstable_config.block_size as nat,
    );
    crate::sstable::lemma_blocks_of(raw, c.compaction.sstable_config.block_size as nat);
    crate::sstable::law_table_blocks(blocks, Seq::empty());
    crate::sstable::law_table_lookup(blocks, Seq::empty(), es, m, key, at);
}

proof fn lemma_new_file(
    live: Files,
    num: u64,
    m: Versions,
    es: Entries,
    c: EngineConfig,
    key: Seq<u8>,
    at: u64,
)
    requires
        flush_fits(m, c),
        entries_sorted(es),
        entries_list(es, m),
        live.contains_key(FileId::Sst(num)),
        live[FileId::Sst(num)] == plain_table(raw_entries(es), c.compaction.sstable_config),
    ensures
        file_lookup(live, num, key, at) == Ok::<Option<ValueView>, ErrorView>(
            lookup_at(m, key, at),
        ),
{
    lemma_entries_of(es, m);
    lemma_table_file(m, es, c, key, at);
    lemma_file_found(live, num, key, at, lookup_at(m, key, at));
}

proof fn lemma_file_found(live: Files, num: u64, key: Seq<u8>, at: u64, v: Option<ValueView>)
    requires
        live.contains_key(FileId::Sst(num)),
        table_index(live[FileId::Sst(num)]) is Ok,
        table_lookup(
            live[FileId::Sst(num)],
            table_index(live[FileId::Sst(num)])->Ok_0,
            key,
            at,
        ) == Ok::<Option<Seq<u8>>, ErrorView>(crate::sstable::found_bytes(v)),
    ensures
        file_lookup(live, num, key, at) == Ok::<Option<ValueView>, ErrorView>(v),
{
    match v {
        Some(x) => {
            crate::sstable::law_value_round_trip(x);
        },
        None => {},
    }
}

/// Moving what the oldest memtable set aside holds to a new, newest file of level 0 changes no
/// read.
proof fn lemma_moved_reads(s: EngineView, b: EngineView, f: Option<FileView>, key: Seq<u8>, at: u64)
    requires
        s.immutables.len() > 0,
        s.version.len() > 0,
        b.active == s.active,
        b.immutables == s.immutables.drop_first(),
        same_tables(s.live, b.live, s.version),
        match f {
            Some(f) => b.version == s.version.update(0, s.version[0].push(f)) && file_lookup(
                b.live,
                f.file_num,
                key,
                at,
            ) == Ok::<Option<ValueView>, ErrorView>(lookup_at(s.immutables[0], key, at)),
            None => b.version == s.version && lookup_at(s.immutables[0], key, at) is None,
        },
    ensures
        read_state(b, key, at) == read_state(s, key, at),
{
    let v0 = s.version;
    let files = v0[0];
    lemma_immutables_shift(s.immutables, s.immutables.len(), key, at);
    assert forall|i: int| 0 <= i < files.len() implies s.live.contains_key(
        FileId::Sst((#[trigger] files[i]).file_num),
    ) == b.live.contains_key(FileId::Sst(files[i].file_num)) && s.live[FileId::Sst(
        files[i].file_num,
    )] == b.live[FileId::Sst(files[i].file_num)] by {
        assert(v0[0][i] == files[i]);
    }
    lemma_level0_same(s.live, b.live, files, files.len(), key, at);
    lemma_levels_same(s.live, b.live, v0, b.version, 1, key, at);
    if f is Some {
        let n = b.version[0].len();
        assert(b.version[0][n - 1] == f->0);
        lemma_level0_prefix(b.live, b.version[0], files, files.len(), key, at);
    }
}

/// Flushing the oldest memtable set aside changes no read, whether it succeeds or not: what the
/// memtable held is found in the newest file of level 0 instead, or still in the memtable.
#[verifier::rlimit(40)]
pub proof fn law_flush_keeps_reads(
    s: EngineView,
    c: EngineConfig,
    es: Entries,
    key: Seq<u8>,
    at: u64,
)
    requires
        s.immutables.len() > 0,
        entries_sorted(es),
        entries_list(es, s.immutables[0]),
        flush_fits(s.immutables[0], c),
        s.version.len() > 0,
        tables_present(s),
    ensures
        read_state(flushed_one(s, c).0, key, at) == read_state(s, key, at),
{
    let m = s.immutables[0];
    let b = flushed_one(s, c).0;
    let num = s.next_file_num;
    let id = FileId::Sst(num);
    let sc = c.compaction.sstable_config;
    lemma_entries_of(es, m);
    let raw = raw_entries(es);
    let v0 = s.version;
    assert(flushed_one(s, c).1 is None ==> b.live.contains_key(id) && b.live[id] == plain_table(
        raw,
        sc,
    ));
    assert(same_tables(s.live, b.live, v0)) by {
        assert forall|i: int, j: int| 0 <= i < v0.len() && 0 <= j < v0[i].len() implies
            s.live.contains_key(FileId::Sst((#[trigger] v0[i][j]).file_num))
            == b.live.contains_key(FileId::Sst(v0[i][j].file_num)) && s.live[FileId::Sst(
            v0[i][j].file_num,
        )] == b.live[FileId::Sst(v0[i][j].file_num)] by {
            assert(s.live.contains_key(FileId::Sst(v0[i][j].file_num)));
        }
    }
    if flushed_one(s, c).1 is Some {
    } else if raw.len() == 0 {
        assert(es.len() == 0);
        lemma_newest_cases(m, key, at);
        if newest_at(m, key, at) is Some {
            let u = newest_at(m, key, at)->0;
            let i = choose|i: int| 0 <= i < es.len() && (#[trigger] es[i]).0 == (key, u);
        }
        lemma_moved_reads(s, b, None, key, at);
    } else {
        lemma_new_file(b.live, num, m, es, c, key, at);
        lemma_moved_reads(s, b, Some(made_file(num, raw, sc)), key, at);
    }
}

proof fn lemma_level0_prefix(
    live: Files,
    a: Seq<FileView>,
    b: Seq<FileView>,
    n: nat,
    key: Seq<u8>,
    at: u64,
)
    requires
        n <= a.len(),
        n <= b.len(),
        forall|i: int| 0 <= i < n ==> a[i] == b[i],
    ensures
        level0_lookup(live, a, n, key, at) == level0_lookup(live, b, n, key, at),
    decreases n,
{
    if n > 0 {
        assert(a[n - 1] == b[n - 1]);
        lemma_level0_prefix(live, a, b, (n - 1) as nat, key, at);
    }
}

proof fn lemma_immutables_shift(ms: Seq<Versions>, n: nat, key: Seq<u8>, at: u64)
    requires
        0 < n <= ms.len(),
    ensures
        immutables_lookup(ms, n, key, at) == (match immutables_lookup(
            ms.drop_first(),
            (n - 1) as nat,
            key,
            at,
        ) {
            Some(v) => Some(v),
            None => lookup_at(ms[0], key, at),
        }),
    decreases n,
{
    if n > 1 {
        assert(ms.drop_first()[n - 2] == ms[n - 1]);
        lemma_immutables_shift(ms, (n - 1) as nat, key, at);
    } else {
        reveal_with_fuel(immutables_lookup, 2);
    }
}

impl LsmEngine {
    /// The log of an engine ends with the segment in use, and a crash takes no file away.
    pub proof fn law_log_placed(&self)
        requires
            self.wf(),
        ensures
            log_placed(self.state()),
    {
        self.disk.lemma_domains();
    }
}

/// Adding writes to versions makes all of them take effect.
pub proof fn law_writes_added(m: Versions, ws: Seq<WriteView>)
    ensures
        took_effect(m, with_writes(m, ws), ws),
    decreases ws.len(),
{
    if ws.len() > 0 {
        law_writes_added(m, ws.drop_last());
        lemma_took_effect_push(m, with_writes(m, ws.drop_last()), ws.drop_last(), ws.last());
        assert(ws.drop_last().push(ws.last()) =~= ws);
    }
}

proof fn lemma_writes_keep_lookup(m: Versions, ws: Seq<WriteView>, other: Seq<u8>, at: u64)
    requires
        forall|i: int| 0 <= i < ws.len() ==> (#[trigger] ws[i]).0 != other || at < ws[i].2,
    ensures
        lookup_at(with_writes(m, ws), other, at) == lookup_at(m, other, at),
    decreases ws.len(),
{
    if ws.len() > 0 {
        let t = ws.drop_last();
        let w = ws.last();
        assert forall|i: int| 0 <= i < t.len() implies (#[trigger] t[i]).0 != other || at
            < t[i].2 by {
            assert(t[i] == ws[i]);
        }
        lemma_writes_keep_lookup(m, t, other, at);
        assert(ws[ws.len() - 1] == w);
        crate::memtable::law_snapshot_unchanged(with_writes(m, t), w.0, w.2, w.1, other, at);
    }
}

/// A version that was stored is read at its sequence number.
proof fn lemma_stored_read(s: EngineView, ws: Seq<WriteView>, max_size: usize, i: int)
    requires
        0 <= i < ws.len(),
        last_of_version(ws, i),
    ensures
        read_state(stored(s, ws, max_size), ws[i].0, ws[i].2) == Ok::<
            Option<ValueView>,
            ErrorView,
        >(Some(ws[i].1)),
{
    law_writes_added(s.active, ws);
    let m = with_writes(s.active, ws);
    let (key, t) = (ws[i].0, ws[i].2);
    assert(m.contains_key((key, t)) && m[(key, t)] == ws[i].1);
    crate::memtable::lemma_newest_at(m, key, t, t);
    let b = stored(s, ws, max_size);
    if size_with(s.size, ws) >= max_size {
        lemma_empty_lookup(key, t);
        let n = b.immutables.len();
        assert(b.immutables[n - 1] == m);
    }
}

/// Storing writes changes no read that does not see them.
proof fn lemma_stored_keeps(
    a: EngineView,
    mid: EngineView,
    ws: Seq<WriteView>,
    max_size: usize,
    other: Seq<u8>,
    at: u64,
)
    requires
        only_log_changed(a, mid),
        a.version.len() > 0,
        tables_present(a),
        forall|i: int| 0 <= i < ws.len() ==> (#[trigger] ws[i]).0 != other || at < ws[i].2,
    ensures
        read_state(stored(mid, ws, max_size), other, at) == read_state(a, other, at),
{
    let b = stored(mid, ws, max_size);
    lemma_writes_keep_lookup(mid.active, ws, other, at);
    if size_with(mid.size, ws) >= max_size {
        lemma_empty_lookup(other, at);
        let n = b.immutables.len();
        assert(b.immutables[n - 1] == with_writes(mid.active, ws));
        lemma_immutables_same(b.immutables, a.immutables, a.immutables.len(), other, at);
    }
    assert(same_tables(a.live, b.live, a.version)) by {
        assert forall|i: int, j: int|
            0 <= i < a.version.len() && 0 <= j < a.version[i].len() implies a.live.contains_key(
            FileId::Sst((#[trigger] a.version[i][j]).file_num),
        ) == b.live.contains_key(FileId::Sst(a.version[i][j].file_num)) && a.live[FileId::Sst(
            a.version[i][j].file_num,
        )] == b.live[FileId::Sst(a.version[i][j].file_num)] by {
            let id = FileId::Sst(a.version[i][j].file_num);
            assert(b.live.contains_key(id) == a.live.contains_key(id));
        }
    }
    lemma_same_reads(a, b, other, at);
}

/// Tells whether no later write of a batch is of the same key.
pub open spec fn last_in_batch(writes: Seq<(Vec<u8>, Option<Vec<u8>>)>, i: int) -> bool {
    forall|j: int| i < j < writes.len() ==> (#[trigger] writes[j]).0@ != writes[i].0@
}

/// After a batch is acknowledged each of its keys reads, at the commit timestamp, what the last
/// write of the key in the batch says: its value, or nothing where it is a delete.
pub proof fn law_read_your_batch(
    a: EngineView,
    b: EngineView,
    c: EngineConfig,
    writes: Seq<(Vec<u8>, Option<Vec<u8>>)>,
    ts: u64,
    i: int,
)
    requires
        batch_written(a, b, c, writes, ts, Ok::<(), Error>(())),
        0 <= i < writes.len(),
        last_in_batch(writes, i),
    ensures
        read_state(b, writes[i].0@, ts) == Ok::<Option<ValueView>, ErrorView>(
            Some(
                match writes[i].1 {
                    Some(v) => Some(v@),
                    None => None,
                },
            ),
        ),
{
    let ws = stamped(writes, ts);
    let record = payload_bytes(PayloadView::Batch(ws));
    let mid = choose|mid: EngineView| #[trigger]
        committed_record(a, mid, c.wal_segment_size, record) && b == stamped_state(
            stored(mid, ws, c.memtable_size),
            ts,
        );
    assert(ws[i] == (writes[i].0@, opt_view(writes[i].1), ts));
    assert forall|j: int| i < j < ws.len() implies (#[trigger] ws[j]).0 != ws[i].0 || ws[j].2
        != ws[i].2 by {
        assert(ws[j].0 == writes[j].0@);
    }
    lemma_stored_read(mid, ws, c.memtable_size, i);
}

/// A batch changes no read of a key that it does not write, and no read before its commit
/// timestamp.
pub proof fn law_batch_keeps_other_reads(
    a: EngineView,
    b: EngineView,
    c: EngineConfig,
    writes: Seq<(Vec<u8>, Option<Vec<u8>>)>,
    ts: u64,
    other: Seq<u8>,
    at: u64,
)
    requires
        batch_written(a, b, c, writes, ts, Ok::<(), Error>(())),
        at < ts || forall|i: int| 0 <= i < writes.len() ==> (#[trigger] writes[i]).0@ != other,
        a.version.len() > 0,
        tables_present(a),
    ensures
        read_state(b, other, at) == read_state(a, other, at),
{
    if writes.len() > 0 {
        let ws = stamped(writes, ts);
        let record = payload_bytes(PayloadView::Batch(ws));
        let mid = choose|mid: EngineView| #[trigger]
            committed_record(a, mid, c.wal_segment_size, record) && b == stamped_state(
                stored(mid, ws, c.memtable_size),
                ts,
            );
        assert forall|i: int| 0 <= i < ws.len() implies (#[trigger] ws[i]).0 != other || at
            < ws[i].2 by {
            assert(ws[i] == (writes[i].0@, opt_view(writes[i].1), ts));
            assert(at < ts || writes[i].0@ != other);
        }
        lemma_stored_keeps(a, mid, ws, c.memtable_size, other, at);
    }
}

/// Tells whether the numbers of an engine are past a commit timestamp, and rose no further than
/// that asks for.
pub open spec fn stamp_noted(a: EngineView, b: EngineView, ts: u64) -> bool {
    &&& b.max_commit_ts >= ts && b.max_commit_ts >= a.max_commit_ts
    &&& b.max_commit_ts == ts || b.max_commit_ts == a.max_commit_ts
    &&& b.sequence > ts && b.sequence >= a.sequence
    &&& b.sequence == ts + 1 || b.sequence == a.sequence
    &&& b.max_txn_id == a.max_txn_id
}

/// A batch raises the largest commit timestamp and the next sequence number past its commit
/// timestamp. An empty one changes nothing, and neither does one whose timestamp is out of range.
pub proof fn law_batch_notes_stamp(
    a: EngineView,
    b: EngineView,
    c: EngineConfig,
    writes: Seq<(Vec<u8>, Option<Vec<u8>>)>,
    ts: u64,
    r: Result<(), Error>,
)
    requires
        batch_written(a, b, c, writes, ts, r),
    ensures
        r is Ok && writes.len() > 0 ==> stamp_noted(a, b, ts),
        writes.len() == 0 ==> r is Ok && b == a,
        writes.len() > 0 && ts >= WAL_BATCH_MAGIC ==> r is Err && b == a,
        r is Err ==> b.active == a.active && b.immutables == a.immutables && b.live == a.live
            && b.durable == a.durable && b.version == a.version && b.sequence == a.sequence
            && b.max_commit_ts == a.max_commit_ts,
{
}

/// After a put under a commit timestamp the key reads its value at that timestamp, and the
/// numbers of the engine are past it. A refused one changes nothing.
pub proof fn law_read_your_versioned_put(
    a: EngineView,
    b: EngineView,
    c: EngineConfig,
    key: Seq<u8>,
    value: Seq<u8>,
    ts: u64,
    r: Result<(), Error>,
)
    requires
        put_at(a, b, c, key, value, ts, r),
    ensures
        r is Ok ==> read_state(b, key, ts) == Ok::<Option<ValueView>, ErrorView>(Some(Some(value))),
        r is Ok ==> stamp_noted(a, b, ts),
        ts >= WAL_BATCH_MAGIC ==> r is Err,
        r is Err ==> b == a,
{
    if r is Ok {
        let w: WriteView = (key, Some(value), ts);
        let record = payload_bytes(PayloadView::Kv(w));
        let mid = choose|mid: EngineView| #[trigger]
            appended_record(a, mid, c.wal_segment_size, record) && b == stamped_state(
                stored(mid, seq![w], c.memtable_size),
                ts,
            );
        let ws = seq![w];
        assert(ws[0] == w);
        lemma_stored_read(mid, ws, c.memtable_size, 0);
    }
}

/// A put under a commit timestamp changes no read of another key and no read before the
/// timestamp.
pub proof fn law_versioned_put_keeps_other_reads(
    a: EngineView,
    b: EngineView,
    c: EngineConfig,
    key: Seq<u8>,
    value: Seq<u8>,
    ts: u64,
    other: Seq<u8>,
    at: u64,
)
    requires
        put_at(a, b, c, key, value, ts, Ok::<(), Error>(())),
        other != key || at < ts,
        a.version.len() > 0,
        tables_present(a),
    ensures
        read_state(b, other, at) == read_state(a, other, at),
{
    let w: WriteView = (key, Some(value), ts);
    let record = payload_bytes(PayloadView::Kv(w));
    let mid = choose|mid: EngineView| #[trigger]
        appended_record(a, mid, c.wal_segment_size, record) && b == stamped_state(
            stored(mid, seq![w], c.memtable_size),
            ts,
        );
    let ws = seq![w];
    lemma_stored_keeps(a, mid, ws, c.memtable_size, other, at);
}

/// After a delete under a commit timestamp the key reads as deleted at that timestamp; other keys,
/// and earlier reads of the same one, do not change. A refused one changes nothing.
pub proof fn law_versioned_delete_reads(
    a: EngineView,
    b: EngineView,
    c: EngineConfig,
    key: Seq<u8>,
    ts: u64,
    other: Seq<u8>,
    at: u64,
    r: Result<(), Error>,
)
    requires
        versioned(a, b, c, (key, None, ts), r),
        a.version.len() > 0,
        tables_present(a),
    ensures
        r is Ok ==> read_state(b, key, ts) == Ok::<Option<ValueView>, ErrorView>(Some(None)),
        r is Ok && (other != key || at < ts) ==> read_state(b, other, at) == read_state(
            a,
            other,
            at,
        ),
        ts >= WAL_BATCH_MAGIC ==> r is Err,
        r is Err ==> b == a,
{
    if r is Ok {
        let w: WriteView = (key, None, ts);
        let record = payload_bytes(PayloadView::Kv(w));
        let mid = choose|mid: EngineView| #[trigger]
            appended_record(a, mid, c.wal_segment_size, record) && b == stored(
                mid,
                seq![w],
                c.memtable_size,
            );
        let ws = seq![w];
        assert(ws[0] == w);
        lemma_stored_read(mid, ws, c.memtable_size, 0);
        if other != key || at < ts {
            lemma_stored_keeps(a, mid, ws, c.memtable_size, other, at);
        }
    }
}

/// What a transaction writes to the log is not read before the database is opened again: no read
/// changes by it.
pub proof fn law_log_append_keeps_reads(
    a: EngineView,
    b: EngineView,
    size: u64,
    p: PayloadView,
    r: Result<(), Error>,
    key: Seq<u8>,
    at: u64,
)
    requires
        logged(a, b, size, p, r),
        a.version.len() > 0,
        tables_present(a),
    ensures
        read_state(b, key, at) == read_state(a, key, at),
        b.sequence == a.sequence,
        b.max_commit_ts == a.max_commit_ts,
        b.max_txn_id == a.max_txn_id,
        r is Err ==> b == a,
{
    if r is Ok {
        lemma_stored_keeps(a, b, Seq::empty(), usize::MAX, key, at);
        lemma_nothing_stored(b, key, at);
    }
}

proof fn lemma_nothing_stored(s: EngineView, key: Seq<u8>, at: u64)
    ensures
        read_state(stored(s, Seq::empty(), usize::MAX), key, at) == read_state(s, key, at),
{
    let ws = Seq::<WriteView>::empty();
    assert(with_writes(s.active, ws) == s.active);
    assert(size_with(s.size, ws) == s.size);
    if s.size >= usize::MAX {
        law_rotate_keeps_reads(s, key, at);
        assert(stored(s, ws, usize::MAX) == rotated(s));
    } else {
        assert(stored(s, ws, usize::MAX) == s);
    }
}

/// The commit of a transaction in the log changes no read; the largest numbers cover those of the
/// transaction, and rise no further. A refused one changes nothing.
pub proof fn law_commit_append_notes(
    a: EngineView,
    b: EngineView,
    size: u64,
    txn_id: u64,
    ts: u64,
    r: Result<(), Error>,
    key: Seq<u8>,
    at: u64,
)
    requires
        commit_logged(a, b, size, txn_id, ts, r),
        a.version.len() > 0,
        tables_present(a),
    ensures
        read_state(b, key, at) == read_state(a, key, at),
        r is Ok ==> {
            &&& b.max_txn_id >= txn_id && b.max_txn_id >= a.max_txn_id
            &&& b.max_txn_id == txn_id || b.max_txn_id == a.max_txn_id
            &&& b.max_commit_ts >= ts && b.max_commit_ts >= a.max_commit_ts
            &&& b.max_commit_ts == ts || b.max_commit_ts == a.max_commit_ts
        },
        b.sequence == a.sequence,
        r is Err ==> b == a,
{
    if r is Ok {
        let record = payload_bytes(PayloadView::TxnCommit(txn_id, ts));
        let mid = choose|mid: EngineView| #[trigger]
            appended_record(a, mid, size, record) && b == (EngineView {
                max_txn_id: larger(mid.max_txn_id, txn_id),
                max_commit_ts: larger(mid.max_commit_ts, ts),
                ..mid
            });
        lemma_stored_keeps(a, mid, Seq::empty(), usize::MAX, key, at);
        lemma_nothing_stored(mid, key, at);
        assert(read_state(b, key, at) == read_state(mid, key, at));
    }
}

/// A flush that succeeds leaves no memtable set aside; one that fails leaves the newer of them. The
/// memtable in use and the numbers of the engine stay.
pub proof fn law_flush_leaves_none(s: EngineView, c: EngineConfig)
    ensures
        ({
            let (t, e) = flushed_all(s, c);
            let n = t.immutables.len() as int;
            &&& e is None ==> n == 0
            &&& n <= s.immutables.len()
            &&& t.immutables == s.immutables.skip(s.immutables.len() - n)
            &&& t.active == s.active
            &&& t.size == s.size
            &&& t.sequence == s.sequence
            &&& t.max_commit_ts == s.max_commit_ts
            &&& t.max_txn_id == s.max_txn_id
            &&& t.watermark == s.watermark
        }),
    decreases s.immutables.len(),
{
    if s.immutables.len() > 0 {
        let (t, e) = flushed_one(s, c);
        if e is None {
            law_flush_leaves_none(t, c);
            let u = flushed_all(t, c).0;
            let n = u.immutables.len() as int;
            assert(t.immutables.skip(t.immutables.len() - n) =~= s.immutables.skip(
                s.immutables.len() - n,
            ));
        } else {
            assert(s.immutables.skip(0) =~= s.immutables);
        }
    } else {
        assert(s.immutables.skip(0) =~= s.immutables);
    }
}

/// Flushing a memtable that is not empty puts one file more on level 0, behind the others, under
/// the next file number; the file is there, and is there after a crash. No other level changes, no
/// table file goes, and an empty memtable makes no file of a level.
pub proof fn law_flush_adds_file(s: EngineView, c: EngineConfig, num: u64)
    requires
        s.immutables.len() > 0,
        s.version.len() > 0,
        flushed_one(s, c).1 is None,
    ensures
        ({
            let t = flushed_one(s, c).0;
            let es = entries_of(s.immutables[0]);
            let f = t.version[0].last();
            &&& t.version.len() == s.version.len()
            &&& forall|l: int| 1 <= l < s.version.len() ==> #[trigger] t.version[l] == s.version[l]
            &&& es.len() == 0 ==> t.version[0] == s.version[0]
            &&& es.len() > 0 ==> {
                &&& t.version[0].len() == s.version[0].len() + 1
                &&& t.version[0].drop_last() == s.version[0]
                &&& f.file_num == s.next_file_num
                &&& f.smallest_key == key_bytes(es[0].0)
                &&& f.largest_key == key_bytes(es.last().0)
                &&& t.live.contains_key(FileId::Sst(f.file_num))
                &&& t.durable.contains_key(FileId::Sst(f.file_num))
                &&& t.live[FileId::Sst(f.file_num)] == t.durable[FileId::Sst(f.file_num)]
            }
            &&& t.next_file_num == s.next_file_num + 1
            &&& s.live.contains_key(FileId::Sst(num)) ==> t.live.contains_key(FileId::Sst(num))
                && t.live[FileId::Sst(num)] == s.live[FileId::Sst(num)]
        }),
{
    let t = flushed_one(s, c).0;
    let es = entries_of(s.immutables[0]);
    let raw = raw_entries(es);
    assert(raw.len() == es.len());
    if es.len() > 0 {
        assert(raw[0] == raw_entry(es[0]) && raw[raw.len() - 1] == raw_entry(es.last()));
        assert(t.version[0].drop_last() =~= s.version[0]);
    }
}

proof fn lemma_without_removes(files: Files, nums: Seq<u64>, i: int)
    requires
        0 <= i < nums.len(),
    ensures
        !without_tables(files, nums).contains_key(FileId::Sst(nums[i])),
    decreases nums.len(),
{
    if i < nums.len() - 1 {
        lemma_without_removes(files, nums.drop_last(), i);
        assert(nums.drop_last()[i] == nums[i]);
    }
}

/// A compaction that succeeds removes the files that it merged, from the disk and for what comes
/// after a crash, and takes as many file numbers as it made files; one that fails changes nothing.
pub proof fn law_compaction_removes_merged(
    s: EngineView,
    c: EngineConfig,
    t: TaskView,
    watermark: Option<u64>,
    i: int,
)
    requires
        0 <= i < t.input_files.len() + t.output_level_files.len(),
    ensures
        ({
            let (b, e) = compacted(s, c, t, watermark);
            let num = if i < t.input_files.len() {
                t.input_files[i].file_num
            } else {
                t.output_level_files[i - t.input_files.len()].file_num
            };
            &&& e is None ==> !b.live.contains_key(FileId::Sst(num)) && !b.durable.contains_key(
                FileId::Sst(num),
            )
            &&& e is Some ==> b == s
            &&& b.active == s.active && b.immutables == s.immutables && b.sequence == s.sequence
                && b.max_commit_ts == s.max_commit_ts && b.max_txn_id == s.max_txn_id
        }),
{
    if compacted(s, c, t, watermark).1 is None {
        let files = compaction_outcome(
            s.live,
            t,
            watermark,
            c.compaction,
            s.next_file_num,
        )->Ok_0;
        let nums = task_nums(t);
        let sc = c.compaction.sstable_config;
        lemma_without_removes(
            with_tables(s.live, s.next_file_num, files, sc, files.len()),
            nums,
            i,
        );
        lemma_without_removes(
            with_tables(s.durable, s.next_file_num, files, sc, files.len()),
            nums,
            i,
        );
    }
}

/// Tells whether nothing asks for a compaction: level 0 has fewer files than start one, or none,
/// and no level but the last is larger than it should be.
pub open spec fn at_rest(c: EngineConfig, v: Seq<Seq<FileView>>) -> bool {
    ||| v[0].len() == 0 && c.compaction.l0_compaction_trigger == 0
    ||| v[0].len() < c.compaction.l0_compaction_trigger && forall|m: int|
        1 <= m ==> !#[trigger] oversized(c.compaction, v, m)
}

/// A round of compaction that says there was nothing to do changes nothing, and there was nothing;
/// one that says it did something had something to do; one that fails changes nothing.
pub proof fn law_round_told(
    a: EngineView,
    b: EngineView,
    c: EngineConfig,
    watermark: Option<u64>,
    r: Result<bool, Error>,
)
    requires
        compaction_round(a, b, c, watermark, r),
        a.version.len() >= 2,
    ensures
        r is Ok && !r->Ok_0 ==> b == a,
        r is Ok && !r->Ok_0 <==> at_rest(c, a.version),
        r is Err ==> b == a,
        r is Ok && r->Ok_0 ==> b.next_file_num >= a.next_file_num && b.version.len()
            == a.version.len(),
{
    law_pick(c.compaction, a.version);
    lemma_picked_level(c.compaction, a.version);
    if let Some(t) = picked(c.compaction, a.version) {
        if t.level > 0 {
            assert(oversized(c.compaction, a.version, t.level as int));
        }
    }
}

/// Compacting all goes on until nothing asks for a compaction.
pub proof fn law_compact_all_settles(a: EngineView, b: EngineView, c: EngineConfig)
    requires
        compacted_fully(a, b, c, Ok::<(), Error>(())),
        b.version.len() >= 2,
    ensures
        at_rest(c, b.version),
{
    let trace = choose|trace: Seq<EngineView>| #[trigger]
        rounds_lead(c, trace) && trace[0] == a && compaction_round(
            trace.last(),
            b,
            c,
            trace.last().watermark,
            Ok::<bool, Error>(false),
        );
    let last = trace.last();
    if last.version.len() >= 2 {
        law_round_told(last, b, c, last.watermark, Ok::<bool, Error>(false));
    }
}

/// A put or a delete takes the next sequence number and leaves the one after it; what it wrote is
/// read from that number on. A refused one writes nothing.
pub proof fn law_write_takes_number(
    a: EngineView,
    b: EngineView,
    c: EngineConfig,
    key: Seq<u8>,
    value: ValueView,
    r: Result<(), Error>,
)
    requires
        written(a, b, c, key, value, r),
    ensures
        r is Ok ==> b.sequence == a.sequence + 1,
        r is Ok ==> read_state(b, key, a.sequence) == Ok::<Option<ValueView>, ErrorView>(Some(value)),
        r is Ok ==> b.max_commit_ts == a.max_commit_ts && b.max_txn_id == a.max_txn_id,
        r is Err ==> b.active == a.active && b.immutables == a.immutables && b.live == a.live
            && b.durable == a.durable && b.version == a.version,
        a.sequence >= WAL_BATCH_MAGIC ==> r is Err && b == a,
{
    if r is Ok {
        let w: WriteView = (key, value, a.sequence);
        let record = payload_bytes(PayloadView::Kv(w));
        let next = EngineView { sequence: (a.sequence + 1) as u64, ..a };
        let mid = choose|mid: EngineView| #[trigger]
            committed_record(next, mid, c.wal_segment_size, record) && b == stored(
                mid,
                seq![w],
                c.memtable_size,
            );
        let ws = seq![w];
        assert(ws[0] == w);
        lemma_stored_read(mid, ws, c.memtable_size, 0);
    }
}

/// The memtable is set aside exactly where what it counts has reached the limit: the bytes of its
/// keys and values and eight for each version. Nothing of it is lost, and the older ones stay.
pub proof fn law_full_memtable_set_aside(s: EngineView, w: WriteView, max_size: usize)
    ensures
        ({
            let t = stored(s, seq![w], max_size);
            let n = s.size + w.0.len() + 8 + match w.1 {
                Some(v) => v.len(),
                None => 0,
            };
            let full = n >= max_size;
            &&& full ==> t.immutables.len() == s.immutables.len() + 1 && t.size == 0
                && t.immutables.drop_last() == s.immutables && t.immutables.last()
                == s.active.insert((w.0, w.2), w.1) && t.active == Versions::empty()
            &&& !full ==> t.immutables == s.immutables && t.size == n && t.active
                == s.active.insert((w.0, w.2), w.1)
        }),
{
    lemma_stored_one(s, w, max_size);
    let t = stored(s, seq![w], max_size);
    if t.immutables.len() > s.immutables.len() {
        assert(t.immutables.drop_last() =~= s.immutables);
    }
}

/// A write that is acknowledged is one commit and one sync, and its commit number is durable.
pub proof fn law_write_counted(
    a: EngineView,
    b: EngineView,
    c: EngineConfig,
    key: Seq<u8>,
    value: ValueView,
)
    requires
        written(a, b, c, key, value, Ok::<(), Error>(())),
        a.commit.stats.total_commits < u64::MAX,
        a.commit.stats.total_fsyncs < u64::MAX,
        a.commit.next_seq < u64::MAX,
    ensures
        b.commit.stats.total_commits == a.commit.stats.total_commits + 1,
        b.commit.stats.total_fsyncs == a.commit.stats.total_fsyncs + 1,
        b.commit.durable_seq == a.commit.next_seq,
        b.commit.next_seq == a.commit.next_seq + 1,
{
}

/// A put or a delete is accepted as long as there are numbers left and the log can hold it: the key
/// and the value with what goes with them are no longer than a record may be, and a segment has room
/// for more than a header.
pub proof fn law_write_accepted(
    a: EngineView,
    b: EngineView,
    c: EngineConfig,
    key: Seq<u8>,
    value: ValueView,
    r: Result<(), Error>,
)
    requires
        written(a, b, c, key, value, r),
        a.sequence < WAL_BATCH_MAGIC,
        a.commit.next_seq < u64::MAX,
        c.wal_segment_size > 9,
        a.wal_segment < u64::MAX - u32::MAX - 2,
        key.len() + 17 + match value {
            Some(v) => v.len(),
            None => 0,
        } <= u32::MAX,
    ensures
        r is Ok,
{
    let w: WriteView = (key, value, a.sequence);
    crate::codec::lemma_le_fixed(key.len() as u32, a.sequence);
    if let Some(v) = value {
        crate::codec::lemma_le_fixed(v.len() as u32, a.sequence);
    }
    assert(payload_bytes(PayloadView::Kv(w)).len() <= u32::MAX);
}

/// A batch is accepted as long as its timestamp is in range, there are commit numbers left and the
/// log can hold it.
pub proof fn law_batch_accepted(
    a: EngineView,
    b: EngineView,
    c: EngineConfig,
    writes: Seq<(Vec<u8>, Option<Vec<u8>>)>,
    ts: u64,
    r: Result<(), Error>,
)
    requires
        batch_written(a, b, c, writes, ts, r),
        ts < WAL_BATCH_MAGIC,
        a.commit.next_seq < u64::MAX,
        c.wal_segment_size > 9,
        a.wal_segment < u64::MAX - u32::MAX - 2,
        payload_bytes(PayloadView::Batch(stamped(writes, ts))).len() <= u32::MAX,
    ensures
        r is Ok,
{
}

/// A put under a commit timestamp is accepted as long as the timestamp is in range and the log can
/// hold it.
pub proof fn law_versioned_put_accepted(
    a: EngineView,
    b: EngineView,
    c: EngineConfig,
    key: Seq<u8>,
    value: Seq<u8>,
    ts: u64,
    r: Result<(), Error>,
)
    requires
        put_at(a, b, c, key, value, ts, r),
        ts < WAL_BATCH_MAGIC,
        c.wal_segment_size > 9,
        a.wal_segment + payload_bytes(PayloadView::Kv((key, Some(value), ts))).len() + 2
            <= u64::MAX,
    ensures
        r is Ok,
{
}

} // verus!
