//! What the log keeps of the writes of an engine, and what opening the database again gives back.

use crate::block::RawEntry;
use crate::compaction::{compaction_outcome, plain_table, task_nums, with_tables, TaskView};
use crate::disk::{FileId, Files};
use crate::engine::{
    appended_record, batch_written, commit_logged, committed_record, compacted, flushed_all,
    flushed_one, last_in_batch, law_read_your_write, law_write_keeps_other_reads, lemma_same_reads,
    levels_lookup, loaded, log_placed, logged, memory_lookup, no_log, only_log_changed, opened, read_state,
    same_tables, saved, stamped_state, stored, synced_log, tables_present, with_log, without_tables,
    written, EngineConfig, EngineView,
};
use crate::error::{Error, ErrorView};
use crate::group_commit::{good_segment_size, law_committed_is_durable, wrote_records};
use crate::manifest::{law_manifest_round_trip, manifest_fits};
use crate::memtable::{
    entries_of, law_read_after_write, law_snapshot_unchanged, lemma_newest_at, lookup_at, opt_view,
    KeyView, ValueView,
};
use crate::payload::{
    law_payload_round_trip, payload_bytes, payload_fits, stamped, PayloadView, WriteView,
};
use crate::recovery::{
    largest_write, last_of_key, last_of_version, law_aborted_leaves_nothing, law_batch_recovered,
    law_committed_takes_effect, law_recovered_numbers, law_uncommitted_leaves_nothing, law_write_recovered,
    lemma_max_below, open_txn_records, out_of_range, recovered, replayed, some_out_of_range,
    stamp_in, txn_fits, txn_in, ReplayView, TxnWrites,
};
use crate::sstable::{raw_entries, SSTableConfig};
use crate::wal::{
    clean_log, durable_before, holds_log, is_log, law_synced_log_survives, lemma_clean_segments,
    log_segments, Chunk,
};
use vstd::prelude::*;

verus! {

/// Tells whether the log of an engine is in place, and all but the segment in use is durable.
pub open spec fn log_sound(s: EngineView) -> bool {
    log_placed(s) && durable_before(s.live, s.durable, s.wal_segment)
}

/// Tells whether the log of an engine has these records, and has them after a crash.
pub open spec fn log_held(s: EngineView, records: Seq<Seq<u8>>) -> bool {
    &&& log_sound(s)
    &&& clean_log(s.live, records)
    &&& clean_log(s.durable, records)
}

/// A record that was committed is in the log, after those that were, and is there after a crash.
pub proof fn law_record_is_logged(
    a: EngineView,
    b: EngineView,
    size: u64,
    record: Seq<u8>,
    records: Seq<Seq<u8>>,
)
    requires
        committed_record(a, b, size, record),
        good_segment_size(size),
        log_held(a, records),
    ensures
        log_held(b, records.push(record)),
{
    law_committed_is_durable(
        a.live,
        a.durable,
        a.wal_segment,
        size,
        seq![record],
        b.live,
        b.durable,
        b.wal_segment,
        b.live[FileId::Wal(b.wal_segment)].len(),
        records,
    );
    assert(records + seq![record] =~= records.push(record));
}

/// A put or a delete that was acknowledged is in the log, and is there after a crash.
pub proof fn law_write_is_logged(
    a: EngineView,
    b: EngineView,
    c: EngineConfig,
    key: Seq<u8>,
    value: ValueView,
    records: Seq<Seq<u8>>,
)
    requires
        written(a, b, c, key, value, Ok::<(), Error>(())),
        good_segment_size(c.wal_segment_size),
        log_held(a, records),
    ensures
        log_held(b, records.push(payload_bytes(PayloadView::Kv((key, value, a.sequence))))),
{
    let w: WriteView = (key, value, a.sequence);
    let record = payload_bytes(PayloadView::Kv(w));
    let next = EngineView { sequence: (a.sequence + 1) as u64, ..a };
    let mid = choose|mid: EngineView| #[trigger]
        committed_record(next, mid, c.wal_segment_size, record) && b == stored(
            mid,
            seq![w],
            c.memtable_size,
        );
    law_record_is_logged(next, mid, c.wal_segment_size, record, records);
}

/// Opening the database after a crash gives the memtable all that the records of the log say.
pub proof fn law_log_is_replayed(s: EngineView, records: Seq<Seq<u8>>, e: EngineView, max_levels: usize)
    requires
        log_held(s, records),
        !some_out_of_range(records),
    ensures
        recovered(log_segments(with_log(s.durable))) == Ok::<ReplayView, ErrorView>(
            replayed(records),
        ),
        opened(e, s.durable, s.durable, max_levels, replayed(records)) ==> e.active == replayed(
            records,
        ).versions,
{
    assert(s.durable.dom().contains(FileId::Wal(s.wal_segment)));
    assert(with_log(s.durable) == s.durable);
    lemma_clean_segments(s.durable, records);
}

/// Tells whether files hold the same segments of the log.
pub open spec fn same_log(a: Files, b: Files) -> bool {
    forall|n: u64|
        (#[trigger] b.contains_key(FileId::Wal(n)) == a.contains_key(FileId::Wal(n))) && (
        a.contains_key(FileId::Wal(n)) ==> b[FileId::Wal(n)] == a[FileId::Wal(n)])
}

proof fn lemma_same_log(a: Files, b: Files, records: Seq<Seq<u8>>)
    requires
        same_log(a, b),
        clean_log(a, records),
    ensures
        clean_log(b, records),
{
    let (nums, segs, css) = choose|
        nums: Seq<u64>,
        segs: Seq<Seq<u8>>,
        css: Seq<Seq<Chunk>>,
    | #[trigger]
        holds_log(a, nums, segs, css, records);
    assert(is_log(b, nums, segs)) by {
        assert forall|n: u64| #[trigger] nums.contains(n) == b.contains_key(FileId::Wal(n)) by {
            assert(b.contains_key(FileId::Wal(n)) == a.contains_key(FileId::Wal(n)));
        }
        assert forall|i: int| 0 <= i < nums.len() implies #[trigger] segs[i] == b[FileId::Wal(
            nums[i],
        )] by {
            assert(nums.contains(nums[i]));
            assert(b.contains_key(FileId::Wal(nums[i])) == a.contains_key(FileId::Wal(nums[i])));
        }
    }
    assert(holds_log(b, nums, segs, css, records));
}

/// Tells whether a state has the log of another, and its durable files are those that exist.
pub open spec fn log_kept(a: EngineView, b: EngineView) -> bool {
    &&& same_log(a.live, b.live)
    &&& same_log(a.durable, b.durable)
    &&& a.wal_segment == b.wal_segment
    &&& b.live.dom() == b.durable.dom()
}

proof fn lemma_log_sound(a: EngineView, b: EngineView)
    requires
        log_sound(a),
        log_kept(a, b),
    ensures
        log_sound(b),
{
    assert(a.live.contains_key(FileId::Wal(a.wal_segment)));
    assert(b.live.contains_key(FileId::Wal(a.wal_segment)) == a.live.contains_key(
        FileId::Wal(a.wal_segment),
    ));
    assert forall|n: u64| #[trigger] b.live.contains_key(FileId::Wal(n)) implies n
        <= b.wal_segment by {
        assert(a.live.contains_key(FileId::Wal(n)));
    }
    assert forall|n: u64|
        n < b.wal_segment && #[trigger] b.live.contains_key(FileId::Wal(n)) implies b.durable[FileId::Wal(
        n,
    )] == b.live[FileId::Wal(n)] by {
        assert(a.live.contains_key(FileId::Wal(n)));
        assert(a.durable.dom().contains(FileId::Wal(n)));
        assert(b.durable.contains_key(FileId::Wal(n)) == a.durable.contains_key(FileId::Wal(n)));
    }
}

proof fn lemma_log_unchanged(a: EngineView, b: EngineView, records: Seq<Seq<u8>>)
    requires
        log_held(a, records),
        log_kept(a, b),
    ensures
        log_held(b, records),
{
    lemma_same_log(a.live, b.live, records);
    lemma_same_log(a.durable, b.durable, records);
    lemma_log_sound(a, b);
}

proof fn lemma_flush_keeps(s: EngineView, c: EngineConfig)
    requires
        s.live.dom() == s.durable.dom(),
    ensures
        log_kept(s, flushed_one(s, c).0),
{
    let b = flushed_one(s, c).0;
    assert forall|id: FileId| s.live.contains_key(id) == s.durable.contains_key(id) by {
        assert(s.live.dom().contains(id) == s.durable.dom().contains(id));
    }
    assert(b.live.dom() =~= b.durable.dom());
}

/// A flush leaves the log as it is.
#[verifier::rlimit(40)]
pub proof fn law_flush_keeps_log(s: EngineView, c: EngineConfig, records: Seq<Seq<u8>>)
    requires
        log_held(s, records),
    ensures
        log_held(flushed_one(s, c).0, records),
{
    lemma_flush_keeps(s, c);
    lemma_log_unchanged(s, flushed_one(s, c).0, records);
}

proof fn lemma_tables_not_log(
    live: Files,
    next: u64,
    files: Seq<Seq<RawEntry>>,
    config: SSTableConfig,
    n: nat,
)
    ensures
        same_log(live, with_tables(live, next, files, config, n)),
    decreases n,
{
    if n > 0 {
        lemma_tables_not_log(live, next, files, config, (n - 1) as nat);
    }
}

proof fn lemma_removed_not_log(live: Files, nums: Seq<u64>)
    ensures
        same_log(live, without_tables(live, nums)),
    decreases nums.len(),
{
    if nums.len() > 0 {
        lemma_removed_not_log(live, nums.drop_last());
    }
}

proof fn lemma_tables_same_names(
    a: Files,
    b: Files,
    next: u64,
    files: Seq<Seq<RawEntry>>,
    config: SSTableConfig,
    n: nat,
)
    requires
        a.dom() == b.dom(),
    ensures
        with_tables(a, next, files, config, n).dom() == with_tables(b, next, files, config, n).dom(),
    decreases n,
{
    if n > 0 {
        lemma_tables_same_names(a, b, next, files, config, (n - 1) as nat);
        assert(with_tables(a, next, files, config, n).dom() =~= with_tables(
            b,
            next,
            files,
            config,
            n,
        ).dom());
    }
}

proof fn lemma_removed_same_names(a: Files, b: Files, nums: Seq<u64>)
    requires
        a.dom() == b.dom(),
    ensures
        without_tables(a, nums).dom() == without_tables(b, nums).dom(),
    decreases nums.len(),
{
    if nums.len() > 0 {
        lemma_removed_same_names(a, b, nums.drop_last());
        assert(without_tables(a, nums).dom() =~= without_tables(b, nums).dom());
    }
}

#[verifier::rlimit(40)]
proof fn lemma_compaction_keeps(s: EngineView, c: EngineConfig, t: TaskView, watermark: Option<u64>)
    requires
        s.live.dom() == s.durable.dom(),
    ensures
        log_kept(s, compacted(s, c, t, watermark).0),
{
    let b = compacted(s, c, t, watermark).0;
    match compaction_outcome(s.live, t, watermark, c.compaction, s.next_file_num) {
        Err(_) => {},
        Ok(files) => {
            let next = s.next_file_num;
            let sc = c.compaction.sstable_config;
            let n = files.len();
            let nums = task_nums(t);
            let live = with_tables(s.live, next, files, sc, n);
            let durable = with_tables(s.durable, next, files, sc, n);
            lemma_tables_not_log(s.live, next, files, sc, n);
            lemma_tables_not_log(s.durable, next, files, sc, n);
            lemma_removed_not_log(live, nums);
            lemma_removed_not_log(durable, nums);
            lemma_tables_same_names(s.live, s.durable, next, files, sc, n);
            lemma_removed_same_names(live, durable, nums);
            assert(b.live.dom() =~= b.durable.dom());
        },
    }
}

/// A compaction leaves the log as it is.
#[verifier::rlimit(40)]
pub proof fn law_compaction_keeps_log(
    s: EngineView,
    c: EngineConfig,
    t: TaskView,
    watermark: Option<u64>,
    records: Seq<Seq<u8>>,
)
    requires
        log_held(s, records),
    ensures
        log_held(compacted(s, c, t, watermark).0, records),
{
    lemma_compaction_keeps(s, c, t, watermark);
    lemma_log_unchanged(s, compacted(s, c, t, watermark).0, records);
}

/// A write that was acknowledged survives a crash: a database that is opened on the durable bytes
/// reads the value that was written.
pub proof fn law_acknowledged_write_survives(
    a: EngineView,
    b: EngineView,
    c: EngineConfig,
    key: Seq<u8>,
    value: ValueView,
    records: Seq<Seq<u8>>,
    e: EngineView,
    max_levels: usize,
)
    requires
        written(a, b, c, key, value, Ok::<(), Error>(())),
        payload_fits(PayloadView::Kv((key, value, a.sequence))),
        good_segment_size(c.wal_segment_size),
        log_held(a, records),
        !some_out_of_range(records),
        forall|t: u64| #[trigger]
            replayed(records).versions.contains_key((key, t)) ==> t <= a.sequence,
    ensures
        recovered(log_segments(with_log(b.durable))) is Ok,
        opened(
            e,
            b.durable,
            b.durable,
            max_levels,
            recovered(log_segments(with_log(b.durable)))->Ok_0,
        ) ==> read_state(e, key, e.sequence) == Ok::<Option<ValueView>, ErrorView>(Some(value)),
{
    let w: WriteView = (key, value, a.sequence);
    let record = payload_bytes(PayloadView::Kv(w));
    let all = records.push(record);
    law_write_is_logged(a, b, c, key, value, records);
    law_payload_round_trip(PayloadView::Kv(w));
    assert(!some_out_of_range(all)) by {
        assert forall|i: int| 0 <= i < all.len() implies !out_of_range(#[trigger] all[i]) by {
            if i < records.len() {
                assert(all[i] == records[i]);
            }
        }
    }
    law_log_is_replayed(b, all, e, max_levels);
    law_write_recovered(records, w);
    lemma_max_below(all);
    if opened(e, b.durable, b.durable, max_levels, replayed(all)) {
        let m = replayed(records).versions;
        law_read_after_write(m, key, a.sequence, value, e.sequence);
    }
}

/// Tells whether a read of a user key at a sequence number gives what the records of the log say.
pub open spec fn reads_log(s: EngineView, records: Seq<Seq<u8>>, key: Seq<u8>, at: u64) -> bool {
    read_state(s, key, at) == Ok::<Option<ValueView>, ErrorView>(
        lookup_at(replayed(records).versions, key, at),
    )
}

/// After a write that was acknowledged its own key reads what the log says.
pub proof fn law_write_reads_log(
    a: EngineView,
    b: EngineView,
    c: EngineConfig,
    key: Seq<u8>,
    value: ValueView,
    records: Seq<Seq<u8>>,
)
    requires
        written(a, b, c, key, value, Ok::<(), Error>(())),
        payload_fits(PayloadView::Kv((key, value, a.sequence))),
        forall|t: u64| #[trigger] a.active.contains_key((key, t)) ==> t <= a.sequence,
        forall|t: u64| #[trigger]
            replayed(records).versions.contains_key((key, t)) ==> t <= a.sequence,
    ensures
        reads_log(
            b,
            records.push(payload_bytes(PayloadView::Kv((key, value, a.sequence)))),
            key,
            b.sequence,
        ),
{
    let w: WriteView = (key, value, a.sequence);
    law_read_your_write(a, b, c, key, value);
    law_write_recovered(records, w);
    lemma_next_sequence(a, b, c, key, value);
    law_read_after_write(replayed(records).versions, key, a.sequence, value, b.sequence);
}

proof fn lemma_next_sequence(
    a: EngineView,
    b: EngineView,
    c: EngineConfig,
    key: Seq<u8>,
    value: ValueView,
)
    requires
        written(a, b, c, key, value, Ok::<(), Error>(())),
    ensures
        b.sequence == a.sequence + 1,
{
}

/// A write that was acknowledged leaves other reads what the log says.
pub proof fn law_write_keeps_log_reads(
    a: EngineView,
    b: EngineView,
    c: EngineConfig,
    key: Seq<u8>,
    value: ValueView,
    records: Seq<Seq<u8>>,
    other: Seq<u8>,
    at: u64,
)
    requires
        written(a, b, c, key, value, Ok::<(), Error>(())),
        payload_fits(PayloadView::Kv((key, value, a.sequence))),
        other != key || at < a.sequence,
        a.version.len() > 0,
        tables_present(a),
        reads_log(a, records, other, at),
    ensures
        reads_log(
            b,
            records.push(payload_bytes(PayloadView::Kv((key, value, a.sequence)))),
            other,
            at,
        ),
{
    let w: WriteView = (key, value, a.sequence);
    law_write_keeps_other_reads(a, b, c, key, value, other, at);
    law_write_recovered(records, w);
    law_snapshot_unchanged(replayed(records).versions, key, a.sequence, value, other, at);
}

/// A crash changes no read of an engine that reads what its log says: a database that is opened on
/// the durable bytes reads the same.
pub proof fn law_crash_keeps_reads(
    s: EngineView,
    records: Seq<Seq<u8>>,
    e: EngineView,
    max_levels: usize,
    key: Seq<u8>,
    at: u64,
)
    requires
        log_held(s, records),
        !some_out_of_range(records),
        reads_log(s, records, key, at),
        s.version.len() > 0,
        loaded(s.durable, max_levels).0 == s.version,
        same_tables(s.live, s.durable, s.version),
        opened(
            e,
            s.durable,
            s.durable,
            max_levels,
            recovered(log_segments(with_log(s.durable)))->Ok_0,
        ),
    ensures
        read_state(e, key, at) == read_state(s, key, at),
{
    law_log_is_replayed(s, records, e, max_levels);
    assert(s.durable.dom().contains(FileId::Wal(s.wal_segment)));
    assert(e.live == s.durable);
    if memory_lookup(e, key, at) is None {
        assert(memory_lookup(s, key, at) is None);
        lemma_same_reads(s, e, key, at);
    }
}

proof fn lemma_committed_once(a: EngineView, b: EngineView, d: EngineView, size: u64, record: Seq<u8>)
    requires
        log_sound(a),
        committed_record(a, b, size, record),
        committed_record(a, d, size, record),
    ensures
        b == d,
        log_sound(b),
{
    let x = choose|x: Files|
        {
            &&& #[trigger] wrote_records(
                a.live,
                a.durable,
                a.wal_segment,
                size,
                seq![record],
                b.live,
                x,
                b.wal_segment,
                None,
            )
            &&& b.durable == x.insert(FileId::Wal(b.wal_segment), b.live[FileId::Wal(b.wal_segment)])
        };
    let y = choose|y: Files|
        {
            &&& #[trigger] wrote_records(
                a.live,
                a.durable,
                a.wal_segment,
                size,
                seq![record],
                d.live,
                y,
                d.wal_segment,
                None,
            )
            &&& d.durable == y.insert(FileId::Wal(d.wal_segment), d.live[FileId::Wal(d.wal_segment)])
        };
    let seg = b.wal_segment;
    assert(b.live == d.live && d.wal_segment == seg);
    assert forall|n: u64|
        n <= seg && #[trigger] b.live.contains_key(FileId::Wal(n)) implies b.durable[FileId::Wal(n)]
        == b.live[FileId::Wal(n)] && d.durable[FileId::Wal(n)] == b.live[FileId::Wal(n)] by {}
    assert forall|id: FileId| b.durable.contains_key(id) == d.durable.contains_key(id) by {
        assert(b.live.dom().contains(id) == b.durable.dom().contains(id));
        assert(d.live.dom().contains(id) == d.durable.dom().contains(id));
    }
    assert forall|id: FileId| #[trigger] b.durable.contains_key(id) implies b.durable[id]
        == d.durable[id] by {
        assert(b.live.dom().contains(id) == b.durable.dom().contains(id));
        match id {
            FileId::Wal(n) => {
                assert(b.live.contains_key(FileId::Wal(n)));
            },
            _ => {
                assert(b.durable.contains_key(id) == a.durable.contains_key(id));
                assert(d.durable.contains_key(id) == a.durable.contains_key(id));
            },
        }
    }
    assert(b.durable =~= d.durable);
}

/// A write that is acknowledged has one outcome, and leaves the log sound.
pub proof fn law_write_has_one_outcome(
    a: EngineView,
    b: EngineView,
    d: EngineView,
    c: EngineConfig,
    key: Seq<u8>,
    value: ValueView,
)
    requires
        log_sound(a),
        written(a, b, c, key, value, Ok::<(), Error>(())),
        written(a, d, c, key, value, Ok::<(), Error>(())),
    ensures
        b == d,
        log_sound(b),
{
    let w: WriteView = (key, value, a.sequence);
    let record = payload_bytes(PayloadView::Kv(w));
    let next = EngineView { sequence: (a.sequence + 1) as u64, ..a };
    let x = choose|mid: EngineView| #[trigger]
        committed_record(next, mid, c.wal_segment_size, record) && b == stored(
            mid,
            seq![w],
            c.memtable_size,
        );
    let y = choose|mid: EngineView| #[trigger]
        committed_record(next, mid, c.wal_segment_size, record) && d == stored(
            mid,
            seq![w],
            c.memtable_size,
        );
    lemma_committed_once(next, x, y, c.wal_segment_size, record);
}

/// Flushing leaves the log sound.
pub proof fn lemma_flushed_sound(s: EngineView, c: EngineConfig)
    requires
        log_sound(s),
    ensures
        log_sound(flushed_all(s, c).0),
    decreases s.immutables.len(),
{
    if s.immutables.len() > 0 {
        let (t, e) = flushed_one(s, c);
        lemma_flush_keeps(s, c);
        lemma_log_sound(s, t);
        if !(e is Some || t.immutables.len() >= s.immutables.len()) {
            lemma_flushed_sound(t, c);
        }
    }
}

/// A compaction leaves the log sound.
pub proof fn lemma_compacted_sound(
    s: EngineView,
    c: EngineConfig,
    t: TaskView,
    watermark: Option<u64>,
)
    requires
        log_sound(s),
    ensures
        log_sound(compacted(s, c, t, watermark).0),
{
    lemma_compaction_keeps(s, c, t, watermark);
    lemma_log_sound(s, compacted(s, c, t, watermark).0);
}

/// Tells whether the log is durable, and a crash takes no file away.
pub open spec fn log_durable(live: Files, durable: Files) -> bool {
    &&& live.dom() == durable.dom()
    &&& forall|n: u64| #[trigger]
        live.contains_key(FileId::Wal(n)) ==> durable[FileId::Wal(n)] == live[FileId::Wal(n)]
}

/// Opening a database whose log is durable gives one state, in which the log is sound.
pub proof fn law_open_has_one_outcome(
    live: Files,
    durable: Files,
    max_levels: usize,
    p: ReplayView,
    e: EngineView,
    d: EngineView,
)
    requires
        log_durable(live, durable),
        opened(e, live, durable, max_levels, p),
        opened(d, live, durable, max_levels, p),
        e.taken == d.taken,
    ensures
        e == d,
        log_sound(e),
{
    assert(e.live.dom() =~= e.durable.dom()) by {
        assert forall|id: FileId| live.contains_key(id) == durable.contains_key(id) by {
            assert(live.dom().contains(id) == durable.dom().contains(id));
        }
    }
    assert(e.live.contains_key(FileId::Wal(d.wal_segment)));
    assert(d.live.contains_key(FileId::Wal(e.wal_segment)));
    assert(e.wal_segment == d.wal_segment);
    assert forall|n: u64|
        n < e.wal_segment && #[trigger] e.live.contains_key(FileId::Wal(n)) implies e.durable[FileId::Wal(
        n,
    )] == e.live[FileId::Wal(n)] by {
        if !no_log(live) {
            assert(live.contains_key(FileId::Wal(n)));
        }
    }
}

/// Tells whether table files are durable as they are.
pub open spec fn tables_durable(live: Files, durable: Files) -> bool {
    forall|n: u64|
        (#[trigger] live.contains_key(FileId::Sst(n)) == durable.contains_key(FileId::Sst(n))) && (
        live.contains_key(FileId::Sst(n)) ==> live[FileId::Sst(n)] == durable[FileId::Sst(n)])
}

/// Tells whether the durable files say what the levels of an engine are: the manifest lists them,
/// and the table files are durable. Sequence numbers start from one.
pub open spec fn filed(s: EngineView, max_levels: usize) -> bool {
    &&& loaded(s.durable, max_levels).0 == s.version
    &&& tables_durable(s.live, s.durable)
    &&& loaded(s.durable, max_levels).2 > 0
    &&& s.sequence > 0
}

/// Where the table files of an engine are there and durable, a crash leaves them.
pub proof fn law_filed_tables(s: EngineView, max_levels: usize)
    requires
        filed(s, max_levels),
        tables_present(s),
    ensures
        loaded(s.durable, max_levels).0 == s.version,
        same_tables(s.live, s.durable, s.version),
{
    let v = s.version;
    assert forall|i: int, j: int| 0 <= i < v.len() && 0 <= j < v[i].len() implies s.live.contains_key(
        FileId::Sst((#[trigger] v[i][j]).file_num),
    ) == s.durable.contains_key(FileId::Sst(v[i][j].file_num)) && s.live[FileId::Sst(
        v[i][j].file_num,
    )] == s.durable[FileId::Sst(v[i][j].file_num)] by {
        assert(s.live.contains_key(FileId::Sst(v[i][j].file_num)));
    }
}

/// Opening a database on durable files gives an engine whose files say what its levels are.
pub proof fn law_open_filed(files: Files, max_levels: usize, p: ReplayView, e: EngineView)
    requires
        opened(e, files, files, max_levels, p),
        loaded(files, max_levels).2 > 0,
        p.max_seq < u64::MAX,
    ensures
        filed(e, max_levels),
{
    assert(e.live == e.durable);
    assert(e.durable.contains_key(FileId::Manifest) == files.contains_key(FileId::Manifest));
}

/// Opening a database after a crash leaves its log as it is.
pub proof fn law_open_keeps_log(
    s: EngineView,
    records: Seq<Seq<u8>>,
    e: EngineView,
    max_levels: usize,
    p: ReplayView,
)
    requires
        log_held(s, records),
        opened(e, s.durable, s.durable, max_levels, p),
    ensures
        log_held(e, records),
{
    assert(s.durable.dom().contains(FileId::Wal(s.wal_segment)));
    assert(e.live == s.durable && e.durable == s.durable);
}

/// A put or a delete leaves the files saying what the levels of an engine are.
pub proof fn law_write_filed(
    a: EngineView,
    b: EngineView,
    c: EngineConfig,
    key: Seq<u8>,
    value: ValueView,
    r: Result<(), Error>,
    max_levels: usize,
)
    requires
        filed(a, max_levels),
        written(a, b, c, key, value, r),
    ensures
        filed(b, max_levels),
{
    let w: WriteView = (key, value, a.sequence);
    let record = payload_bytes(PayloadView::Kv(w));
    let next = EngineView { sequence: (a.sequence + 1) as u64, ..a };
    if r is Ok {
        let mid = choose|mid: EngineView| #[trigger]
            committed_record(next, mid, c.wal_segment_size, record) && b == stored(
                mid,
                seq![w],
                c.memtable_size,
            );
        lemma_log_filed(next, mid, max_levels);
    }
}

/// Changes to the log alone leave the files saying what the levels of an engine are.
proof fn lemma_log_filed(a: EngineView, b: EngineView, max_levels: usize)
    requires
        filed(a, max_levels),
        only_log_changed(a, b),
    ensures
        filed(b, max_levels),
{
    assert(b.durable.contains_key(FileId::Manifest) == a.durable.contains_key(FileId::Manifest));
    assert forall|n: u64|
        (#[trigger] b.live.contains_key(FileId::Sst(n)) == b.durable.contains_key(FileId::Sst(n))) && (
        b.live.contains_key(FileId::Sst(n)) ==> b.live[FileId::Sst(n)] == b.durable[FileId::Sst(
            n,
        )]) by {
        assert(a.live.contains_key(FileId::Sst(n)) == a.durable.contains_key(FileId::Sst(n)));
        assert(b.durable.contains_key(FileId::Sst(n)) == a.durable.contains_key(FileId::Sst(n)));
    }
}

/// Writes under a commit timestamp leave the files saying what the levels of an engine are, whether
/// their record is committed or only appended to the log.
pub proof fn law_stamped_filed(
    a: EngineView,
    mid: EngineView,
    ws: Seq<WriteView>,
    max_size: usize,
    ts: u64,
    max_levels: usize,
)
    requires
        filed(a, max_levels),
        only_log_changed(a, mid),
        ts < u64::MAX,
    ensures
        filed(stamped_state(stored(mid, ws, max_size), ts), max_levels),
{
    lemma_log_filed(a, mid, max_levels);
}

/// Saving the manifest leaves the files saying what the levels of an engine are.
proof fn lemma_saved_filed(s: EngineView, max_levels: usize)
    requires
        tables_durable(s.live, s.durable),
        manifest_fits(s.version),
        s.sequence > 0,
    ensures
        filed(saved(s), max_levels),
{
    let b = saved(s);
    law_manifest_round_trip(s.version, s.next_file_num, s.sequence);
    assert forall|n: u64|
        (#[trigger] b.live.contains_key(FileId::Sst(n)) == b.durable.contains_key(FileId::Sst(n))) && (
        b.live.contains_key(FileId::Sst(n)) ==> b.live[FileId::Sst(n)] == b.durable[FileId::Sst(
            n,
        )]) by {
        assert(s.live.contains_key(FileId::Sst(n)) == s.durable.contains_key(FileId::Sst(n)));
    }
}

/// Flushing the oldest memtable set aside leaves the files saying what the levels of an engine are,
/// whether it succeeds or not.
pub proof fn law_flush_filed(s: EngineView, c: EngineConfig, max_levels: usize)
    requires
        filed(s, max_levels),
        s.immutables.len() > 0,
        manifest_fits(flushed_one(s, c).0.version),
    ensures
        filed(flushed_one(s, c).0, max_levels),
{
    let b = flushed_one(s, c).0;
    if flushed_one(s, c).1 is None {
        let es = raw_entries(entries_of(s.immutables[0]));
        let id = FileId::Sst(s.next_file_num);
        let d = plain_table(es, c.compaction.sstable_config);
        let u = EngineView {
            live: s.live.insert(id, d),
            durable: s.durable.insert(id, d),
            version: b.version,
            immutables: b.immutables,
            next_file_num: b.next_file_num,
            ..s
        };
        assert forall|n: u64|
            (#[trigger] u.live.contains_key(FileId::Sst(n)) == u.durable.contains_key(
                FileId::Sst(n),
            )) && (u.live.contains_key(FileId::Sst(n)) ==> u.live[FileId::Sst(n)]
                == u.durable[FileId::Sst(n)]) by {
            assert(s.live.contains_key(FileId::Sst(n)) == s.durable.contains_key(FileId::Sst(n)));
        }
        lemma_saved_filed(u, max_levels);
        assert(b == saved(u));
    }
}

proof fn lemma_tables_same(
    a: Files,
    b: Files,
    next: u64,
    files: Seq<Seq<RawEntry>>,
    config: SSTableConfig,
    n: nat,
)
    requires
        tables_durable(a, b),
    ensures
        tables_durable(
            with_tables(a, next, files, config, n),
            with_tables(b, next, files, config, n),
        ),
    decreases n,
{
    if n > 0 {
        lemma_tables_same(a, b, next, files, config, (n - 1) as nat);
    }
}

proof fn lemma_removed_same(a: Files, b: Files, nums: Seq<u64>)
    requires
        tables_durable(a, b),
    ensures
        tables_durable(without_tables(a, nums), without_tables(b, nums)),
    decreases nums.len(),
{
    if nums.len() > 0 {
        lemma_removed_same(a, b, nums.drop_last());
    }
}

/// A compaction leaves the files saying what the levels of an engine are.
pub proof fn law_compaction_filed(
    s: EngineView,
    c: EngineConfig,
    t: TaskView,
    watermark: Option<u64>,
    max_levels: usize,
)
    requires
        filed(s, max_levels),
        manifest_fits(compacted(s, c, t, watermark).0.version),
    ensures
        filed(compacted(s, c, t, watermark).0, max_levels),
{
    let b = compacted(s, c, t, watermark).0;
    if let Ok(files) = compaction_outcome(s.live, t, watermark, c.compaction, s.next_file_num) {
        let next = s.next_file_num;
        let sc = c.compaction.sstable_config;
        let n = files.len();
        let nums = task_nums(t);
        let live = with_tables(s.live, next, files, sc, n);
        let durable = with_tables(s.durable, next, files, sc, n);
        lemma_tables_same(s.live, s.durable, next, files, sc, n);
        lemma_removed_same(live, durable, nums);
        let u = EngineView {
            live: without_tables(live, nums),
            durable: without_tables(durable, nums),
            version: b.version,
            next_file_num: b.next_file_num,
            ..s
        };
        lemma_saved_filed(u, max_levels);
        assert(b == saved(u));
    }
}

/// A record that was appended is in the log, after those that were.
pub proof fn law_append_is_logged(
    a: EngineView,
    b: EngineView,
    size: u64,
    record: Seq<u8>,
    records: Seq<Seq<u8>>,
)
    requires
        appended_record(a, b, size, record),
        good_segment_size(size),
        log_sound(a),
        clean_log(a.live, records),
    ensures
        log_sound(b),
        clean_log(b.live, records.push(record)),
{
    let rs = seq![record];
    assert(rs.take(1) =~= rs);
    assert(records + rs =~= records.push(record));
}

/// The begin, a write or the abort of a transaction is in the log once it is appended, and a
/// commit is too, each after what was there before.
pub proof fn law_txn_is_logged(
    a: EngineView,
    b: EngineView,
    size: u64,
    p: PayloadView,
    records: Seq<Seq<u8>>,
)
    requires
        match p {
            PayloadView::TxnCommit(id, ts) => commit_logged(a, b, size, id, ts, Ok::<(), Error>(())),
            _ => logged(a, b, size, p, Ok::<(), Error>(())),
        },
        good_segment_size(size),
        log_sound(a),
        clean_log(a.live, records),
    ensures
        log_sound(b),
        clean_log(b.live, records.push(payload_bytes(p))),
{
    let record = payload_bytes(p);
    match p {
        PayloadView::TxnCommit(id, ts) => {
            let mid = choose|mid: EngineView| #[trigger]
                appended_record(a, mid, size, record) && b == (EngineView {
                    max_txn_id: crate::recovery::larger(mid.max_txn_id, id),
                    max_commit_ts: crate::recovery::larger(mid.max_commit_ts, ts),
                    ..mid
                });
            law_append_is_logged(a, mid, size, record, records);
        },
        _ => {
            law_append_is_logged(a, b, size, record, records);
        },
    }
}

/// A sync makes the log durable: what it holds it holds after a crash. No read changes.
pub proof fn law_sync_keeps_log(
    s: EngineView,
    records: Seq<Seq<u8>>,
    key: Seq<u8>,
    at: u64,
)
    requires
        log_sound(s),
        clean_log(s.live, records),
    ensures
        log_held(synced_log(s), records),
        read_state(synced_log(s), key, at) == read_state(s, key, at),
{
    let t = synced_log(s);
    let off = s.live[FileId::Wal(s.wal_segment)].len();
    law_synced_log_survives(s.live, s.durable, s.wal_segment, off, records);
    assert(s.live.dom().contains(FileId::Wal(s.wal_segment)));
    assert(t.durable.dom() =~= s.durable.dom());
    assert(durable_before(t.live, t.durable, t.wal_segment)) by {
        assert forall|n: u64|
            n < t.wal_segment && #[trigger] t.live.contains_key(FileId::Wal(n)) implies
            t.durable[FileId::Wal(n)] == t.live[FileId::Wal(n)] by {}
    }
}

proof fn lemma_no_more_out_of_range(records: Seq<Seq<u8>>, d: Seq<u8>)
    requires
        !some_out_of_range(records),
        !out_of_range(d),
    ensures
        !some_out_of_range(records.push(d)),
{
    let all = records.push(d);
    assert forall|i: int| 0 <= i < all.len() implies !out_of_range(#[trigger] all[i]) by {
        if i < records.len() {
            assert(all[i] == records[i]);
        }
    }
}

proof fn lemma_open_txn_in_range(records: Seq<Seq<u8>>, id: u64, ws: TxnWrites)
    requires
        !some_out_of_range(records),
        txn_fits(ws),
    ensures
        !some_out_of_range(records + open_txn_records(id, ws)),
    decreases ws.len(),
{
    if ws.len() == 0 {
        let begin = PayloadView::TxnBegin(id);
        law_payload_round_trip(begin);
        lemma_no_more_out_of_range(records, payload_bytes(begin));
        assert(records + open_txn_records(id, ws) =~= records.push(payload_bytes(begin)));
    } else {
        let t = ws.drop_last();
        let w = ws.last();
        assert(ws[ws.len() - 1] == w);
        assert forall|i: int| 0 <= i < t.len() implies (#[trigger] t[i]).0.len() <= u32::MAX
            && t[i].1.len() <= u32::MAX by {
            assert(t[i] == ws[i]);
        }
        lemma_open_txn_in_range(records, id, t);
        let p = PayloadView::TxnWrite(id, w.0, w.1);
        law_payload_round_trip(p);
        let before = records + open_txn_records(id, t);
        lemma_no_more_out_of_range(before, payload_bytes(p));
        assert(records + open_txn_records(id, ws) =~= before.push(payload_bytes(p)));
    }
}

/// A transaction whose commit is in the durable log is there, whole, when the database is opened
/// after a crash: each key that it wrote reads, at its commit timestamp, what it wrote last.
pub proof fn law_committed_txn_survives(
    s: EngineView,
    records: Seq<Seq<u8>>,
    id: u64,
    ws: TxnWrites,
    ts: u64,
    e: EngineView,
    max_levels: usize,
    i: int,
)
    requires
        log_held(
            s,
            (records + open_txn_records(id, ws)).push(payload_bytes(PayloadView::TxnCommit(id, ts))),
        ),
        txn_fits(ws),
        ts < u64::MAX,
        !some_out_of_range(records),
        0 <= i < ws.len(),
        last_of_key(ws, i),
    ensures
        recovered(log_segments(with_log(s.durable))) is Ok,
        opened(
            e,
            s.durable,
            s.durable,
            max_levels,
            recovered(log_segments(with_log(s.durable)))->Ok_0,
        ) ==> read_state(e, ws[i].0, ts) == Ok::<Option<ValueView>, ErrorView>(Some(Some(ws[i].1))),
{
    let p = PayloadView::TxnCommit(id, ts);
    let before = records + open_txn_records(id, ws);
    let all = before.push(payload_bytes(p));
    law_payload_round_trip(p);
    lemma_open_txn_in_range(records, id, ws);
    lemma_no_more_out_of_range(before, payload_bytes(p));
    law_log_is_replayed(s, all, e, max_levels);
    law_committed_takes_effect(records, id, ws, ts);
    let m = replayed(all).versions;
    assert(m.contains_key((ws[i].0, ts)) && m[(ws[i].0, ts)] == Some(ws[i].1));
    lemma_newest_at(m, ws[i].0, ts, ts);
}

/// A transaction that is in the log without its commit, or with its abort, leaves nothing when the
/// database is opened after a crash: the versions are those of the records before it.
pub proof fn law_open_txn_leaves_nothing(
    s: EngineView,
    records: Seq<Seq<u8>>,
    id: u64,
    ws: TxnWrites,
    aborted: bool,
    e: EngineView,
    max_levels: usize,
)
    requires
        log_held(
            s,
            if aborted {
                (records + open_txn_records(id, ws)).push(payload_bytes(PayloadView::TxnAbort(id)))
            } else {
                records + open_txn_records(id, ws)
            },
        ),
        txn_fits(ws),
        !some_out_of_range(records),
    ensures
        recovered(log_segments(with_log(s.durable))) is Ok,
        opened(
            e,
            s.durable,
            s.durable,
            max_levels,
            recovered(log_segments(with_log(s.durable)))->Ok_0,
        ) ==> e.active == replayed(records).versions,
{
    let p = PayloadView::TxnAbort(id);
    let before = records + open_txn_records(id, ws);
    law_payload_round_trip(p);
    lemma_open_txn_in_range(records, id, ws);
    if aborted {
        lemma_no_more_out_of_range(before, payload_bytes(p));
        law_log_is_replayed(s, before.push(payload_bytes(p)), e, max_levels);
        law_aborted_leaves_nothing(records, id, ws);
    } else {
        law_log_is_replayed(s, before, e, max_levels);
        law_uncommitted_leaves_nothing(records, id, ws);
    }
}

/// A batch that was acknowledged is there, whole, when the database is opened after a crash: each
/// of its keys reads, at the commit timestamp, what the last write of the key in the batch says.
pub proof fn law_acknowledged_batch_survives(
    a: EngineView,
    b: EngineView,
    c: EngineConfig,
    writes: Seq<(Vec<u8>, Option<Vec<u8>>)>,
    ts: u64,
    records: Seq<Seq<u8>>,
    e: EngineView,
    max_levels: usize,
    i: int,
)
    requires
        batch_written(a, b, c, writes, ts, Ok::<(), Error>(())),
        payload_fits(PayloadView::Batch(stamped(writes, ts))),
        good_segment_size(c.wal_segment_size),
        log_held(a, records),
        !some_out_of_range(records),
        0 <= i < writes.len(),
        last_in_batch(writes, i),
    ensures
        recovered(log_segments(with_log(b.durable))) is Ok,
        opened(
            e,
            b.durable,
            b.durable,
            max_levels,
            recovered(log_segments(with_log(b.durable)))->Ok_0,
        ) ==> read_state(e, writes[i].0@, ts) == Ok::<Option<ValueView>, ErrorView>(
            Some(
                match writes[i].1 {
                    Some(v) => Some(v@),
                    None => None,
                },
            ),
        ),
{
    let ws = stamped(writes, ts);
    let p = PayloadView::Batch(ws);
    let record = payload_bytes(p);
    let mid = choose|mid: EngineView| #[trigger]
        committed_record(a, mid, c.wal_segment_size, record) && b == stamped_state(
            stored(mid, ws, c.memtable_size),
            ts,
        );
    law_record_is_logged(a, mid, c.wal_segment_size, record, records);
    law_payload_round_trip(p);
    lemma_largest_stamped(ws, ts);
    lemma_no_more_out_of_range(records, record);
    let all = records.push(record);
    assert(log_held(b, all));
    law_log_is_replayed(b, all, e, max_levels);
    law_batch_recovered(records, ws);
    let m = replayed(all).versions;
    assert(ws[i] == (writes[i].0@, opt_view(writes[i].1), ts));
    assert forall|j: int| i < j < ws.len() implies (#[trigger] ws[j]).0 != ws[i].0 || ws[j].2
        != ws[i].2 by {
        assert(ws[j].0 == writes[j].0@);
    }
    assert(last_of_version(ws, i));
    lemma_newest_at(m, ws[i].0, ts, ts);
}

proof fn lemma_largest_stamped(ws: Seq<WriteView>, ts: u64)
    requires
        forall|i: int| 0 <= i < ws.len() ==> (#[trigger] ws[i]).2 == ts,
    ensures
        largest_write(ws) <= ts,
    decreases ws.len(),
{
    if ws.len() > 0 {
        let t = ws.drop_last();
        assert forall|i: int| 0 <= i < t.len() implies (#[trigger] t[i]).2 == ts by {
            assert(t[i] == ws[i]);
        }
        lemma_largest_stamped(t, ts);
        assert(ws[ws.len() - 1].2 == ts);
    }
}

/// Opening a database goes on after all that the log has: the next sequence number is after every
/// one in it, and the largest commit timestamp and transaction number cover those in it.
pub proof fn law_open_goes_on(
    e: EngineView,
    files: Files,
    max_levels: usize,
    records: Seq<Seq<u8>>,
    t: u64,
    id: u64,
)
    requires
        opened(e, files, files, max_levels, replayed(records)),
        !some_out_of_range(records),
    ensures
        stamp_in(records, t) && t > 0 ==> t < e.sequence && t <= e.max_commit_ts,
        txn_in(records, id) ==> id <= e.max_txn_id,
        e.max_commit_ts == 0 || stamp_in(records, e.max_commit_ts),
        e.max_txn_id == 0 || txn_in(records, e.max_txn_id),
        e.immutables.len() == 0,
        e.watermark is None,
{
    law_recovered_numbers(records);
    lemma_max_below(records);
}

/// A database that is opened where there is none is empty: no key reads anything, and it has as
/// many levels as it is to have, without files.
pub proof fn law_new_database_empty(
    e: EngineView,
    max_levels: usize,
    key: Seq<u8>,
    at: u64,
)
    requires
        opened(e, Map::empty(), Map::empty(), max_levels, replayed(Seq::empty())),
        max_levels > 0,
    ensures
        read_state(e, key, at) == Ok::<Option<ValueView>, ErrorView>(None),
        e.version.len() == max_levels,
        forall|l: int| 0 <= l < max_levels ==> (#[trigger] e.version[l]).len() == 0,
        e.max_commit_ts == 0,
        e.max_txn_id == 0,
{
    assert(e.active == Map::<KeyView, ValueView>::empty());
    assert forall|l: int| 0 <= l < max_levels implies (#[trigger] e.version[l]).len() == 0 by {}
    assert(lookup_at(e.active, key, at) is None);
    assert(memory_lookup(e, key, at) is None);
    lemma_no_files_read(e.live, e.version, 1, key, at);
}

proof fn lemma_no_files_read(
    live: Files,
    v: Seq<Seq<crate::compaction::FileView>>,
    level: nat,
    key: Seq<u8>,
    at: u64,
)
    requires
        forall|l: int| 0 <= l < v.len() ==> (#[trigger] v[l]).len() == 0,
    ensures
        levels_lookup(live, v, level, key, at) == Ok::<Option<ValueView>, ErrorView>(None),
    decreases v.len() - level,
{
    if level < v.len() {
        lemma_no_files_read(live, v, level + 1, key, at);
        assert(v[level as int].len() == 0);
    }
}

} // verus!
