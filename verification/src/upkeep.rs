//! What writes, flushes, compactions and opening a database again keep: the order in which versions
//! are found.

use crate::agreement::{
    denotes, engine_has, in_memory, in_tables, lemma_denoted, listed, memory_newest_first, memtables,
    table_has, table_newer,
};
use crate::block::RawEntry;
use crate::codec::lemma_lex_total;
use crate::compaction::{recoded, FileView, TaskView};
use crate::disk::{FileId, Files};
use crate::durability::{
    filed, law_filed_tables, law_log_is_replayed, law_open_filed, law_open_keeps_log, log_held,
};
use crate::engine::{
    committed_record, compacted, flush_fits, flushed_one, only_log_changed, opened, rotated, stamped_state,
    stored, tables_present, with_log, with_writes, written, EngineConfig, EngineView,
};
use crate::error::Error;
use crate::group_commit::same_but_log;
use crate::levels::{
    all_seen, covering_levels, covers_levels, file_at_holds, file_seen, has_version, held, higher,
    holds, law_compaction_adds_nothing, law_compaction_keeps_levels, law_flush_adds_memtable,
    law_flush_keeps_levels, lemma_held, lemma_held_on_level, lemma_on_level, lemma_place,
    lemma_same_bytes, lemma_unchanged, lemma_within, levels_hold, memtable_covers, served,
    sound_levels, sound_table, sound_task,
};
use crate::memtable::{
    entries_list, entries_sorted, key_lt, lemma_key_irreflexive, lemma_key_transitive,
    Entries, KeyView, ValueView, Versions,
};
use crate::merge::{seq_of, user_of};
use crate::payload::{
    payload_bytes, payload_fits, payload_of_bytes, PayloadView, WriteView, WAL_BATCH_MAGIC,
};
use crate::recovery::{
    committed, larger, law_recovered_stamps_bounded, law_write_recovered, lemma_max_below, recovered,
    replay_writes, replayed, some_out_of_range, ReplayView,
};
use crate::sstable::{
    law_key_bytes_round_trip, law_key_round_trip, law_value_round_trip, raw_entries,
};
use crate::wal::log_segments;
use vstd::prelude::*;

verus! {

/// Tells whether all versions in a memtable are below a sequence number.
pub open spec fn memtable_below(m: Versions, n: u64) -> bool {
    forall|k: KeyView| #[trigger] m.contains_key(k) ==> k.1 < n
}

/// Tells whether all versions in a table file are below a sequence number.
pub open spec fn file_below(live: Files, f: FileView, n: u64) -> bool {
    forall|d: RawEntry| #[trigger] held(live, f).contains(d) ==> seq_of(d.0) < n
}

/// Tells whether all versions in an engine are below a sequence number.
pub open spec fn all_below(s: EngineView, n: u64) -> bool {
    &&& memtable_below(s.active, n)
    &&& forall|i: int| 0 <= i < s.immutables.len() ==> memtable_below(#[trigger] s.immutables[i], n)
    &&& forall|l: int, i: int|
        0 <= l < s.version.len() && 0 <= i < s.version[l].len() ==> file_below(
            s.live,
            #[trigger] s.version[l][i],
            n,
        )
}

/// Tells whether an engine holds its versions in order for readers from a sequence number on: of
/// two versions of a user key that they see the newer is where a read looks first, and the next
/// write is newer than all of them.
pub open spec fn in_order(s: EngineView, floor: u64) -> bool {
    &&& covering_levels(s.live, s.version, floor)
    &&& memory_newest_first(s)
    &&& all_below(s, s.sequence)
}

/// A reader of what was written last is one for whom an engine in order is.
pub proof fn law_latest_served(s: EngineView, key: Seq<u8>, at: u64, floor: u64)
    requires
        in_order(s, floor),
        at + 1 >= s.sequence,
    ensures
        all_seen(s.live, s.version, key, at),
        served(s.live, s.version, key, at, floor),
{
    let v = s.version;
    assert forall|l: int, i: int| 0 <= l < v.len() && 0 <= i < v[l].len() implies file_seen(
        s.live,
        #[trigger] v[l][i],
        key,
        at,
    ) by {
        assert(file_below(s.live, v[l][i], s.sequence));
        assert forall|d: RawEntry| #[trigger] holds(s.live, v[l][i], key, d) implies seq_of(d.0)
            <= at by {
            assert(held(s.live, v[l][i]).contains(d));
        }
    }
}

/// Where a version belongs among versions in order.
proof fn lemma_place_of(es: Entries, k: KeyView) -> (p: int)
    requires
        entries_sorted(es),
        forall|i: int| 0 <= i < es.len() ==> (#[trigger] es[i]).0 != k,
    ensures
        0 <= p <= es.len(),
        forall|i: int| 0 <= i < p ==> key_lt((#[trigger] es[i]).0, k),
        forall|i: int| p <= i < es.len() ==> key_lt(k, (#[trigger] es[i]).0),
    decreases es.len(),
{
    if es.len() == 0 {
        0
    } else {
        let n = es.len() - 1;
        let last = es[n].0;
        lemma_lex_total(last.0, k.0);
        if key_lt(last, k) {
            assert forall|i: int| 0 <= i < es.len() implies key_lt((#[trigger] es[i]).0, k) by {
                if i < n {
                    lemma_key_transitive(es[i].0, last, k);
                }
            }
            es.len() as int
        } else {
            assert(key_lt(k, last));
            let t = es.drop_last();
            let p = lemma_place_of(t, k);
            assert forall|i: int| 0 <= i < p implies key_lt((#[trigger] es[i]).0, k) by {
                assert(t[i] == es[i]);
            }
            assert forall|i: int| p <= i < es.len() implies key_lt(k, (#[trigger] es[i]).0) by {
                if i < n {
                    assert(t[i] == es[i]);
                }
            }
            p
        }
    }
}

/// A memtable with one more version can be listed in order.
proof fn lemma_listed_insert(m: Versions, k: KeyView, v: ValueView)
    requires
        listed(m),
    ensures
        listed(m.insert(k, v)),
{
    let es = choose|es: Entries| entries_sorted(es) && #[trigger] entries_list(es, m);
    let w = m.insert(k, v);
    if m.contains_key(k) {
        let q = choose|i: int| 0 <= i < es.len() && (#[trigger] es[i]).0 == k;
        let fs = es.update(q, (k, v));
        assert(entries_sorted(fs));
        assert forall|i: int| 0 <= i < fs.len() implies w.contains_key((#[trigger] fs[i]).0)
            && w[fs[i].0] == fs[i].1 by {
            if i != q {
                assert(fs[i] == es[i]);
                if es[i].0 == k {
                    lemma_key_irreflexive(k);
                }
            }
        }
        assert forall|j: KeyView| #[trigger] w.contains_key(j) implies exists|i: int|
            0 <= i < fs.len() && (#[trigger] fs[i]).0 == j by {
            assert(m.contains_key(j));
            let i = choose|i: int| 0 <= i < es.len() && (#[trigger] es[i]).0 == j;
            assert(fs[i].0 == j);
        }
        assert(entries_list(fs, w));
    } else {
        let p = lemma_place_of(es, k);
        let fs = es.insert(p, (k, v));
        assert forall|i: int| 0 <= i < fs.len() implies #[trigger] fs[i] == (if i < p {
            es[i]
        } else if i == p {
            (k, v)
        } else {
            es[i - 1]
        }) by {}
        assert(entries_sorted(fs)) by {
            assert forall|i: int, j: int| 0 <= i < j < fs.len() implies key_lt(
                (#[trigger] fs[i]).0,
                (#[trigger] fs[j]).0,
            ) by {}
        }
        assert forall|i: int| 0 <= i < fs.len() implies w.contains_key((#[trigger] fs[i]).0)
            && w[fs[i].0] == fs[i].1 by {}
        assert forall|j: KeyView| #[trigger] w.contains_key(j) implies exists|i: int|
            0 <= i < fs.len() && (#[trigger] fs[i]).0 == j by {
            if j == k {
                assert(fs[p].0 == j);
            } else {
                assert(m.contains_key(j));
                let i = choose|i: int| 0 <= i < es.len() && (#[trigger] es[i]).0 == j;
                if i < p {
                    assert(fs[i].0 == j);
                } else {
                    assert(fs[i + 1].0 == j);
                }
            }
        }
        assert(entries_list(fs, w));
    }
}

/// An empty memtable can be listed.
proof fn lemma_listed_empty()
    ensures
        listed(Map::<KeyView, ValueView>::empty()),
{
    let es = Seq::<(KeyView, ValueView)>::empty();
    assert(entries_sorted(es) && entries_list(es, Map::<KeyView, ValueView>::empty()));
}

/// The memtables by their places.
proof fn lemma_memtables(s: EngineView)
    ensures
        memtables(s).len() == s.immutables.len() + 1,
        memtables(s)[0] == s.active,
        forall|i: int|
            1 <= i < memtables(s).len() ==> #[trigger] memtables(s)[i] == s.immutables[i - 1],
        forall|i: int|
            0 <= i < s.immutables.len() ==> #[trigger] s.immutables[i] == memtables(s)[i + 1],
{
}

/// What memtables need for an engine to be in order, memtable by memtable.
proof fn lemma_memory(s: EngineView)
    requires
        listed(s.active),
        covers_levels(s.live, s.active, s.version),
        forall|i: int|
            0 <= i < s.immutables.len() ==> {
                &&& listed(#[trigger] s.immutables[i])
                &&& covers_levels(s.live, s.immutables[i], s.version)
                &&& table_newer(s.active, s.immutables[i])
            },
        forall|i: int, j: int|
            0 <= i < j < s.immutables.len() ==> table_newer(
                #[trigger] s.immutables[j],
                #[trigger] s.immutables[i],
            ),
    ensures
        memory_newest_first(s),
{
    lemma_memtables(s);
    let ms = memtables(s);
    assert forall|i: int| 0 <= i < ms.len() implies listed(#[trigger] ms[i]) && covers_levels(
        s.live,
        ms[i],
        s.version,
    ) by {
        if i > 0 {
            assert(ms[i] == s.immutables[i - 1]);
            assert(listed(s.immutables[i - 1]));
        }
    }
}

/// What memtables of an engine in order meet, memtable by memtable.
proof fn lemma_memory_of(s: EngineView)
    requires
        memory_newest_first(s),
    ensures
        listed(s.active),
        covers_levels(s.live, s.active, s.version),
        forall|i: int|
            0 <= i < s.immutables.len() ==> {
                &&& listed(#[trigger] s.immutables[i])
                &&& covers_levels(s.live, s.immutables[i], s.version)
                &&& table_newer(s.active, s.immutables[i])
            },
        forall|i: int, j: int|
            0 <= i < j < s.immutables.len() ==> table_newer(
                #[trigger] s.immutables[j],
                #[trigger] s.immutables[i],
            ),
{
    lemma_memtables(s);
    let ms = memtables(s);
    assert(listed(ms[0]) && covers_levels(s.live, ms[0], s.version));
    assert forall|i: int| 0 <= i < s.immutables.len() implies {
        &&& listed(#[trigger] s.immutables[i])
        &&& covers_levels(s.live, s.immutables[i], s.version)
        &&& table_newer(s.active, s.immutables[i])
    } by {
        assert(listed(ms[i + 1]) && covers_levels(s.live, ms[i + 1], s.version));
    }
}

/// An engine that holds nothing is in order, and its log has all that it holds.
pub proof fn law_empty_in_order(s: EngineView)
    requires
        s.version.len() > 0,
        forall|l: int| 0 <= l < s.version.len() ==> (#[trigger] s.version[l]).len() == 0,
        s.active == Map::<KeyView, ValueView>::empty(),
        s.immutables.len() == 0,
    ensures
        in_order(s, 0),
        all_logged(s, Seq::empty()),
{
    lemma_listed_empty();
    lemma_memory(s);
    lemma_memtables(s);
    assert forall|d: (KeyView, ValueView)| !#[trigger] engine_has(s, d) by {
        if in_tables(s, d) {
            let x = choose|x: RawEntry| #[trigger]
                levels_hold(s.live, s.version, 0, d.0.0, x) && denotes(x, d);
            let p = lemma_place(s.live, s.version, d.0.0, x);
        }
    }
}

/// A memtable that is empty is newer than all, and below all.
proof fn lemma_empty_newer(s: EngineView, m: Versions)
    requires
        m == Map::<KeyView, ValueView>::empty(),
    ensures
        covers_levels(s.live, m, s.version),
        forall|n: Versions| #[trigger] table_newer(m, n),
        forall|n: u64| #[trigger] memtable_below(m, n),
{
}

/// Setting the memtable aside leaves an engine in order.
pub proof fn law_rotate_in_order(s: EngineView, floor: u64)
    requires
        in_order(s, floor),
    ensures
        in_order(rotated(s), floor),
{
    let b = rotated(s);
    lemma_memory_of(s);
    lemma_listed_empty();
    lemma_empty_newer(b, b.active);
    assert forall|i: int, j: int| 0 <= i < j < b.immutables.len() implies table_newer(
        #[trigger] b.immutables[j],
        #[trigger] b.immutables[i],
    ) by {
        assert(b.immutables[i] == s.immutables[i]);
        if j < s.immutables.len() {
            assert(b.immutables[j] == s.immutables[j]);
        } else {
            assert(table_newer(s.active, s.immutables[i]));
        }
    }
    assert forall|i: int| 0 <= i < b.immutables.len() implies {
        &&& listed(#[trigger] b.immutables[i])
        &&& covers_levels(b.live, b.immutables[i], b.version)
        &&& table_newer(b.active, b.immutables[i])
        &&& memtable_below(b.immutables[i], b.sequence)
    } by {
        if i < s.immutables.len() {
            assert(b.immutables[i] == s.immutables[i]);
        } else {
            assert(b.immutables[i] == s.active);
        }
    }
    lemma_memory(b);
}

/// Changes to the log alone leave an engine in order.
proof fn lemma_log_keeps_order(a: EngineView, b: EngineView, n: u64, floor: u64)
    requires
        covering_levels(a.live, a.version, floor),
        memory_newest_first(a),
        all_below(a, n),
        only_log_changed(a, b),
    ensures
        covering_levels(b.live, b.version, floor),
        memory_newest_first(b),
        all_below(b, n),
{
    let v = a.version;
    assert forall|l: int, i: int| 0 <= l < v.len() && 0 <= i < v[l].len() implies
        sound_table(b.live, #[trigger] v[l][i]) && held(b.live, v[l][i]) == held(
        a.live,
        v[l][i],
    ) by {
        assert(v[l].contains(v[l][i]));
        lemma_on_level(a.live, v, l, v[l][i]);
        assert(b.live.contains_key(FileId::Sst(v[l][i].file_num)));
        lemma_same_bytes(a.live, b.live, v[l][i]);
    }
    lemma_unchanged(a.live, b.live, v, floor);
    lemma_same_held(a, b, n);
}

/// An engine with the same memtables, and files that hold the same, is ordered the same.
proof fn lemma_same_held(a: EngineView, b: EngineView, n: u64)
    requires
        memory_newest_first(a),
        all_below(a, n),
        b.active == a.active,
        b.immutables == a.immutables,
        b.version == a.version,
        forall|l: int, i: int|
            0 <= l < a.version.len() && 0 <= i < a.version[l].len() ==> held(
                b.live,
                #[trigger] a.version[l][i],
            ) == held(a.live, a.version[l][i]),
    ensures
        memory_newest_first(b),
        all_below(b, n),
{
    lemma_memory_of(a);
    assert forall|m: Versions| #[trigger] covers_levels(a.live, m, a.version) implies covers_levels(
        b.live,
        m,
        b.version,
    ) by {
        assert forall|l: int, i: int|
            0 <= l < b.version.len() && 0 <= i < b.version[l].len() implies memtable_covers(
            b.live,
            m,
            #[trigger] b.version[l][i],
        ) by {
            assert(memtable_covers(a.live, m, a.version[l][i]));
        }
    }
    lemma_memory(b);
    assert forall|l: int, i: int|
        0 <= l < b.version.len() && 0 <= i < b.version[l].len() implies file_below(
        b.live,
        #[trigger] b.version[l][i],
        n,
    ) by {
        assert(file_below(a.live, a.version[l][i], n));
    }
}

/// What writes put into a memtable.
proof fn lemma_with_writes(m: Versions, ws: Seq<WriteView>, from: u64, to: u64)
    requires
        listed(m),
        forall|i: int| 0 <= i < ws.len() ==> from <= (#[trigger] ws[i]).2 < to,
    ensures
        listed(with_writes(m, ws)),
        forall|k: KeyView| #[trigger]
            with_writes(m, ws).contains_key(k) ==> m.contains_key(k) || from <= k.1 < to,
        forall|k: KeyView| #[trigger]
            m.contains_key(k) && k.1 < from ==> with_writes(m, ws).contains_key(k) && with_writes(
                m,
                ws,
            )[k] == m[k],
    decreases ws.len(),
{
    if ws.len() > 0 {
        let t = ws.drop_last();
        assert forall|i: int| 0 <= i < t.len() implies from <= (#[trigger] t[i]).2 < to by {
            assert(t[i] == ws[i]);
        }
        lemma_with_writes(m, t, from, to);
        let w = ws.last();
        assert(from <= ws[ws.len() - 1].2 < to);
        lemma_listed_insert(with_writes(m, t), (w.0, w.2), w.1);
    }
}

/// Writes that are newer than all versions leave an engine in order.
proof fn lemma_stored(s: EngineView, ws: Seq<WriteView>, max_size: usize, from: u64, floor: u64)
    requires
        covering_levels(s.live, s.version, floor),
        memory_newest_first(s),
        all_below(s, from),
        from <= s.sequence,
        forall|i: int| 0 <= i < ws.len() ==> from <= (#[trigger] ws[i]).2 < s.sequence,
    ensures
        in_order(stored(s, ws, max_size), floor),
{
    let m = with_writes(s.active, ws);
    let b = EngineView { active: m, ..s };
    lemma_memory_of(s);
    lemma_with_writes(s.active, ws, from, s.sequence);
    assert forall|l: int, i: int|
        0 <= l < b.version.len() && 0 <= i < b.version[l].len() implies memtable_covers(
        b.live,
        m,
        #[trigger] b.version[l][i],
    ) by {
        assert(memtable_covers(s.live, s.active, s.version[l][i]));
        assert(file_below(s.live, s.version[l][i], from));
    }
    assert forall|i: int| 0 <= i < b.immutables.len() implies {
        &&& listed(#[trigger] b.immutables[i])
        &&& covers_levels(b.live, b.immutables[i], b.version)
        &&& table_newer(b.active, b.immutables[i])
        &&& memtable_below(b.immutables[i], b.sequence)
    } by {
        assert(table_newer(s.active, s.immutables[i]));
        assert(memtable_below(s.immutables[i], from));
    }
    lemma_memory(b);
    lemma_more_room(s, from);
    law_rotate_in_order(b, floor);
    lemma_size_aside(b, stored(s, ws, max_size), floor);
    lemma_size_aside(rotated(b), stored(s, ws, max_size), floor);
}

/// The size that a memtable counts does not bear on the order.
proof fn lemma_size_aside(a: EngineView, b: EngineView, floor: u64)
    requires
        in_order(a, floor),
    ensures
        b == (EngineView { size: b.size, ..a }) ==> in_order(b, floor),
{
    if b == (EngineView { size: b.size, ..a }) {
        lemma_memory_of(a);
        lemma_memory(b);
    }
}

/// A put or a delete leaves an engine in order, whether it is acknowledged or refused.
pub proof fn law_write_in_order(
    a: EngineView,
    b: EngineView,
    c: EngineConfig,
    key: Seq<u8>,
    value: ValueView,
    r: Result<(), Error>,
    floor: u64,
)
    requires
        in_order(a, floor),
        written(a, b, c, key, value, r),
    ensures
        in_order(b, floor),
{
    let w: WriteView = (key, value, a.sequence);
    let record = payload_bytes(PayloadView::Kv(w));
    let next = EngineView { sequence: (a.sequence + 1) as u64, ..a };
    lemma_memory_of(a);
    lemma_memory(next);
    assert(all_below(next, a.sequence));
    match r {
        Ok(_) => {
            let mid = choose|mid: EngineView| #[trigger]
                committed_record(next, mid, c.wal_segment_size, record) && b == stored(
                    mid,
                    seq![w],
                    c.memtable_size,
                );
            lemma_log_keeps_order(next, mid, a.sequence, floor);
            lemma_stored(mid, seq![w], c.memtable_size, a.sequence, floor);
        },
        Err(_) => {
            if a.sequence < WAL_BATCH_MAGIC {
                lemma_memory(b);
                lemma_more_room(b, a.sequence);
            }
        },
    }
}

/// Writes under a commit timestamp that is not below the sequence number leave an engine in order,
/// whether their record is committed or only appended to the log.
pub proof fn law_stamped_in_order(
    a: EngineView,
    mid: EngineView,
    ws: Seq<WriteView>,
    max_size: usize,
    ts: u64,
    floor: u64,
)
    requires
        in_order(a, floor),
        only_log_changed(a, mid),
        a.sequence <= ts < u64::MAX,
        forall|i: int| 0 <= i < ws.len() ==> (#[trigger] ws[i]).2 == ts,
    ensures
        in_order(stamped_state(stored(mid, ws, max_size), ts), floor),
{
    let s = stamped_state(mid, ts);
    lemma_log_keeps_order(a, mid, a.sequence, floor);
    lemma_memory_of(mid);
    lemma_memory(s);
    lemma_stored(s, ws, max_size, a.sequence, floor);
    assert(stored(s, ws, max_size) == stamped_state(stored(mid, ws, max_size), ts));
}

/// Versions below a sequence number are below a larger one.
proof fn lemma_more_room(s: EngineView, n: u64)
    requires
        all_below(s, n),
        n <= s.sequence,
    ensures
        all_below(s, s.sequence),
{
    assert forall|i: int| 0 <= i < s.immutables.len() implies memtable_below(
        #[trigger] s.immutables[i],
        s.sequence,
    ) by {
        assert(memtable_below(s.immutables[i], n));
    }
    assert forall|l: int, i: int|
        0 <= l < s.version.len() && 0 <= i < s.version[l].len() implies file_below(
        s.live,
        #[trigger] s.version[l][i],
        s.sequence,
    ) by {
        assert(file_below(s.live, s.version[l][i], n));
    }
}

/// A compaction leaves an engine in order: for the same readers without a watermark, and for those of
/// them that are not below it with one.
pub proof fn law_compaction_in_order(
    s: EngineView,
    c: EngineConfig,
    t: TaskView,
    watermark: Option<u64>,
    floor: u64,
)
    requires
        in_order(s, floor),
        sound_task(s, c, t, watermark, floor),
    ensures
        in_order(compacted(s, c, t, watermark).0, higher(floor, watermark)),
{
    let b = compacted(s, c, t, watermark).0;
    law_compaction_keeps_levels(s, c, t, watermark, floor);
    lemma_memory_of(s);
    assert forall|l: int, i: int, d: RawEntry|
        0 <= l < b.version.len() && 0 <= i < b.version[l].len() && #[trigger] held(
            b.live,
            b.version[l][i],
        ).contains(d) implies levels_hold(s.live, s.version, 0, user_of(d.0), d) by {
        assert(b.version[l].contains(b.version[l][i]));
        lemma_held_on_level(b.live, b.version, l, b.version[l][i], d);
        law_compaction_adds_nothing(s, c, t, watermark, floor, user_of(d.0), d);
    }
    lemma_nothing_added(s, b, floor, higher(floor, watermark));
}

/// An engine with the same memtables and table files that hold nothing more is ordered the same.
proof fn lemma_nothing_added(a: EngineView, b: EngineView, floor: u64, top: u64)
    requires
        in_order(a, floor),
        covering_levels(b.live, b.version, top),
        b.active == a.active,
        b.immutables == a.immutables,
        b.sequence == a.sequence,
        forall|l: int, i: int, d: RawEntry|
            0 <= l < b.version.len() && 0 <= i < b.version[l].len() && #[trigger] held(
                b.live,
                b.version[l][i],
            ).contains(d) ==> levels_hold(a.live, a.version, 0, user_of(d.0), d),
    ensures
        in_order(b, top),
{
    lemma_memory_of(a);
    assert forall|m: Versions| #[trigger]
        covers_levels(a.live, m, a.version) implies covers_levels(b.live, m, b.version) by {
        assert forall|l: int, i: int|
            0 <= l < b.version.len() && 0 <= i < b.version[l].len() implies memtable_covers(
            b.live,
            m,
            #[trigger] b.version[l][i],
        ) by {
            assert forall|k: KeyView, d: RawEntry|
                #![trigger m.contains_key(k), held(b.live, b.version[l][i]).contains(d)]
                m.contains_key(k) && held(b.live, b.version[l][i]).contains(d) && user_of(d.0)
                    == k.0 implies k.1 > seq_of(d.0) || has_version(m, d) by {
                let p = lemma_place(a.live, a.version, user_of(d.0), d);
                assert(memtable_covers(a.live, m, a.version[p.0][p.1]));
            }
        }
    }
    lemma_memory(b);
    assert forall|l: int, i: int|
        0 <= l < b.version.len() && 0 <= i < b.version[l].len() implies file_below(
        b.live,
        #[trigger] b.version[l][i],
        b.sequence,
    ) by {
        assert forall|d: RawEntry| #[trigger]
            held(b.live, b.version[l][i]).contains(d) implies seq_of(d.0) < b.sequence by {
            let p = lemma_place(a.live, a.version, user_of(d.0), d);
            assert(file_below(a.live, a.version[p.0][p.1], a.sequence));
        }
    }
}

/// Flushing the oldest memtable set aside leaves an engine in order, whether it succeeds or not.
pub proof fn law_flush_in_order(s: EngineView, c: EngineConfig, floor: u64)
    requires
        in_order(s, floor),
        s.immutables.len() > 0,
        flush_fits(s.immutables[0], c),
    ensures
        in_order(flushed_one(s, c).0, floor),
{
    let b = flushed_one(s, c).0;
    lemma_memory_of(s);
    let m = s.immutables[0];
    assert(listed(m) && covers_levels(s.live, m, s.version));
    let es = choose|es: Entries| entries_sorted(es) && #[trigger] entries_list(es, m);
    law_flush_keeps_levels(s, c, es, floor);
    if flushed_one(s, c).1 is Some {
        lemma_memory(b);
    } else {
        assert forall|l: int, i: int, d: RawEntry|
            0 <= l < b.version.len() && 0 <= i < b.version[l].len() && #[trigger] held(
                b.live,
                b.version[l][i],
            ).contains(d) implies levels_hold(s.live, s.version, 0, user_of(d.0), d)
            || m.contains_key((user_of(d.0), seq_of(d.0))) by {
            law_flush_adds_memtable(s, c, es, l, i, d);
            if raw_entries(es).contains(d) {
                let q = choose|q: int| 0 <= q < raw_entries(es).len() && raw_entries(es)[q] == d;
                law_key_round_trip(es[q].0);
                assert(m.contains_key(es[q].0));
            }
        }
        lemma_flushed(s, b, floor);
    }
}

/// An engine of which the oldest memtable set aside became part of the table files.
proof fn lemma_flushed(a: EngineView, b: EngineView, floor: u64)
    requires
        in_order(a, floor),
        a.immutables.len() > 0,
        covering_levels(b.live, b.version, floor),
        b.active == a.active,
        b.immutables == a.immutables.drop_first(),
        b.sequence == a.sequence,
        forall|l: int, i: int, d: RawEntry|
            0 <= l < b.version.len() && 0 <= i < b.version[l].len() && #[trigger] held(
                b.live,
                b.version[l][i],
            ).contains(d) ==> levels_hold(a.live, a.version, 0, user_of(d.0), d)
                || a.immutables[0].contains_key((user_of(d.0), seq_of(d.0))),
    ensures
        in_order(b, floor),
{
    lemma_memory_of(a);
    let old = a.immutables[0];
    assert forall|m: Versions|
        covers_levels(a.live, m, a.version) && #[trigger] table_newer(m, old) implies covers_levels(
        b.live,
        m,
        b.version,
    ) by {
        assert forall|l: int, i: int|
            0 <= l < b.version.len() && 0 <= i < b.version[l].len() implies memtable_covers(
            b.live,
            m,
            #[trigger] b.version[l][i],
        ) by {
            assert forall|k: KeyView, d: RawEntry|
                #![trigger m.contains_key(k), held(b.live, b.version[l][i]).contains(d)]
                m.contains_key(k) && held(b.live, b.version[l][i]).contains(d) && user_of(d.0)
                    == k.0 implies k.1 > seq_of(d.0) || has_version(m, d) by {
                if levels_hold(a.live, a.version, 0, user_of(d.0), d) {
                    let p = lemma_place(a.live, a.version, user_of(d.0), d);
                    assert(memtable_covers(a.live, m, a.version[p.0][p.1]));
                }
            }
        }
    }
    assert(table_newer(a.active, old));
    assert forall|i: int| 0 <= i < b.immutables.len() implies {
        &&& listed(#[trigger] b.immutables[i])
        &&& covers_levels(b.live, b.immutables[i], b.version)
        &&& table_newer(b.active, b.immutables[i])
        &&& memtable_below(b.immutables[i], b.sequence)
    } by {
        assert(b.immutables[i] == a.immutables[i + 1]);
        assert(table_newer(a.immutables[i + 1], old));
    }
    lemma_memory(b);
    assert forall|l: int, i: int|
        0 <= l < b.version.len() && 0 <= i < b.version[l].len() implies file_below(
        b.live,
        #[trigger] b.version[l][i],
        b.sequence,
    ) by {
        assert forall|d: RawEntry| #[trigger]
            held(b.live, b.version[l][i]).contains(d) implies seq_of(d.0) < b.sequence by {
            if levels_hold(a.live, a.version, 0, user_of(d.0), d) {
                let p = lemma_place(a.live, a.version, user_of(d.0), d);
                assert(file_below(a.live, a.version[p.0][p.1], a.sequence));
            } else {
                assert(memtable_below(a.immutables[0], a.sequence));
            }
        }
    }
}

/// Tells whether the records of the log have all that an engine holds.
pub open spec fn all_logged(s: EngineView, records: Seq<Seq<u8>>) -> bool {
    forall|d: (KeyView, ValueView)| #[trigger]
        engine_has(s, d) ==> table_has(replayed(records).versions, d)
}

/// What writes that are read back put into the memtable can be listed in order.
proof fn lemma_listed_writes(s: ReplayView, ws: Seq<WriteView>)
    requires
        listed(s.versions),
    ensures
        listed(replay_writes(s, ws).versions),
    decreases ws.len(),
{
    if ws.len() > 0 {
        let t = ws.drop_last();
        let w = ws.last();
        lemma_listed_writes(s, t);
        lemma_listed_insert(replay_writes(s, t).versions, (w.0, w.2), w.1);
    }
}

/// The memtable that a log gives back can be listed in order.
proof fn lemma_listed_log(records: Seq<Seq<u8>>)
    ensures
        listed(replayed(records).versions),
    decreases records.len(),
{
    if records.len() == 0 {
        lemma_listed_empty();
    } else {
        lemma_listed_log(records.drop_last());
        let s = replayed(records.drop_last());
        match payload_of_bytes(records.last()) {
            Some(PayloadView::Kv(w)) => {
                lemma_listed_insert(s.versions, (w.0, w.2), w.1);
            },
            Some(PayloadView::Batch(ws)) => {
                lemma_listed_writes(s, ws);
            },
            Some(PayloadView::TxnCommit(id, ts)) => {
                if s.pending.contains_key(id) {
                    let t = ReplayView {
                        max_txn_id: larger(s.max_txn_id, id),
                        max_commit_ts: larger(s.max_commit_ts, ts),
                        max_seq: larger(s.max_seq, ts),
                        pending: s.pending.remove(id),
                        ..s
                    };
                    lemma_listed_writes(t, committed(s.pending[id], ts));
                }
            },
            _ => {},
        }
    }
}

/// What a table file of an engine holds, a memtable that has all that the engine holds has too.
proof fn lemma_has_version(s: EngineView, m: Versions, l: int, i: int, x: RawEntry)
    requires
        sound_levels(s.live, s.version),
        file_at_holds(s.live, s.version, l, i, x),
        forall|d: (KeyView, ValueView)| #[trigger] engine_has(s, d) ==> table_has(m, d),
    ensures
        has_version(m, x),
{
    let f = s.version[l][i];
    assert(s.version[l].contains(f));
    lemma_on_level(s.live, s.version, l, f);
    lemma_within(s.live, f, x);
    lemma_held(s.live, f);
    let es = held(s.live, f);
    let q = choose|q: int| 0 <= q < es.len() && es[q] == x;
    assert(recoded(es[q]) == es[q]);
    lemma_held_on_level(s.live, s.version, l, f, x);
    let e = lemma_denoted(s, user_of(x.0), x);
    assert(engine_has(s, e));
    law_key_bytes_round_trip(x.0);
}

/// Opening a database after a crash gives an engine in order: of what its table files repeat, the
/// log has given back all.
pub proof fn law_open_in_order(
    s: EngineView,
    records: Seq<Seq<u8>>,
    e: EngineView,
    max_levels: usize,
    floor: u64,
)
    requires
        covering_levels(s.live, s.version, floor),
        log_held(s, records),
        all_logged(s, records),
        !some_out_of_range(records),
        filed(s, max_levels),
        opened(
            e,
            s.durable,
            s.durable,
            max_levels,
            recovered(log_segments(with_log(s.durable)))->Ok_0,
        ),
    ensures
        in_order(e, floor),
        log_held(e, records),
        all_logged(e, records),
        filed(e, max_levels),
{
    let m = replayed(records).versions;
    let v = s.version;
    law_log_is_replayed(s, records, e, max_levels);
    assert(s.durable.dom().contains(FileId::Wal(s.wal_segment)));
    assert(e.live == s.durable && e.version == v && e.active == m);
    lemma_max_below(records);
    law_open_filed(s.durable, max_levels, replayed(records), e);
    law_open_keeps_log(s, records, e, max_levels, replayed(records));
    assert(tables_present(s)) by {
        assert forall|i: int, j: int| 0 <= i < v.len() && 0 <= j < v[i].len() implies s.live.contains_key(
            FileId::Sst((#[trigger] v[i][j]).file_num),
        ) by {
            assert(v[i].contains(v[i][j]));
            lemma_on_level(s.live, v, i, v[i][j]);
        }
    }
    law_filed_tables(s, max_levels);
    law_recovered_stamps_bounded(records);
    assert(memtable_below(m, e.sequence));
    assert forall|l: int, i: int| 0 <= l < v.len() && 0 <= i < v[l].len() implies sound_table(
        e.live,
        #[trigger] v[l][i],
    ) && held(e.live, v[l][i]) == held(s.live, v[l][i]) by {
        assert(v[l].contains(v[l][i]));
        lemma_on_level(s.live, v, l, v[l][i]);
        lemma_same_bytes(s.live, e.live, v[l][i]);
    }
    lemma_unchanged(s.live, e.live, v, floor);
    assert forall|l: int, i: int| 0 <= l < v.len() && 0 <= i < v[l].len() implies memtable_covers(
        e.live,
        m,
        #[trigger] v[l][i],
    ) && file_below(e.live, v[l][i], e.sequence) by {
        assert forall|d: RawEntry| #[trigger] held(e.live, v[l][i]).contains(d) implies has_version(
            m,
            d,
        ) by {
            assert(held(s.live, v[l][i]).contains(d));
            lemma_has_version(s, m, l, i, d);
        }
    }
    lemma_listed_log(records);
    lemma_memory(e);
    lemma_memtables(e);
    assert forall|d: (KeyView, ValueView)| #[trigger] engine_has(e, d) implies table_has(m, d) by {
        if in_memory(e, d) {
            let i = choose|i: int|
                0 <= i < memtables(e).len() && table_has(#[trigger] memtables(e)[i], d);
            assert(i == 0);
        } else {
            let x = choose|x: RawEntry| #[trigger]
                levels_hold(e.live, e.version, 0, d.0.0, x) && denotes(x, d);
            let p = lemma_place(e.live, e.version, d.0.0, x);
            assert(sound_table(e.live, v[p.0][p.1]));
            assert(v[p.0].contains(v[p.0][p.1]));
            lemma_held_on_level(s.live, v, p.0, v[p.0][p.1], x);
            assert(in_tables(s, d));
            assert(engine_has(s, d));
        }
    }
}

/// Setting the memtable aside leaves the log with all that an engine holds.
pub proof fn law_rotate_logged(s: EngineView, records: Seq<Seq<u8>>)
    requires
        all_logged(s, records),
    ensures
        all_logged(rotated(s), records),
{
    let b = rotated(s);
    lemma_memtables(s);
    lemma_memtables(b);
    assert forall|d: (KeyView, ValueView)| #[trigger] engine_has(b, d) implies engine_has(s, d) by {
        if in_memory(b, d) {
            let ms = memtables(b);
            let i = choose|i: int| 0 <= i < ms.len() && table_has(#[trigger] ms[i], d);
            if i > 0 && i <= s.immutables.len() {
                assert(ms[i] == b.immutables[i - 1]);
                assert(memtables(s)[i] == s.immutables[i - 1]);
            } else if i > 0 {
                assert(ms[i] == b.immutables[i - 1]);
                assert(memtables(s)[0] == s.active);
            }
        }
    }
}

/// A put or a delete that was acknowledged leaves the log with all that an engine holds.
pub proof fn law_write_logged(
    a: EngineView,
    b: EngineView,
    c: EngineConfig,
    key: Seq<u8>,
    value: ValueView,
    floor: u64,
    records: Seq<Seq<u8>>,
)
    requires
        in_order(a, floor),
        all_logged(a, records),
        written(a, b, c, key, value, Ok::<(), Error>(())),
        payload_fits(PayloadView::Kv((key, value, a.sequence))),
    ensures
        all_logged(b, records.push(payload_bytes(PayloadView::Kv((key, value, a.sequence))))),
{
    let w: WriteView = (key, value, a.sequence);
    let record = payload_bytes(PayloadView::Kv(w));
    let all = records.push(record);
    let next = EngineView { sequence: (a.sequence + 1) as u64, ..a };
    law_write_recovered(records, w);
    let mid = choose|mid: EngineView| #[trigger]
        committed_record(next, mid, c.wal_segment_size, record) && b == stored(
            mid,
            seq![w],
            c.memtable_size,
        );
    let t = EngineView { active: a.active.insert((key, a.sequence), value), ..mid };
    assert(with_writes(a.active, seq![w]) == t.active) by {
        assert(seq![w].drop_last() =~= Seq::<WriteView>::empty());
        reveal_with_fuel(with_writes, 2);
    }
    lemma_memory_of(a);
    lemma_memory(next);
    lemma_log_keeps_order(next, mid, a.sequence, floor);
    lemma_memtables(a);
    lemma_memtables(t);
    assert(all_logged(t, all)) by {
        assert forall|d: (KeyView, ValueView)| #[trigger] engine_has(t, d) implies table_has(
            replayed(all).versions,
            d,
        ) by {
            if in_memory(t, d) && !in_memory(a, d) {
                let ms = memtables(t);
                let i = choose|i: int| 0 <= i < ms.len() && table_has(#[trigger] ms[i], d);
                if i > 0 {
                    assert(ms[i] == t.immutables[i - 1]);
                    assert(memtables(a)[i] == a.immutables[i - 1]);
                    assert(table_has(memtables(a)[i], d));
                } else if d.0 != (key, a.sequence) {
                    assert(a.active.contains_key(d.0) && a.active[d.0] == d.1);
                    assert(table_has(memtables(a)[0], d));
                }
            } else {
                if !in_memory(t, d) {
                    lemma_tables_kept(a, t, d);
                }
                assert(engine_has(a, d));
                lemma_below(a, d, floor);
            }
        }
    }
    law_rotate_logged(t, all);
    lemma_size_logged(t, b, all);
    lemma_size_logged(rotated(t), b, all);
}

/// The size that a memtable counts does not bear on what an engine holds.
proof fn lemma_size_logged(a: EngineView, b: EngineView, records: Seq<Seq<u8>>)
    requires
        all_logged(a, records),
    ensures
        b == (EngineView { size: b.size, ..a }) ==> all_logged(b, records),
{
    if b == (EngineView { size: b.size, ..a }) {
        assert forall|d: (KeyView, ValueView)| #[trigger] engine_has(b, d) implies engine_has(a, d) by {
            assert(memtables(a) == memtables(b));
        }
    }
}

/// What the table files hold where only the log has changed, they held.
proof fn lemma_tables_kept(a: EngineView, b: EngineView, d: (KeyView, ValueView))
    requires
        sound_levels(a.live, a.version),
        sound_levels(b.live, b.version),
        b.version == a.version,
        same_but_log(a.live, b.live),
        in_tables(b, d),
    ensures
        in_tables(a, d),
{
    let x = choose|x: RawEntry| #[trigger]
        levels_hold(b.live, b.version, 0, d.0.0, x) && denotes(x, d);
    let p = lemma_place(b.live, b.version, d.0.0, x);
    let f = a.version[p.0][p.1];
    assert(a.version[p.0].contains(f));
    lemma_on_level(a.live, a.version, p.0, f);
    assert(b.live.contains_key(FileId::Sst(f.file_num)));
    lemma_same_bytes(a.live, b.live, f);
    lemma_held_on_level(a.live, a.version, p.0, f, x);
}

/// What an engine in order holds is below its sequence number.
proof fn lemma_below(s: EngineView, d: (KeyView, ValueView), floor: u64)
    requires
        in_order(s, floor),
        engine_has(s, d),
    ensures
        d.0.1 < s.sequence,
{
    lemma_memtables(s);
    if in_memory(s, d) {
        let ms = memtables(s);
        let i = choose|i: int| 0 <= i < ms.len() && table_has(#[trigger] ms[i], d);
        if i > 0 {
            assert(ms[i] == s.immutables[i - 1]);
            assert(memtable_below(s.immutables[i - 1], s.sequence));
        }
    } else {
        let x = choose|x: RawEntry| #[trigger]
            levels_hold(s.live, s.version, 0, d.0.0, x) && denotes(x, d);
        let p = lemma_place(s.live, s.version, d.0.0, x);
        assert(file_below(s.live, s.version[p.0][p.1], s.sequence));
    }
}

/// Flushing the oldest memtable set aside leaves the log with all that an engine holds.
pub proof fn law_flush_logged(s: EngineView, c: EngineConfig, floor: u64, records: Seq<Seq<u8>>)
    requires
        in_order(s, floor),
        all_logged(s, records),
        s.immutables.len() > 0,
        flush_fits(s.immutables[0], c),
    ensures
        all_logged(flushed_one(s, c).0, records),
{
    let b = flushed_one(s, c).0;
    law_flush_in_order(s, c, floor);
    lemma_memory_of(s);
    lemma_memtables(s);
    lemma_memtables(b);
    let m = s.immutables[0];
    assert(listed(m));
    let es = choose|es: Entries| entries_sorted(es) && #[trigger] entries_list(es, m);
    assert forall|d: (KeyView, ValueView)| #[trigger] engine_has(b, d) implies engine_has(s, d) by {
        if in_memory(b, d) {
            let ms = memtables(b);
            let i = choose|i: int| 0 <= i < ms.len() && table_has(#[trigger] ms[i], d);
            if i == 0 {
                assert(table_has(memtables(s)[0], d));
            } else {
                let j = if b.immutables == s.immutables {
                    i
                } else {
                    i + 1
                };
                assert(ms[i] == b.immutables[i - 1]);
                assert(memtables(s)[j] == s.immutables[j - 1]);
                assert(table_has(memtables(s)[j], d));
            }
        } else {
            let x = choose|x: RawEntry| #[trigger]
                levels_hold(b.live, b.version, 0, d.0.0, x) && denotes(x, d);
            let p = lemma_place(b.live, b.version, d.0.0, x);
            law_flush_adds_memtable(s, c, es, p.0, p.1, x);
            if !levels_hold(s.live, s.version, 0, d.0.0, x) {
                let q = choose|q: int| 0 <= q < raw_entries(es).len() && raw_entries(es)[q] == x;
                law_key_round_trip(es[q].0);
                law_value_round_trip(es[q].1);
                assert(m.contains_key(es[q].0) && m[es[q].0] == es[q].1);
                assert(memtables(s)[1] == m);
                assert(table_has(memtables(s)[1], d));
            }
        }
    }
}

/// A compaction leaves the log with all that an engine holds.
pub proof fn law_compaction_logged(
    s: EngineView,
    c: EngineConfig,
    t: TaskView,
    watermark: Option<u64>,
    floor: u64,
    records: Seq<Seq<u8>>,
)
    requires
        all_logged(s, records),
        sound_task(s, c, t, watermark, floor),
    ensures
        all_logged(compacted(s, c, t, watermark).0, records),
{
    let b = compacted(s, c, t, watermark).0;
    assert forall|d: (KeyView, ValueView)| #[trigger] engine_has(b, d) implies engine_has(s, d) by {
        assert(memtables(b) == memtables(s));
        if !in_memory(b, d) {
            let x = choose|x: RawEntry| #[trigger]
                levels_hold(b.live, b.version, 0, d.0.0, x) && denotes(x, d);
            law_compaction_adds_nothing(s, c, t, watermark, floor, d.0.0, x);
        }
    }
}

} // verus!
