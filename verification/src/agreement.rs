//! Reads and scans of an engine agree.

use crate::block::RawEntry;
use crate::codec::lex_lt;
use crate::compaction::{
    canonical, entry_problem, nums_of, recoded, source_of, sources_of, FileView,
};
use crate::disk::{FileId, Files};
use crate::engine::{
    all_nums, gathered, immutables_lookup, immutables_versions, lemma_ranges_whole,
    lemma_up_to_twice, memory_lookup, memory_ranges, memory_versions, memory_written_after, of_key,
    read_state, scan_sources_of, state_written_after, table_ranges, up_to, versions_listed,
    EngineView, KeyVersion,
};
use crate::error::ErrorView;
use crate::levels::{
    covering_levels, covers_levels, file_at_holds, has_version, held, holds, holds_after,
    law_tables_give_newest, lemma_held, lemma_held_on_level, lemma_on_level, lemma_place,
    lemma_sources, lemma_sources_read, lemma_tables_read, lemma_tables_written, lemma_within,
    levels_hold, levels_hold_after, memtable_covers, served, some_holds, sound_levels,
};
use crate::memtable::{
    entries_list, entries_of, entries_sorted, key_lt, lemma_newest_cases, lookup_at, newest_at,
    written_after, Entries, KeyView, ValueView, Versions,
};
use crate::merge::{seq_of, user_of};
use crate::scan::{
    agreeing, all_in_order, decoded, in_range, in_some_source, interleaved, keys_ascend, law_range,
    law_scan, law_scan_has_all, newest_seen, scanned, shows, BoundView, KeyValue,
};
use crate::sstable::{
    is_key, law_front_is_all, law_key_bytes_round_trip, law_key_order, law_value_round_trip, raw_sorted, seq_part, table_index, user_part, value_of_bytes,
};
use vstd::prelude::*;

verus! {

/// The memtables: the one in use and those set aside, oldest first.
pub open spec fn memtables(s: EngineView) -> Seq<Versions> {
    seq![s.active] + s.immutables
}

/// Tells whether the versions of a memtable can be listed in order.
pub open spec fn listed(m: Versions) -> bool {
    exists|es: Entries| entries_sorted(es) && #[trigger] entries_list(es, m)
}

/// Tells whether each version in a memtable is newer than each of the same user key in another.
pub open spec fn table_newer(m: Versions, n: Versions) -> bool {
    forall|a: KeyView, b: KeyView|
        #![trigger m.contains_key(a), n.contains_key(b)]
        m.contains_key(a) && n.contains_key(b) && a.0 == b.0 ==> a.1 > b.1
}

/// Tells whether of two versions of a user key the newer is in the memtable in use, in one that
/// was set aside later, or in a memtable and not in a table file; a table file may repeat what a
/// memtable holds, as where a database was opened and its log read back.
pub open spec fn memory_newest_first(s: EngineView) -> bool {
    &&& forall|i: int| 0 <= i < memtables(s).len() ==> listed(#[trigger] memtables(s)[i])
    &&& forall|i: int| 0 <= i < s.immutables.len() ==> table_newer(s.active, #[trigger] s.immutables[i])
    &&& forall|i: int, j: int|
        0 <= i < j < s.immutables.len() ==> table_newer(
            #[trigger] s.immutables[j],
            #[trigger] s.immutables[i],
        )
    &&& forall|i: int|
        0 <= i < memtables(s).len() ==> covers_levels(
            s.live,
            #[trigger] memtables(s)[i],
            s.version,
        )
}

/// Tells whether a memtable holds a version with its value.
pub open spec fn table_has(m: Versions, e: (KeyView, ValueView)) -> bool {
    m.contains_key(e.0) && m[e.0] == e.1
}

/// Tells whether some memtable holds a version with its value.
pub open spec fn in_memory(s: EngineView, e: (KeyView, ValueView)) -> bool {
    exists|i: int| 0 <= i < memtables(s).len() && table_has(#[trigger] memtables(s)[i], e)
}

/// Tells whether bytes denote a version with its value.
pub open spec fn denotes(x: RawEntry, e: (KeyView, ValueView)) -> bool {
    user_of(x.0) == e.0.0 && seq_of(x.0) == e.0.1 && value_of_bytes(x.1) == Some(e.1)
}

/// Tells whether some table file holds a version with its value.
pub open spec fn in_tables(s: EngineView, e: (KeyView, ValueView)) -> bool {
    exists|x: RawEntry| #[trigger]
        levels_hold(s.live, s.version, 0, e.0.0, x) && denotes(x, e)
}

/// Tells whether an engine holds a version with its value.
pub open spec fn engine_has(s: EngineView, e: (KeyView, ValueView)) -> bool {
    in_memory(s, e) || in_tables(s, e)
}

/// Tells whether a version is the newest of its user key that a reader sees.
pub open spec fn newest_in_engine(s: EngineView, e: (KeyView, ValueView), at: u64) -> bool {
    &&& engine_has(s, e)
    &&& e.0.1 <= at
    &&& forall|d: (KeyView, ValueView)| #[trigger]
        engine_has(s, d) && d.0.0 == e.0.0 && d.0.1 <= at ==> d.0.1 <= e.0.1
}

proof fn lemma_lookup(m: Versions, key: Seq<u8>, at: u64)
    ensures
        match lookup_at(m, key, at) {
            Some(v) => {
                let t = newest_at(m, key, at)->0;
                &&& t <= at
                &&& table_has(m, ((key, t), v))
                &&& forall|u: u64| u <= at && #[trigger] m.contains_key((key, u)) ==> u <= t
            },
            None => forall|u: u64| u <= at ==> !#[trigger] m.contains_key((key, u)),
        },
{
    lemma_newest_cases(m, key, at);
}

/// The memtables set aside give the newest version that the first `n` of them hold.
proof fn lemma_immutables_read(ms: Seq<Versions>, n: nat, key: Seq<u8>, at: u64) -> (r: (int, u64))
    requires
        n <= ms.len(),
        forall|i: int, j: int|
            0 <= i < j < ms.len() ==> table_newer(#[trigger] ms[j], #[trigger] ms[i]),
    ensures
        match immutables_lookup(ms, n, key, at) {
            Some(v) => {
                &&& 0 <= r.0 < n
                &&& r.1 <= at
                &&& table_has(ms[r.0], ((key, r.1), v))
                &&& forall|i: int, u: u64|
                    0 <= i < n && u <= at && #[trigger] ms[i].contains_key((key, u)) ==> u <= r.1
            },
            None => forall|i: int, u: u64|
                0 <= i < n && u <= at ==> !#[trigger] ms[i].contains_key((key, u)),
        },
    decreases n,
{
    if n == 0 {
        (0, 0)
    } else {
        let m = n - 1;
        lemma_lookup(ms[m], key, at);
        match lookup_at(ms[m], key, at) {
            Some(v) => {
                let t = newest_at(ms[m], key, at)->0;
                assert forall|i: int, u: u64|
                    0 <= i < n && u <= at && #[trigger] ms[i].contains_key((key, u)) implies u <= t by {
                    if i < m {
                        assert(table_newer(ms[m], ms[i]));
                        assert(ms[m].contains_key((key, t)));
                    }
                }
                (m, t)
            },
            None => { lemma_immutables_read(ms, m as nat, key, at) },
        }
    }
}

/// The memtables give the newest version that they hold.
#[verifier::rlimit(40)]
proof fn lemma_memory_read(s: EngineView, key: Seq<u8>, at: u64) -> (t: u64)
    requires
        memory_newest_first(s),
    ensures
        match memory_lookup(s, key, at) {
            Some(v) => {
                &&& t <= at
                &&& in_memory(s, ((key, t), v))
                &&& forall|d: (KeyView, ValueView)| #[trigger]
                    in_memory(s, d) && d.0.0 == key && d.0.1 <= at ==> d.0.1 <= t
            },
            None => forall|d: (KeyView, ValueView)| #[trigger]
                in_memory(s, d) && d.0.0 == key ==> d.0.1 > at,
        },
{
    let ms = memtables(s);
    lemma_lookup(s.active, key, at);
    let r = lemma_immutables_read(s.immutables, s.immutables.len(), key, at);
    let t = match lookup_at(s.active, key, at) {
        Some(_) => newest_at(s.active, key, at)->0,
        None => r.1,
    };
    assert forall|d: (KeyView, ValueView)| #[trigger]
        in_memory(s, d) && d.0.0 == key && d.0.1 <= at implies memory_lookup(s, key, at) is Some
        && d.0.1 <= t by {
        let i = choose|i: int| 0 <= i < ms.len() && table_has(#[trigger] ms[i], d);
        assert(d.0 == (key, d.0.1));
        if i == 0 {
            assert(s.active.contains_key((key, d.0.1)));
        } else {
            assert(ms[i] == s.immutables[i - 1]);
            assert(s.immutables[i - 1].contains_key((key, d.0.1)));
            if lookup_at(s.active, key, at) is Some {
                assert(table_newer(s.active, s.immutables[i - 1]));
                assert(s.active.contains_key((key, t)));
            }
        }
    }
    match memory_lookup(s, key, at) {
        Some(v) => {
            if lookup_at(s.active, key, at) is Some {
                assert(table_has(ms[0], ((key, t), v)));
            } else {
                assert(ms[r.0 + 1] == s.immutables[r.0]);
                assert(table_has(ms[r.0 + 1], ((key, t), v)));
            }
        },
        None => {},
    }
    t
}

/// What a table file holds denotes a version.
pub proof fn lemma_denoted(s: EngineView, key: Seq<u8>, x: RawEntry) -> (e: (KeyView, ValueView))
    requires
        sound_levels(s.live, s.version),
        levels_hold(s.live, s.version, 0, key, x),
    ensures
        e.0 == (key, seq_of(x.0)),
        denotes(x, e),
        in_tables(s, e),
{
    let p = lemma_place(s.live, s.version, key, x);
    let f = s.version[p.0][p.1];
    assert(s.version[p.0].contains(f));
    lemma_on_level(s.live, s.version, p.0, f);
    lemma_within(s.live, f, x);
    let e = ((key, seq_of(x.0)), value_of_bytes(x.1)->0);
    assert(denotes(x, e));
    e
}

/// A version in a table file is older than one of the same user key in a memtable, or is in a
/// memtable too.
proof fn lemma_memory_newer(s: EngineView, e: (KeyView, ValueView), d: (KeyView, ValueView))
    requires
        sound_levels(s.live, s.version),
        memory_newest_first(s),
        in_memory(s, e),
        in_tables(s, d),
        e.0.0 == d.0.0,
    ensures
        e.0.1 > d.0.1 || in_memory(s, d),
{
    let ms = memtables(s);
    let i = choose|i: int| 0 <= i < ms.len() && table_has(#[trigger] ms[i], e);
    let x = choose|x: RawEntry| #[trigger]
        levels_hold(s.live, s.version, 0, d.0.0, x) && denotes(x, d);
    let p = lemma_place(s.live, s.version, d.0.0, x);
    assert(covers_levels(s.live, ms[i], s.version));
    assert(memtable_covers(s.live, ms[i], s.version[p.0][p.1]));
    assert(ms[i].contains_key(e.0));
    assert(held(s.live, s.version[p.0][p.1]).contains(x));
    if has_version(ms[i], x) {
        law_value_round_trip(ms[i][d.0]);
        assert(table_has(ms[i], d));
    }
}

/// A key has a write after a sequence number exactly where some version of it is newer,
/// wherever it is: in the memtable in use, in one set aside, or in a table file of any level.
pub proof fn law_write_after_found(s: EngineView, key: Seq<u8>, ts: u64)
    requires
        sound_levels(s.live, s.version),
    ensures
        state_written_after(s, key, ts) == Ok::<bool, ErrorView>(
            exists|d: (KeyView, ValueView)| #[trigger]
                engine_has(s, d) && d.0.0 == key && d.0.1 > ts,
        ),
{
    let ms = memtables(s);
    let found = exists|d: (KeyView, ValueView)| #[trigger]
        engine_has(s, d) && d.0.0 == key && d.0.1 > ts;
    lemma_tables_written(s.live, s.version, key, ts);
    if memory_written_after(s, key, ts) {
        let i: int = if written_after(s.active, key, ts) {
            0
        } else {
            1 + choose|i: int|
                0 <= i < s.immutables.len() && written_after(#[trigger] s.immutables[i], key, ts)
        };
        let m = ms[i];
        assert(written_after(m, key, ts));
        let t = choose|t: u64| t > ts && #[trigger] m.contains_key((key, t));
        let d = ((key, t), m[(key, t)]);
        assert(table_has(ms[i], d));
        assert(engine_has(s, d));
    }
    if levels_hold_after(s.live, s.version, 0, key, ts) {
        let (l, j) = choose|l: int, j: int|
            0 <= l < s.version.len() && 0 <= j < s.version[l].len() && holds_after(
                s.live,
                #[trigger] s.version[l][j],
                key,
                ts,
            );
        let x = choose|x: RawEntry| #[trigger]
            holds(s.live, s.version[l][j], key, x) && seq_of(x.0) > ts;
        let files = s.version[l];
        assert(holds(s.live, files[j], key, x));
        assert(some_holds(s.live, s.version[l], s.version[l].len(), key, x));
        assert(levels_hold(s.live, s.version, 0, key, x));
        let d = lemma_denoted(s, key, x);
        assert(engine_has(s, d));
    }
    if found {
        let d = choose|d: (KeyView, ValueView)| #[trigger]
            engine_has(s, d) && d.0.0 == key && d.0.1 > ts;
        if in_memory(s, d) {
            let i = choose|i: int| 0 <= i < ms.len() && table_has(#[trigger] ms[i], d);
            assert(d.0 == (key, d.0.1));
            assert(ms[i].contains_key((key, d.0.1)));
            assert(written_after(ms[i], key, ts));
            if i > 0 {
                assert(ms[i] == s.immutables[i - 1]);
                assert(written_after(s.immutables[i - 1], key, ts));
            }
            assert(memory_written_after(s, key, ts));
        } else {
            let x = choose|x: RawEntry| #[trigger]
                levels_hold(s.live, s.version, 0, d.0.0, x) && denotes(x, d);
            let p = lemma_place(s.live, s.version, key, x);
            assert(holds(s.live, s.version[p.0][p.1], key, x));
            assert(holds_after(s.live, s.version[p.0][p.1], key, ts));
        }
    }
}

/// A key has a write after a sequence number exactly where its newest version is after it.
pub proof fn law_write_after_newest(s: EngineView, key: Seq<u8>, ts: u64, newest: u64, v: ValueView)
    requires
        sound_levels(s.live, s.version),
        newest_in_engine(s, ((key, newest), v), u64::MAX),
    ensures
        state_written_after(s, key, ts) == Ok::<bool, ErrorView>(newest > ts),
{
    law_write_after_found(s, key, ts);
    let e = ((key, newest), v);
    assert(engine_has(s, e));
}

/// A read gives the newest version that a reader sees, and nothing exactly where it sees none.
pub proof fn law_read_gives_newest(s: EngineView, key: Seq<u8>, at: u64, floor: u64)
    requires
        covering_levels(s.live, s.version, floor),
        served(s.live, s.version, key, at, floor),
        memory_newest_first(s),
    ensures
        forall|t: u64, v: ValueView| #[trigger]
            newest_in_engine(s, ((key, t), v), at) ==> read_state(s, key, at) == Ok::<
                Option<ValueView>,
                ErrorView,
            >(Some(v)),
        (forall|d: (KeyView, ValueView)| #[trigger]
            engine_has(s, d) && d.0.0 == key ==> d.0.1 > at) ==> read_state(s, key, at) == Ok::<
            Option<ValueView>,
            ErrorView,
        >(None),
        match read_state(s, key, at) {
            Ok(Some(v)) => exists|t: u64| #[trigger] newest_in_engine(s, ((key, t), v), at),
            Ok(None) => forall|d: (KeyView, ValueView)| #[trigger]
                engine_has(s, d) && d.0.0 == key ==> d.0.1 > at,
            Err(_) => false,
        },
{
    let t = lemma_memory_read(s, key, at);
    if memory_lookup(s, key, at) is Some {
        let e = ((key, t), memory_lookup(s, key, at)->0);
        assert(newest_in_engine(s, e, at)) by {
            assert forall|d: (KeyView, ValueView)| #[trigger]
                engine_has(s, d) && d.0.0 == e.0.0 && d.0.1 <= at implies d.0.1 <= e.0.1 by {
                if in_tables(s, d) {
                    lemma_memory_newer(s, e, d);
                }
            }
        }
    } else {
        let r = lemma_tables_read(s.live, s.version, key, at, floor);
        law_tables_give_newest(s, key, at, floor, r);
        match r {
            Some(x) => {
                let e = lemma_denoted(s, key, x);
                assert(newest_in_engine(s, e, at)) by {
                    assert forall|d: (KeyView, ValueView)| #[trigger]
                        engine_has(s, d) && d.0.0 == e.0.0 && d.0.1 <= at implies d.0.1 <= e.0.1 by {
                        let y = choose|y: RawEntry| #[trigger]
                            levels_hold(s.live, s.version, 0, d.0.0, y) && denotes(y, d);
                        assert(levels_hold(s.live, s.version, 0, key, y));
                    }
                }
                assert(newest_in_engine(s, ((key, e.0.1), e.1), at));
            },
            None => {
                assert forall|d: (KeyView, ValueView)| #[trigger]
                    engine_has(s, d) && d.0.0 == key implies d.0.1 > at by {
                    if in_tables(s, d) {
                        let y = choose|y: RawEntry| #[trigger]
                            levels_hold(s.live, s.version, 0, d.0.0, y) && denotes(y, d);
                        assert(levels_hold(s.live, s.version, 0, key, y));
                    }
                }
            },
        }
    }
    assert forall|t: u64, v: ValueView| #[trigger]
        newest_in_engine(s, ((key, t), v), at) implies read_state(s, key, at) == Ok::<
        Option<ValueView>,
        ErrorView,
    >(Some(v)) by {
        let e = ((key, t), v);
        assert(engine_has(s, e));
        assert(read_state(s, key, at)->Ok_0 is Some);
        let w = read_state(s, key, at)->Ok_0->0;
        let u = choose|u: u64| #[trigger] newest_in_engine(s, ((key, u), w), at);
        assert(engine_has(s, ((key, u), w)));
        lemma_one_value(s, e, ((key, u), w));
    }
}

/// The versions that entries of a table file denote, one by one.
proof fn lemma_decoded(es: Seq<RawEntry>)
    requires
        canonical(es),
    ensures
        decoded(es).len() == es.len(),
        forall|i: int|
            0 <= i < es.len() ==> denotes(es[i], #[trigger] decoded(es)[i]) && is_key(es[i].0),
    decreases es.len(),
{
    if es.len() > 0 {
        let t = es.drop_last();
        let n = t.len() as int;
        assert forall|i: int| 0 <= i < t.len() implies entry_problem(#[trigger] t[i]) is None
            && recoded(t[i]) == t[i] by {
            assert(t[i] == es[i]);
        }
        lemma_decoded(t);
        assert(entry_problem(es[n]) is None);
        assert forall|i: int| 0 <= i < es.len() implies denotes(es[i], #[trigger] decoded(es)[i])
            && is_key(es[i].0) by {
            if i < n {
                assert(decoded(es)[i] == decoded(t)[i]);
                assert(es[i] == t[i]);
            }
        }
    }
}

proof fn lemma_decoded_sorted(es: Seq<RawEntry>)
    requires
        canonical(es),
        raw_sorted(es),
    ensures
        entries_sorted(decoded(es)),
{
    lemma_decoded(es);
    let out = decoded(es);
    assert forall|i: int, j: int| 0 <= i < j < out.len() implies key_lt(
        (#[trigger] out[i]).0,
        (#[trigger] out[j]).0,
    ) by {
        assert(denotes(es[i], out[i]) && denotes(es[j], out[j]));
        law_key_bytes_round_trip(es[i].0);
        law_key_bytes_round_trip(es[j].0);
        assert(lex_lt(es[i].0, es[j].0));
        law_key_order(
            (user_part(es[i].0), seq_part(es[i].0)),
            (user_part(es[j].0), seq_part(es[j].0)),
        );
    }
}

/// The numbers of the files of all levels.
proof fn lemma_all_nums(v: Seq<Seq<FileView>>, k: int) -> (p: (int, int))
    requires
        0 <= k < all_nums(v).len(),
    ensures
        0 <= p.0 < v.len(),
        0 <= p.1 < v[p.0].len(),
        v[p.0][p.1].file_num == all_nums(v)[k],
    decreases v.len(),
{
    let t = v.drop_last();
    let front = all_nums(t);
    if k < front.len() {
        let p = lemma_all_nums(t, k);
        assert(t[p.0] == v[p.0]);
        p
    } else {
        let n = v.len() - 1;
        (n, k - front.len())
    }
}

proof fn lemma_num_listed(v: Seq<Seq<FileView>>, l: int, i: int) -> (k: int)
    requires
        0 <= l < v.len(),
        0 <= i < v[l].len(),
    ensures
        0 <= k < all_nums(v).len(),
        all_nums(v)[k] == v[l][i].file_num,
    decreases v.len(),
{
    let t = v.drop_last();
    let front = all_nums(t);
    if l == v.len() - 1 {
        let k = front.len() + i;
        assert(nums_of(v.last())[i] == v[l][i].file_num);
        k
    } else {
        assert(t[l] == v[l]);
        lemma_num_listed(t, l, i)
    }
}

/// The table files of all levels, as a scan reads them.
proof fn lemma_scan_tables(s: EngineView)
    requires
        sound_levels(s.live, s.version),
    ensures
        sources_of(s.live, all_nums(s.version)) is Ok,
        sources_of(s.live, all_nums(s.version))->Ok_0.len() == all_nums(s.version).len(),
{
    let nums = all_nums(s.version);
    assert forall|k: int| 0 <= k < nums.len() implies source_of(s.live, #[trigger] nums[k]) is Ok by {
        let p = lemma_all_nums(s.version, k);
        let f = s.version[p.0][p.1];
        assert(s.version[p.0].contains(f));
        lemma_on_level(s.live, s.version, p.0, f);
        lemma_held(s.live, f);
    }
    lemma_sources_read(s.live, nums);
    lemma_sources(s.live, nums);
}

/// A table file as a scan reads it.
proof fn lemma_scan_table(s: EngineView, k: int) -> (p: (int, int))
    requires
        sound_levels(s.live, s.version),
        0 <= k < all_nums(s.version).len(),
    ensures
        0 <= p.0 < s.version.len(),
        0 <= p.1 < s.version[p.0].len(),
        s.version[p.0][p.1].file_num == all_nums(s.version)[k],
        sources_of(s.live, all_nums(s.version))->Ok_0[k] == held(s.live, s.version[p.0][p.1]),
        canonical(held(s.live, s.version[p.0][p.1])),
        raw_sorted(held(s.live, s.version[p.0][p.1])),
{
    lemma_scan_tables(s);
    lemma_sources(s.live, all_nums(s.version));
    let p = lemma_all_nums(s.version, k);
    let f = s.version[p.0][p.1];
    assert(s.version[p.0].contains(f));
    lemma_on_level(s.live, s.version, p.0, f);
    lemma_held(s.live, f);
    reveal(held);
    p
}

/// The versions of a memtable, listed in order.
proof fn lemma_listed(m: Versions, e: (KeyView, ValueView))
    requires
        listed(m),
    ensures
        entries_sorted(entries_of(m)),
        entries_of(m).contains(e) == table_has(m, e),
{
    let es = entries_of(m);
    assert(entries_sorted(es) && entries_list(es, m));
    if table_has(m, e) {
        let q = choose|q: int| 0 <= q < es.len() && (#[trigger] es[q]).0 == e.0;
        assert(es[q] == e);
    }
    if es.contains(e) {
        let q = choose|q: int| 0 <= q < es.len() && es[q] == e;
        assert(m.contains_key(es[q].0));
    }
}

/// A scan reads of the memtables what they hold in its range.
proof fn lemma_scan_memory(s: EngineView, start: BoundView, end: BoundView, e: (KeyView, ValueView))
    requires
        memory_newest_first(s),
    ensures
        all_in_order(memory_ranges(memtables(s), start, end)),
        in_some_source(memory_ranges(memtables(s), start, end), e) == (in_memory(s, e) && in_range(
            start,
            end,
            e.0.0,
        )),
{
    let ms = memtables(s);
    let srcs = memory_ranges(ms, start, end);
    assert forall|i: int| 0 <= i < srcs.len() implies entries_sorted(#[trigger] srcs[i])
        && srcs[i].contains(e) == (table_has(ms[i], e) && in_range(start, end, e.0.0)) by {
        assert(listed(ms[i]));
        lemma_listed(ms[i], e);
        law_range(entries_of(ms[i]), start, end, e);
    }
    if in_some_source(srcs, e) {
        let i = choose|i: int| 0 <= i < srcs.len() && (#[trigger] srcs[i]).contains(e);
        assert(table_has(ms[i], e));
    }
    if in_memory(s, e) && in_range(start, end, e.0.0) {
        let i = choose|i: int| 0 <= i < ms.len() && table_has(#[trigger] ms[i], e);
        assert(srcs[i].contains(e));
    }
}

/// The versions that entries denote are those that some entry denotes.
proof fn lemma_decoded_has(es: Seq<RawEntry>, e: (KeyView, ValueView))
    requires
        canonical(es),
    ensures
        decoded(es).contains(e) <==> exists|x: RawEntry| #[trigger] es.contains(x) && denotes(x, e),
{
    lemma_decoded(es);
    let out = decoded(es);
    if out.contains(e) {
        let q = choose|q: int| 0 <= q < out.len() && out[q] == e;
        assert(denotes(es[q], out[q]));
        assert(es.contains(es[q]));
    }
    if exists|x: RawEntry| #[trigger] es.contains(x) && denotes(x, e) {
        let x = choose|x: RawEntry| #[trigger] es.contains(x) && denotes(x, e);
        let q = choose|q: int| 0 <= q < es.len() && es[q] == x;
        assert(denotes(es[q], out[q]));
        assert(out[q] == e);
    }
}

/// A scan reads of the table files what they hold in its range.
proof fn lemma_scan_files(s: EngineView, start: BoundView, end: BoundView, e: (KeyView, ValueView))
    requires
        sound_levels(s.live, s.version),
    ensures
        ({
            let srcs = table_ranges(
                sources_of(s.live, all_nums(s.version))->Ok_0,
                start,
                end,
            );
            &&& all_in_order(srcs)
            &&& in_some_source(srcs, e) == (in_tables(s, e) && in_range(start, end, e.0.0))
        }),
{
    let raw = sources_of(s.live, all_nums(s.version))->Ok_0;
    let srcs = table_ranges(raw, start, end);
    lemma_scan_tables(s);
    assert forall|k: int| 0 <= k < srcs.len() implies entries_sorted(#[trigger] srcs[k])
        && srcs[k].contains(e) == (decoded(raw[k]).contains(e) && in_range(start, end, e.0.0)) by {
        let p = lemma_scan_table(s, k);
        lemma_decoded_sorted(raw[k]);
        law_range(decoded(raw[k]), start, end, e);
    }
    if in_some_source(srcs, e) {
        let k = choose|k: int| 0 <= k < srcs.len() && (#[trigger] srcs[k]).contains(e);
        let p = lemma_scan_table(s, k);
        lemma_decoded_has(raw[k], e);
        let x = choose|x: RawEntry| #[trigger] raw[k].contains(x) && denotes(x, e);
        let f = s.version[p.0][p.1];
        assert(s.version[p.0].contains(f));
        lemma_held_on_level(s.live, s.version, p.0, f, x);
        assert(levels_hold(s.live, s.version, 0, e.0.0, x));
    }
    if in_tables(s, e) && in_range(start, end, e.0.0) {
        let x = choose|x: RawEntry| #[trigger]
            levels_hold(s.live, s.version, 0, e.0.0, x) && denotes(x, e);
        let p = lemma_place(s.live, s.version, e.0.0, x);
        let k = lemma_num_listed(s.version, p.0, p.1);
        let q = lemma_scan_table(s, k);
        assert(held(s.live, s.version[q.0][q.1]) == held(s.live, s.version[p.0][p.1])) by {
            reveal(held);
        }
        assert(raw[k].contains(x));
        lemma_decoded_has(raw[k], e);
        assert(srcs[k].contains(e));
    }
}

/// No version is in an engine with two values.
proof fn lemma_one_value(s: EngineView, e: (KeyView, ValueView), d: (KeyView, ValueView))
    requires
        sound_levels(s.live, s.version),
        memory_newest_first(s),
        engine_has(s, e),
        engine_has(s, d),
        e.0 == d.0,
    ensures
        e.1 == d.1,
{
    if in_memory(s, e) && in_tables(s, d) {
        lemma_memory_newer(s, e, d);
    }
    if in_memory(s, d) && in_tables(s, e) {
        lemma_memory_newer(s, d, e);
    }
    if in_memory(s, e) {
        let ms = memtables(s);
        let i = choose|i: int| 0 <= i < ms.len() && table_has(#[trigger] ms[i], e);
        let j = choose|j: int| 0 <= j < ms.len() && table_has(#[trigger] ms[j], d);
        assert(ms[i].contains_key(e.0) && ms[j].contains_key(d.0));
        if i != j {
            if i == 0 {
                assert(ms[j] == s.immutables[j - 1]);
                assert(table_newer(s.active, s.immutables[j - 1]));
            } else if j == 0 {
                assert(ms[i] == s.immutables[i - 1]);
                assert(table_newer(s.active, s.immutables[i - 1]));
            } else {
                assert(ms[i] == s.immutables[i - 1] && ms[j] == s.immutables[j - 1]);
                if i < j {
                    assert(table_newer(s.immutables[j - 1], s.immutables[i - 1]));
                } else {
                    assert(table_newer(s.immutables[i - 1], s.immutables[j - 1]));
                }
            }
        }
    } else {
        let x = choose|x: RawEntry| #[trigger]
            levels_hold(s.live, s.version, 0, e.0.0, x) && denotes(x, e);
        let y = choose|y: RawEntry| #[trigger]
            levels_hold(s.live, s.version, 0, d.0.0, y) && denotes(y, d);
        let p = lemma_place(s.live, s.version, e.0.0, x);
        let q = lemma_place(s.live, s.version, d.0.0, y);
        law_key_bytes_round_trip(x.0);
        law_key_bytes_round_trip(y.0);
        assert(file_at_holds(s.live, s.version, p.0, p.1, x));
        assert(file_at_holds(s.live, s.version, q.0, q.1, y));
    }
}

/// The sources of a scan: in order, and together what the engine holds in the range.
proof fn lemma_scan_sources(s: EngineView, start: BoundView, end: BoundView, e: (KeyView, ValueView))
    requires
        sound_levels(s.live, s.version),
        memory_newest_first(s),
    ensures
        scan_sources_of(s, start, end) is Ok,
        all_in_order(scan_sources_of(s, start, end)->Ok_0),
        interleaved(scan_sources_of(s, start, end)->Ok_0).contains(e) == (engine_has(s, e)
            && in_range(start, end, e.0.0)),
{
    lemma_scan_tables(s);
    let a = memory_ranges(memtables(s), start, end);
    let b = table_ranges(sources_of(s.live, all_nums(s.version))->Ok_0, start, end);
    lemma_ranges_whole(s.live, all_nums(s.version), start, end);
    let srcs = scan_sources_of(s, start, end)->Ok_0;
    assert(srcs == a + b);
    lemma_scan_memory(s, start, end, e);
    lemma_scan_files(s, start, end, e);
    assert forall|i: int| 0 <= i < srcs.len() implies entries_sorted(#[trigger] srcs[i]) by {
        if i < a.len() {
            assert(srcs[i] == a[i]);
        } else {
            assert(srcs[i] == b[i - a.len()]);
        }
    }
    law_scan_has_all(srcs, e);
    if in_some_source(srcs, e) {
        let i = choose|i: int| 0 <= i < srcs.len() && (#[trigger] srcs[i]).contains(e);
        if i < a.len() {
            assert(a[i].contains(e));
        } else {
            assert(b[i - a.len()].contains(e));
        }
    }
    if in_some_source(a, e) {
        let i = choose|i: int| 0 <= i < a.len() && (#[trigger] a[i]).contains(e);
        assert(srcs[i].contains(e));
    }
    if in_some_source(b, e) {
        let i = choose|i: int| 0 <= i < b.len() && (#[trigger] b[i]).contains(e);
        assert(srcs[a.len() + i].contains(e));
    }
}

/// A scan and reads agree: a scan of a range at a sequence number gives a user key with a value
/// exactly where the user key is in the range and a read of it at that sequence number gives the
/// value; and it gives user keys in ascending order.
#[verifier::rlimit(40)]
pub proof fn law_scan_agrees_with_reads(
    s: EngineView,
    start: BoundView,
    end: BoundView,
    at: u64,
    floor: u64,
    kv: KeyValue,
)
    requires
        covering_levels(s.live, s.version, floor),
        served(s.live, s.version, kv.0, at, floor),
        memory_newest_first(s),
    ensures
        scan_sources_of(s, start, end) is Ok,
        keys_ascend(scanned(scan_sources_of(s, start, end)->Ok_0, at)),
        scanned(scan_sources_of(s, start, end)->Ok_0, at).contains(kv) == (in_range(
            start,
            end,
            kv.0,
        ) && read_state(s, kv.0, at) == Ok::<Option<ValueView>, ErrorView>(Some(Some(kv.1)))),
{
    let any = ((kv.0, 0u64), None::<Seq<u8>>);
    lemma_scan_sources(s, start, end, any);
    let srcs = scan_sources_of(s, start, end)->Ok_0;
    let es = interleaved(srcs);
    assert forall|e: (KeyView, ValueView)| #[trigger] es.contains(e) == (engine_has(s, e) && in_range(
        start,
        end,
        e.0.0,
    )) by {
        lemma_scan_sources(s, start, end, e);
    }
    assert(agreeing(es)) by {
        assert forall|i: int, j: int|
            0 <= i < es.len() && 0 <= j < es.len() && (#[trigger] es[i]).0 == (#[trigger] es[j]).0 implies
            es[i].1 == es[j].1 by {
            assert(es.contains(es[i]) && es.contains(es[j]));
            lemma_one_value(s, es[i], es[j]);
        }
    }
    law_scan(srcs, at, kv);
    law_read_gives_newest(s, kv.0, at, floor);
    if shows(es, at, kv) {
        let t = choose|t: u64| #[trigger] newest_seen(es, ((kv.0, t), Some(kv.1)), at);
        let e = ((kv.0, t), Some(kv.1));
        assert(es.contains(e));
        assert(engine_has(s, e));
        assert(read_state(s, kv.0, at) is Ok);
        assert(read_state(s, kv.0, at)->Ok_0 is Some);
        let v = read_state(s, kv.0, at)->Ok_0->0;
        let u = choose|u: u64| #[trigger] newest_in_engine(s, ((kv.0, u), v), at);
        let d = ((kv.0, u), v);
        assert(es.contains(d));
        let q = choose|q: int| 0 <= q < es.len() && es[q] == d;
        assert(es[q].0.1 <= t);
        lemma_one_value(s, e, d);
    }
    if in_range(start, end, kv.0) && read_state(s, kv.0, at) == Ok::<Option<ValueView>, ErrorView>(
        Some(Some(kv.1)),
    ) {
        let u = choose|u: u64| #[trigger] newest_in_engine(s, ((kv.0, u), Some(kv.1)), at);
        let d = ((kv.0, u), Some(kv.1));
        assert(es.contains(d));
        assert(newest_seen(es, d, at)) by {
            assert forall|i: int|
                0 <= i < es.len() && (#[trigger] es[i]).0.0 == d.0.0 && es[i].0.1 <= at implies es[i].0.1
                <= d.0.1 by {
                assert(es.contains(es[i]));
                assert(engine_has(s, es[i]));
            }
        }
    }
}

/// The versions of a user key in table files from the `i`-th on.
spec fn tables_versions(live: Files, nums: Seq<u64>, i: nat, key: Seq<u8>) -> Seq<KeyVersion>
    decreases nums.len() - i,
{
    if i >= nums.len() {
        Seq::empty()
    } else {
        of_key(decoded(source_of(live, nums[i as int])->Ok_0), key) + tables_versions(
            live,
            nums,
            i + 1,
            key,
        )
    }
}

proof fn lemma_gathered(
    s: EngineView,
    i: nat,
    key: Seq<u8>,
    enough: nat,
    acc: Seq<KeyVersion>,
)
    requires
        sound_levels(s.live, s.version),
        acc.len() <= enough,
    ensures
        gathered(s.live, all_nums(s.version), i, key, enough, acc) == Ok::<
            Seq<KeyVersion>,
            ErrorView,
        >(up_to(acc + tables_versions(s.live, all_nums(s.version), i, key), enough)),
    decreases all_nums(s.version).len() - i,
{
    let nums = all_nums(s.version);
    let rest = tables_versions(s.live, nums, i, key);
    if acc.len() >= enough {
        assert(up_to(acc + rest, enough) =~= acc);
    } else if i >= nums.len() {
        assert(acc + rest =~= acc);
    } else {
        let p = lemma_scan_table(s, i as int);
        let f = s.version[p.0][p.1];
        assert(s.version[p.0].contains(f));
        lemma_on_level(s.live, s.version, p.0, f);
        lemma_held(s.live, f);
        let id = FileId::Sst(nums[i as int]);
        law_front_is_all(s.live[id], table_index(s.live[id])->Ok_0, 0);
        let es = source_of(s.live, nums[i as int])->Ok_0;
        let here = of_key(decoded(es), key);
        let more = up_to(acc + here, enough);
        lemma_gathered(s, i + 1, key, enough, more);
        let after = tables_versions(s.live, nums, i + 1, key);
        lemma_up_to_twice(acc + here, after, enough);
        assert(acc + (here + after) =~= (acc + here) + after);
    }
}

proof fn lemma_of_key(es: Entries, key: Seq<u8>, v: KeyVersion)
    ensures
        of_key(es, key).contains(v) <==> es.contains(((key, v.0), v.1)),
    decreases es.len(),
{
    let e = ((key, v.0), v.1);
    if es.len() > 0 {
        let t = es.drop_last();
        let before = of_key(t, key);
        lemma_of_key(t, key, v);
        assert(es[es.len() - 1] == es.last());
        if t.contains(e) {
            let i = choose|i: int| 0 <= i < t.len() && t[i] == e;
            assert(es[i] == e);
            let j = choose|j: int| 0 <= j < before.len() && before[j] == v;
            assert(of_key(es, key)[j] == v);
        }
        if es.contains(e) && es.last() != e {
            let i = choose|i: int| 0 <= i < es.len() && es[i] == e;
            assert(t[i] == e);
        }
        if es.last() == e {
            assert(of_key(es, key)[before.len() as int] == v);
        }
        if of_key(es, key).contains(v) {
            let i = choose|i: int| 0 <= i < of_key(es, key).len() && of_key(es, key)[i] == v;
            if i < before.len() {
                assert(before[i] == v);
            } else {
                assert(es.last() == e);
            }
        }
    }
}

proof fn lemma_sum_has(a: Seq<KeyVersion>, b: Seq<KeyVersion>, v: KeyVersion)
    ensures
        (a + b).contains(v) <==> a.contains(v) || b.contains(v),
{
    if a.contains(v) {
        let i = choose|i: int| 0 <= i < a.len() && a[i] == v;
        assert((a + b)[i] == v);
    }
    if b.contains(v) {
        let i = choose|i: int| 0 <= i < b.len() && b[i] == v;
        assert((a + b)[a.len() + i] == v);
    }
    if (a + b).contains(v) {
        let i = choose|i: int| 0 <= i < (a + b).len() && (a + b)[i] == v;
        if i < a.len() {
            assert(a[i] == v);
        } else {
            assert(b[i - a.len()] == v);
        }
    }
}

proof fn lemma_immutables_list(ms: Seq<Versions>, n: nat, key: Seq<u8>, v: KeyVersion)
    requires
        n <= ms.len(),
        forall|i: int| 0 <= i < ms.len() ==> listed(#[trigger] ms[i]),
    ensures
        immutables_versions(ms, n, key).contains(v) <==> exists|i: int|
            0 <= i < n && table_has(#[trigger] ms[i], ((key, v.0), v.1)),
    decreases n,
{
    if n > 0 {
        let m = n - 1;
        let e = ((key, v.0), v.1);
        lemma_immutables_list(ms, m as nat, key, v);
        lemma_of_key(entries_of(ms[m]), key, v);
        assert(listed(ms[m]));
        lemma_listed(ms[m], e);
        lemma_sum_has(immutables_versions(ms, m as nat, key), of_key(entries_of(ms[m]), key), v);
        if exists|i: int| 0 <= i < m && table_has(#[trigger] ms[i], e) {
            let i = choose|i: int| 0 <= i < m && table_has(#[trigger] ms[i], e);
            assert(0 <= i < n && table_has(ms[i], e));
        }
    }
}

proof fn lemma_tables_list(s: EngineView, i: nat, key: Seq<u8>, v: KeyVersion)
    requires
        sound_levels(s.live, s.version),
    ensures
        tables_versions(s.live, all_nums(s.version), i, key).contains(v) <==> exists|k: int|
            i <= k < all_nums(s.version).len() && decoded(
                source_of(s.live, #[trigger] all_nums(s.version)[k])->Ok_0,
            ).contains(((key, v.0), v.1)),
    decreases all_nums(s.version).len() - i,
{
    let nums = all_nums(s.version);
    let e = ((key, v.0), v.1);
    if i < nums.len() {
        let es = decoded(source_of(s.live, nums[i as int])->Ok_0);
        lemma_tables_list(s, i + 1, key, v);
        lemma_of_key(es, key, v);
        lemma_sum_has(of_key(es, key), tables_versions(s.live, nums, i + 1, key), v);
        if exists|k: int|
            i + 1 <= k < nums.len() && decoded(
                source_of(s.live, #[trigger] nums[k])->Ok_0,
            ).contains(e) {
            let k = choose|k: int|
                i + 1 <= k < nums.len() && decoded(
                    source_of(s.live, #[trigger] nums[k])->Ok_0,
                ).contains(e);
            assert(i <= k < nums.len() && decoded(source_of(s.live, nums[k])->Ok_0).contains(e));
        }
    }
}

proof fn lemma_tables_listed(s: EngineView, key: Seq<u8>, v: KeyVersion)
    requires
        sound_levels(s.live, s.version),
    ensures
        tables_versions(s.live, all_nums(s.version), 0, key).contains(v) <==> in_tables(
            s,
            ((key, v.0), v.1),
        ),
{
    let nums = all_nums(s.version);
    let e = ((key, v.0), v.1);
    lemma_tables_list(s, 0, key, v);
    if exists|k: int|
        0 <= k < nums.len() && decoded(source_of(s.live, #[trigger] nums[k])->Ok_0).contains(e) {
        let k = choose|k: int|
            0 <= k < nums.len() && decoded(source_of(s.live, #[trigger] nums[k])->Ok_0).contains(e);
        let p = lemma_scan_table(s, k);
        let f = s.version[p.0][p.1];
        let es = held(s.live, f);
        assert(source_of(s.live, nums[k])->Ok_0 == es) by {
            reveal(held);
        }
        lemma_decoded_has(es, e);
        let x = choose|x: RawEntry| #[trigger] es.contains(x) && denotes(x, e);
        assert(s.version[p.0].contains(f));
        lemma_held_on_level(s.live, s.version, p.0, f, x);
        assert(levels_hold(s.live, s.version, 0, e.0.0, x));
    }
    if in_tables(s, e) {
        let x = choose|x: RawEntry| #[trigger]
            levels_hold(s.live, s.version, 0, e.0.0, x) && denotes(x, e);
        let p = lemma_place(s.live, s.version, e.0.0, x);
        let k = lemma_num_listed(s.version, p.0, p.1);
        let q = lemma_scan_table(s, k);
        let es = held(s.live, s.version[q.0][q.1]);
        assert(es == held(s.live, s.version[p.0][p.1]) && source_of(s.live, nums[k])->Ok_0 == es) by {
            reveal(held);
        }
        lemma_decoded_has(es, e);
        assert(decoded(source_of(s.live, nums[k])->Ok_0).contains(e));
    }
}

/// The versions of a key that are listed are versions that the engine holds, up to as many as were
/// asked for. Where there are fewer than that, they are all that it holds, wherever they are.
pub proof fn law_versions_listed(s: EngineView, key: Seq<u8>, limit: nat, t: u64, value: ValueView)
    requires
        sound_levels(s.live, s.version),
        forall|i: int| 0 <= i < memtables(s).len() ==> listed(#[trigger] memtables(s)[i]),
    ensures
        versions_listed(s, key, limit) is Ok,
        versions_listed(s, key, limit)->Ok_0.len() <= limit,
        versions_listed(s, key, limit)->Ok_0.contains((t, value)) ==> engine_has(
            s,
            ((key, t), value),
        ),
        versions_listed(s, key, limit)->Ok_0.len() < limit && engine_has(s, ((key, t), value))
            ==> versions_listed(s, key, limit)->Ok_0.contains((t, value)),
{
    let ms = memtables(s);
    let e = ((key, t), value);
    let v = (t, value);
    let nums = all_nums(s.version);
    let memory = memory_versions(s, key);
    let tables = tables_versions(s.live, nums, 0, key);
    lemma_gathered(s, 0, key, limit, up_to(memory, limit));
    lemma_up_to_twice(memory, tables, limit);
    let out = versions_listed(s, key, limit)->Ok_0;
    assert(out == up_to(memory + tables, limit));
    lemma_sum_has(memory, tables, v);
    lemma_tables_listed(s, key, v);
    assert(ms[0] == s.active);
    lemma_listed(ms[0], e);
    lemma_of_key(entries_of(s.active), key, v);
    assert forall|i: int| 0 <= i < s.immutables.len() implies listed(#[trigger] s.immutables[i]) by {
        assert(ms[i + 1] == s.immutables[i]);
    }
    lemma_immutables_list(s.immutables, s.immutables.len(), key, v);
    lemma_sum_has(
        of_key(entries_of(s.active), key),
        immutables_versions(s.immutables, s.immutables.len(), key),
        v,
    );
    if memory.contains(v) {
        if table_has(s.active, e) {
            assert(table_has(ms[0], e));
        } else {
            let i = choose|i: int|
                0 <= i < s.immutables.len() && table_has(#[trigger] s.immutables[i], e);
            assert(table_has(ms[i + 1], e));
        }
    }
    if in_memory(s, e) {
        let i = choose|i: int| 0 <= i < ms.len() && table_has(#[trigger] ms[i], e);
        if i > 0 {
            assert(ms[i] == s.immutables[i - 1]);
            assert(table_has(s.immutables[i - 1], e));
        }
        assert(memory.contains(v));
    }
    if out.contains(v) {
        let i = choose|i: int| 0 <= i < out.len() && out[i] == v;
        assert((memory + tables)[i] == v);
    }
}

/// Asking for fewer versions of a key gives the first of those that asking for more gives.
pub proof fn law_version_limit(s: EngineView, key: Seq<u8>, fewer: nat, more: nat)
    requires
        sound_levels(s.live, s.version),
        fewer <= more,
    ensures
        versions_listed(s, key, fewer) is Ok,
        versions_listed(s, key, more) is Ok,
        ({
            let a = versions_listed(s, key, fewer)->Ok_0;
            let b = versions_listed(s, key, more)->Ok_0;
            &&& a.len() <= b.len()
            &&& a == b.take(a.len() as int)
            &&& a.len() < fewer ==> a == b
        }),
{
    let memory = memory_versions(s, key);
    let tables = tables_versions(s.live, all_nums(s.version), 0, key);
    lemma_gathered(s, 0, key, fewer, up_to(memory, fewer));
    lemma_up_to_twice(memory, tables, fewer);
    lemma_gathered(s, 0, key, more, up_to(memory, more));
    lemma_up_to_twice(memory, tables, more);
    let a = versions_listed(s, key, fewer)->Ok_0;
    let b = versions_listed(s, key, more)->Ok_0;
    assert(a =~= b.take(a.len() as int));
}

} // verus!
