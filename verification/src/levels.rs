//! What the levels of a database hold of a key, and what compaction leaves of it.

use crate::block::RawEntry;
use crate::codec::{
    lemma_lex_asymmetric, lemma_lex_irreflexive, lemma_lex_le_lt, lemma_lex_lt_le, lemma_lex_total,
    lemma_lex_transitive, lex_le, lex_lt,
};
use crate::compaction::{
    applied, canonical, compaction_outcome, cut_between_users, entry_problem, first_of_user,
    largest_file, last_of_user, law_compaction_keeps_latest, law_compaction_keeps_order, law_compaction_keeps_reads,
    law_found_overlaps, law_merge_succeeds, lemma_merged_canonical, lemma_of_user, lemma_overlapping_has,
    lemma_overlapping_subset,
    lemma_picked_level, lemma_sorted_has, lemma_without_files, level_ordered, levels_ordered,
    made_file, made_files, max_key, merged_files, min_key, numbers_free, overlapping, overlaps_keys, plain_table,
    recoded, sound_sources, source_of, sources_of, sst_at, task_nums, with_tables, within_merged,
    without_files, FileView, TaskView,
};
use crate::disk::{FileId, Files};
use crate::engine::{
    candidate, compacted, ends_before, file_lookup, file_written_after, flush_fits, flushed_one,
    law_candidate_is_first, level0_lookup, level0_written_after, levels_lookup,
    levels_written_after, memory_lookup, next_task, partitioned, read_state, without_tables,
    EngineConfig, EngineView,
};
use crate::error::ErrorView;
use crate::memtable::{
    entries_list, entries_sorted, lemma_entries_of, Entries, KeyView, ValueView, Versions,
};
use crate::merge::{
    held_by_some, joined, law_gc_keeps, law_merge_has_all, law_merge_sorted, law_newest_keeps,
    law_surviving_sorted, lemma_between, lemma_user_order, merged, newest_below, reads, seq_of, surviving, user_of, visible,
};
use crate::sstable::{
    all_of, best_in_table, blocks_of, handles, is_key, key_bytes, law_key_bytes_round_trip, law_key_order,
    law_key_round_trip, law_table_blocks, law_table_newest, law_table_round_trip,
    law_value_round_trip, law_versions_sorted, lemma_blocks_of, newest_among, raw_entries, raw_entry, raw_sorted, seq_part,
    stays_past, table_bytes, table_fits, table_index, table_lookup, user_part, value_of_bytes, Best,
    SSTableConfig,
};
use vstd::prelude::*;

verus! {

/// Tells whether a table file was made of entries under settings.
pub open spec fn made_of(live: Files, f: FileView, es: Seq<RawEntry>, config: SSTableConfig) -> bool {
    &&& live.contains_key(FileId::Sst(f.file_num))
    &&& live[FileId::Sst(f.file_num)] == plain_table(es, config)
    &&& table_fits(blocks_of(es, config.block_size as nat), Seq::empty())
    &&& es.len() > 0
    &&& raw_sorted(es)
    &&& canonical(es)
    &&& f.smallest_key == es[0].0
    &&& f.largest_key == es.last().0
}

/// Tells whether a file is there, and is a table file as they are made.
#[verifier::opaque]
pub open spec fn sound_table(live: Files, f: FileView) -> bool {
    exists|es: Seq<RawEntry>, config: SSTableConfig| #[trigger] made_of(live, f, es, config)
}

/// The entries of a table file.
#[verifier::opaque]
pub open spec fn held(live: Files, f: FileView) -> Seq<RawEntry> {
    source_of(live, f.file_num)->Ok_0
}

/// What a version that was found reads as.
pub open spec fn value_read(r: Option<RawEntry>) -> Option<ValueView> {
    match r {
        Some(e) => value_of_bytes(e.1),
        None => None,
    }
}

proof fn lemma_made_of(live: Files, f: FileView, es: Seq<RawEntry>, config: SSTableConfig)
    requires
        made_of(live, f, es, config),
    ensures
        source_of(live, f.file_num) == Ok::<Seq<RawEntry>, ErrorView>(es),
        held(live, f) == es,
{
    reveal(held);
    let blocks = blocks_of(es, config.block_size as nat);
    lemma_blocks_of(es, config.block_size as nat);
    law_table_blocks(blocks, Seq::empty());
    law_table_round_trip(blocks, Seq::empty());
}

/// What a table file holds is in order, and its first and last keys are those it is known by.
pub proof fn lemma_held(live: Files, f: FileView)
    requires
        sound_table(live, f),
    ensures
        source_of(live, f.file_num) == Ok::<Seq<RawEntry>, ErrorView>(held(live, f)),
        held(live, f).len() > 0,
        raw_sorted(held(live, f)),
        canonical(held(live, f)),
        f.smallest_key == held(live, f)[0].0,
        f.largest_key == held(live, f).last().0,
{
    reveal(sound_table);
    let (es, config) = choose|es: Seq<RawEntry>, config: SSTableConfig| #[trigger]
        made_of(live, f, es, config);
    lemma_made_of(live, f, es, config);
}

/// Of two versions of a user key the newer comes first.
proof fn lemma_version_order(x: Seq<u8>, y: Seq<u8>)
    requires
        is_key(x),
        is_key(y),
        user_of(x) == user_of(y),
    ensures
        lex_lt(x, y) == (seq_of(x) > seq_of(y)),
        seq_of(x) == seq_of(y) ==> x == y,
{
    law_key_bytes_round_trip(x);
    law_key_bytes_round_trip(y);
    law_key_order((user_part(x), seq_part(x)), (user_part(y), seq_part(y)));
    lemma_lex_irreflexive(user_part(x));
}

/// Tells whether a table file holds a version of a user key.
pub open spec fn holds(live: Files, f: FileView, key: Seq<u8>, e: RawEntry) -> bool {
    held(live, f).contains(e) && user_of(e.0) == key
}

/// Tells whether some of the first `n` files hold a version of a user key.
pub open spec fn some_holds(live: Files, files: Seq<FileView>, n: nat, key: Seq<u8>, e: RawEntry) -> bool {
    exists|i: int| 0 <= i < n && i < files.len() && holds(live, #[trigger] files[i], key, e)
}

/// Tells whether some level from `level` on holds a version of a user key.
pub open spec fn levels_hold(
    live: Files,
    v: Seq<Seq<FileView>>,
    level: nat,
    key: Seq<u8>,
    e: RawEntry,
) -> bool {
    exists|l: int|
        level <= l < v.len() && some_holds(live, #[trigger] v[l], v[l].len(), key, e)
}

/// Tells whether `r` is the newest version of a user key in a table file that a reader at a sequence
/// number sees.
pub open spec fn newest_held(
    live: Files,
    f: FileView,
    key: Seq<u8>,
    at: u64,
    r: Option<RawEntry>,
) -> bool {
    match r {
        Some(e) => {
            &&& holds(live, f, key, e)
            &&& seq_of(e.0) <= at
            &&& forall|d: RawEntry| #[trigger]
                holds(live, f, key, d) && seq_of(d.0) <= at ==> seq_of(d.0) <= seq_of(e.0)
        },
        None => forall|d: RawEntry| #[trigger] holds(live, f, key, d) ==> seq_of(d.0) > at,
    }
}

/// Tells whether `r` is the newest version of a user key in the first `n` files that a reader at a
/// sequence number sees.
pub open spec fn newest_of_files(
    live: Files,
    files: Seq<FileView>,
    n: nat,
    key: Seq<u8>,
    at: u64,
    r: Option<RawEntry>,
) -> bool {
    match r {
        Some(e) => {
            &&& some_holds(live, files, n, key, e)
            &&& seq_of(e.0) <= at
            &&& forall|d: RawEntry| #[trigger]
                some_holds(live, files, n, key, d) && seq_of(d.0) <= at ==> seq_of(d.0) <= seq_of(
                    e.0,
                )
        },
        None => forall|d: RawEntry| #[trigger]
            some_holds(live, files, n, key, d) ==> seq_of(d.0) > at,
    }
}

/// Tells whether `r` is the newest version of a user key on the levels from `level` on that a reader
/// at a sequence number sees.
pub open spec fn newest_of_levels(
    live: Files,
    v: Seq<Seq<FileView>>,
    level: nat,
    key: Seq<u8>,
    at: u64,
    r: Option<RawEntry>,
) -> bool {
    match r {
        Some(e) => {
            &&& levels_hold(live, v, level, key, e)
            &&& seq_of(e.0) <= at
            &&& forall|d: RawEntry| #[trigger]
                levels_hold(live, v, level, key, d) && seq_of(d.0) <= at ==> seq_of(d.0) <= seq_of(
                    e.0,
                )
        },
        None => forall|d: RawEntry| #[trigger]
            levels_hold(live, v, level, key, d) ==> seq_of(d.0) > at,
    }
}

/// Tells whether a reader at a sequence number sees all versions of a user key in a file.
pub open spec fn file_seen(live: Files, f: FileView, key: Seq<u8>, at: u64) -> bool {
    forall|e: RawEntry| #[trigger] holds(live, f, key, e) ==> seq_of(e.0) <= at
}

/// The entries of a table file are searched in order.
proof fn lemma_stays_past(es: Seq<RawEntry>, key: Seq<u8>)
    requires
        raw_sorted(es),
        forall|i: int| 0 <= i < es.len() ==> is_key((#[trigger] es[i]).0),
    ensures
        stays_past(es, key),
{
    assert forall|i: int, j: int|
        0 <= i < j < es.len() && lex_lt(key, user_part((#[trigger] es[i]).0)) implies user_part(
        (#[trigger] es[j]).0,
    ) != key by {
        assert(lex_lt(es[i].0, es[j].0));
        lemma_lex_irreflexive(key);
        if user_part(es[j].0) == key {
            lemma_user_order(es[i].0, es[j].0);
            lemma_lex_asymmetric(key, user_part(es[i].0));
        }
    }
}

/// What a search found is the newest version.
proof fn lemma_found(live: Files, f: FileView, key: Seq<u8>, at: u64, best: Best) -> (r: Option<
    RawEntry,
>)
    requires
        sound_table(live, f),
        newest_among(held(live, f), held(live, f).len() as int, key, at, best),
    ensures
        newest_held(live, f, key, at, r),
        best is Some <==> r is Some,
        best is Some ==> (r->0).1 == (best->0).1 && value_of_bytes((best->0).1) is Some,
        best is Some ==> seq_of((r->0).0) == (best->0).0,
{
    lemma_held(live, f);
    let es = held(live, f);
    assert forall|j: int| 0 <= j < es.len() implies is_key((#[trigger] es[j]).0) by {
        assert(entry_problem(es[j]) is None);
    }
    match best {
        Some((s, val)) => {
            let j = choose|j: int|
                0 <= j < es.len() && user_part((#[trigger] es[j]).0) == key && seq_part(es[j].0) == s
                    && es[j].1 == val;
            assert(entry_problem(es[j]) is None);
            assert(es.contains(es[j]));
            assert forall|d: RawEntry| #[trigger]
                holds(live, f, key, d) && seq_of(d.0) <= at implies seq_of(d.0) <= seq_of(es[j].0) by {
                let q = choose|q: int| 0 <= q < es.len() && es[q] == d;
                assert(es[q] == d);
            }
            Some(es[j])
        },
        None => {
            assert forall|d: RawEntry| #[trigger] holds(live, f, key, d) implies seq_of(d.0) > at by {
                let q = choose|q: int| 0 <= q < es.len() && es[q] == d;
                assert(es[q] == d);
            }
            None
        },
    }
}

/// A search of the bytes of a table file gives the newest visible version of a user key.
proof fn lemma_table_search(es: Seq<RawEntry>, config: SSTableConfig, key: Seq<u8>, at: u64) -> (best: Best)
    requires
        table_fits(blocks_of(es, config.block_size as nat), Seq::empty()),
        stays_past(es, key),
        forall|j: int| 0 <= j < es.len() ==> is_key((#[trigger] es[j]).0),
    ensures
        newest_among(es, es.len() as int, key, at, best),
        table_index(plain_table(es, config)) is Ok,
        best_in_table(
            plain_table(es, config),
            table_index(plain_table(es, config))->Ok_0,
            0,
            key,
            at,
            None,
        ) == Ok::<Best, ErrorView>(best),
        table_lookup(plain_table(es, config), table_index(plain_table(es, config))->Ok_0, key, at)
            == Ok::<Option<Seq<u8>>, ErrorView>(
            match best {
                Some((_, v)) => Some(v),
                None => None,
            },
        ),
{
    let blocks = blocks_of(es, config.block_size as nat);
    lemma_blocks_of(es, config.block_size as nat);
    assert(all_of(blocks) == es);
    law_table_blocks(blocks, Seq::empty());
    law_table_newest(blocks, Seq::empty(), key, at);
    best_in_table(table_bytes(blocks, Seq::empty()), handles(blocks), 0, key, at, None)->Ok_0
}

/// A search of a table file gives the newest version of a user key.
#[verifier::rlimit(40)]
proof fn lemma_file_read(live: Files, f: FileView, key: Seq<u8>, at: u64) -> (r: Option<RawEntry>)
    requires
        sound_table(live, f),
    ensures
        newest_held(live, f, key, at, r),
        file_lookup(live, f.file_num, key, at) == Ok::<Option<ValueView>, ErrorView>(value_read(r)),
        r is Some ==> value_read(r) is Some,
{
    let (es, config) = choose|es: Seq<RawEntry>, config: SSTableConfig| #[trigger]
        made_of(live, f, es, config);
    assert(made_of(live, f, es, config)) by {
        reveal(sound_table);
    }
    assert(held(live, f) == es) by {
        lemma_made_of(live, f, es, config);
    }
    assert forall|j: int| 0 <= j < es.len() implies is_key((#[trigger] es[j]).0) by {
        assert(entry_problem(es[j]) is None);
    }
    lemma_stays_past(es, key);
    let best = lemma_table_search(es, config, key, at);
    lemma_found(live, f, key, at, best)
}

/// Tells whether a table file holds a version of a user key after a sequence number.
pub open spec fn holds_after(live: Files, f: FileView, key: Seq<u8>, ts: u64) -> bool {
    exists|e: RawEntry| #[trigger] holds(live, f, key, e) && seq_of(e.0) > ts
}

/// A table file tells whether it holds a version of a user key after a sequence number.
#[verifier::rlimit(40)]
proof fn lemma_file_written(live: Files, f: FileView, key: Seq<u8>, ts: u64)
    requires
        sound_table(live, f),
    ensures
        file_written_after(live, f.file_num, key, ts) == Ok::<bool, ErrorView>(
            holds_after(live, f, key, ts),
        ),
{
    let (es, config) = choose|es: Seq<RawEntry>, config: SSTableConfig| #[trigger]
        made_of(live, f, es, config);
    assert(made_of(live, f, es, config)) by {
        reveal(sound_table);
    }
    assert(held(live, f) == es) by {
        lemma_made_of(live, f, es, config);
    }
    assert forall|j: int| 0 <= j < es.len() implies is_key((#[trigger] es[j]).0) by {
        assert(entry_problem(es[j]) is None);
    }
    lemma_stays_past(es, key);
    let best = lemma_table_search(es, config, key, u64::MAX);
    let r = lemma_found(live, f, key, u64::MAX, best);
    if holds_after(live, f, key, ts) {
        let e = choose|e: RawEntry| #[trigger] holds(live, f, key, e) && seq_of(e.0) > ts;
        assert(holds(live, f, key, e));
    }
}

/// Files of level 0 tell whether one of them holds a version of a user key after a sequence
/// number.
proof fn lemma_level0_written(live: Files, files: Seq<FileView>, i: nat, key: Seq<u8>, ts: u64)
    requires
        all_sound(live, files),
    ensures
        level0_written_after(live, files, i, key, ts) == Ok::<bool, ErrorView>(
            exists|j: int| i <= j < files.len() && holds_after(live, #[trigger] files[j], key, ts),
        ),
    decreases files.len() - i,
{
    if i < files.len() {
        let f = files[i as int];
        assert(sound_table(live, files[i as int]));
        lemma_file_written(live, f, key, ts);
        lemma_level0_written(live, files, i + 1, key, ts);
        if !holds_after(live, f, key, ts) {
            if exists|j: int| i <= j < files.len() && holds_after(live, #[trigger] files[j], key, ts) {
                let j = choose|j: int|
                    i <= j < files.len() && holds_after(live, #[trigger] files[j], key, ts);
                assert(i + 1 <= j < files.len() && holds_after(live, files[j], key, ts));
            }
        } else {
            assert(holds_after(live, files[i as int], key, ts));
        }
    }
}

/// Tells whether a file gives readers from a sequence number on something at least as new as a
/// version: a version of the same user key that is not older and that they see where they see the
/// other.
pub open spec fn answers(live: Files, f: FileView, d: RawEntry, floor: u64) -> bool {
    exists|x: RawEntry| #[trigger]
        held(live, f).contains(x) && user_of(x.0) == user_of(d.0) && seq_of(d.0) <= seq_of(x.0) && (
        seq_of(x.0) <= floor || seq_of(x.0) == seq_of(d.0))
}

/// Tells whether a file comes before another for readers from a sequence number on: where it holds
/// a version of a user key that is older than one in the other, it answers for that one.
pub open spec fn covers(live: Files, f: FileView, g: FileView, floor: u64) -> bool {
    forall|e: RawEntry, d: RawEntry|
        #![trigger held(live, f).contains(e), held(live, g).contains(d)]
        held(live, f).contains(e) && held(live, g).contains(d) && user_of(e.0) == user_of(d.0)
            && seq_of(e.0) < seq_of(d.0) ==> answers(live, f, d, floor)
}

/// Tells whether each file comes before those listed before it.
pub open spec fn later_cover(live: Files, files: Seq<FileView>, floor: u64) -> bool {
    forall|i: int, j: int|
        0 <= i < j < files.len() ==> covers(live, #[trigger] files[j], #[trigger] files[i], floor)
}

/// A reader that sees a version sees what answers for it.
proof fn lemma_answered(
    live: Files,
    f: FileView,
    key: Seq<u8>,
    d: RawEntry,
    at: u64,
    floor: u64,
) -> (x: RawEntry)
    requires
        answers(live, f, d, floor),
        user_of(d.0) == key,
        seq_of(d.0) <= at,
        at >= floor || file_seen(live, f, key, at),
    ensures
        holds(live, f, key, x),
        seq_of(d.0) <= seq_of(x.0) <= at,
{
    let x = choose|x: RawEntry| #[trigger]
        held(live, f).contains(x) && user_of(x.0) == user_of(d.0) && seq_of(d.0) <= seq_of(x.0) && (
        seq_of(x.0) <= floor || seq_of(x.0) == seq_of(d.0));
    assert(holds(live, f, key, x));
    x
}

/// Level 0 gives the newest version that its files hold.
proof fn lemma_level0_read(
    live: Files,
    files: Seq<FileView>,
    n: nat,
    key: Seq<u8>,
    at: u64,
    floor: u64,
) -> (r: Option<RawEntry>)
    requires
        n <= files.len(),
        all_sound(live, files),
        later_cover(live, files, floor),
        at >= floor || forall|i: int|
            0 <= i < files.len() ==> file_seen(live, #[trigger] files[i], key, at),
    ensures
        newest_of_files(live, files, n, key, at, r),
        level0_lookup(live, files, n, key, at) == Ok::<Option<ValueView>, ErrorView>(value_read(r)),
        r is Some ==> value_read(r) is Some,
    decreases n,
{
    if n == 0 {
        None
    } else {
        let m = (n - 1) as nat;
        let f = files[m as int];
        assert(sound_table(live, files[m as int]));
        let a = lemma_file_read(live, f, key, at);
        match a {
            Some(e) => {
                assert(holds(live, files[m as int], key, e));
                assert forall|d: RawEntry| #[trigger]
                    some_holds(live, files, n, key, d) && seq_of(d.0) <= at implies seq_of(d.0)
                    <= seq_of(e.0) by {
                    let i = choose|i: int|
                        0 <= i < n && i < files.len() && holds(live, #[trigger] files[i], key, d);
                    if i < m {
                        assert(covers(live, files[m as int], files[i], floor));
                        assert(held(live, f).contains(e) && held(live, files[i]).contains(d));
                        if seq_of(e.0) < seq_of(d.0) {
                            let x = lemma_answered(live, f, key, d, at, floor);
                        }
                    } else {
                        assert(holds(live, f, key, d));
                    }
                }
                a
            },
            None => {
                let b = lemma_level0_read(live, files, m, key, at, floor);
                assert forall|d: RawEntry| #[trigger]
                    some_holds(live, files, n, key, d) && seq_of(d.0) <= at implies some_holds(
                    live,
                    files,
                    m,
                    key,
                    d,
                ) by {
                    let i = choose|i: int|
                        0 <= i < n && i < files.len() && holds(live, #[trigger] files[i], key, d);
                    assert(i != m) by {
                        assert(!holds(live, f, key, d));
                    }
                }
                if b is Some {
                    let e = b->0;
                    let i = choose|i: int|
                        0 <= i < m && i < files.len() && holds(live, #[trigger] files[i], key, e);
                    assert(some_holds(live, files, n, key, e));
                }
                b
            },
        }
    }
}

/// A version in a table file is not before its first nor after its last.
#[verifier::rlimit(40)]
pub proof fn lemma_within(live: Files, f: FileView, e: RawEntry)
    requires
        sound_table(live, f),
        held(live, f).contains(e),
    ensures
        lex_le(f.smallest_key, e.0),
        lex_le(e.0, f.largest_key),
        is_key(e.0),
        value_of_bytes(e.1) is Some,
{
    lemma_held(live, f);
    let es = held(live, f);
    let q = choose|q: int| 0 <= q < es.len() && es[q] == e;
    assert(entry_problem(es[q]) is None);
    let n = es.len() as int;
    if q > 0 {
        assert(lex_lt(es[0].0, es[q].0));
    }
    if q < n - 1 {
        assert(lex_lt(es[q].0, es[n - 1].0));
    }
}

/// The first and the last version of a table file are held by it.
proof fn lemma_ends(live: Files, f: FileView)
    requires
        sound_table(live, f),
    ensures
        is_key(f.smallest_key),
        is_key(f.largest_key),
        exists|e: RawEntry| #[trigger] held(live, f).contains(e) && e.0 == f.smallest_key,
        exists|e: RawEntry| #[trigger] held(live, f).contains(e) && e.0 == f.largest_key,
{
    lemma_held(live, f);
    let es = held(live, f);
    assert(es.contains(es[0]));
    assert(es.contains(es[es.len() - 1]));
    assert(entry_problem(es[0]) is None);
    assert(entry_problem(es[es.len() - 1]) is None);
}

/// A version of a user key that a file holds, and that the file does not end before.
proof fn lemma_not_past(live: Files, f: FileView, key: Seq<u8>, e: RawEntry)
    requires
        sound_table(live, f),
        holds(live, f, key, e),
    ensures
        !ends_before(f, key),
        lex_le(user_of(f.smallest_key), key),
{
    lemma_within(live, f, e);
    lemma_ends(live, f);
    let a = choose|a: RawEntry| #[trigger] held(live, f).contains(a) && a.0 == f.smallest_key;
    let b = choose|b: RawEntry| #[trigger] held(live, f).contains(b) && b.0 == f.largest_key;
    lemma_lex_irreflexive(key);
    if user_of(b.0) != key {
        lemma_user_order(b.0, e.0);
        if lex_lt(b.0, e.0) {
            lemma_lex_asymmetric(b.0, e.0);
        }
    }
    if user_of(a.0) != key {
        lemma_user_order(a.0, e.0);
    }
}

/// The last key of a file is that of a version that the file holds.
proof fn lemma_last(live: Files, f: FileView, key: Seq<u8>)
    requires
        sound_table(live, f),
    ensures
        is_key(f.largest_key),
        user_of(f.largest_key) == key ==> exists|e: RawEntry| #[trigger]
            holds(live, f, key, e) && e.0 == f.largest_key,
{
    lemma_ends(live, f);
    let b = choose|b: RawEntry| #[trigger] held(live, f).contains(b) && b.0 == f.largest_key;
    if user_of(f.largest_key) == key {
        assert(holds(live, f, key, b));
    }
}

/// Files that are in order can be searched by halving.
proof fn lemma_partitioned(live: Files, files: Seq<FileView>, key: Seq<u8>)
    requires
        all_sound(live, files),
        level_ordered(files),
    ensures
        partitioned(files, key),
{
    assert forall|i: int, j: int|
        0 <= i < j < files.len() && ends_before(#[trigger] files[j], key) implies ends_before(
        #[trigger] files[i],
        key,
    ) by {
        let f = files[i];
        let g = files[j];
        assert(sound_table(live, files[i]));
        assert(sound_table(live, files[j]));
        lemma_last(live, f, key);
        lemma_last(live, g, key);
        lemma_lex_lt_le(f.largest_key, g.smallest_key, g.largest_key);
        lemma_lex_irreflexive(key);
        let probe = key_bytes((key, 0));
        law_key_round_trip((key, 0));
        assert(user_of(probe) == key && is_key(probe));
        lemma_user_order(g.largest_key, probe);
        lemma_lex_transitive(f.largest_key, g.largest_key, probe);
        if user_of(f.largest_key) != key {
            lemma_user_order(f.largest_key, probe);
        } else {
            lemma_user_order(g.largest_key, f.largest_key);
            lemma_lex_asymmetric(f.largest_key, g.largest_key);
        }
    }
}

/// Where a file that is in order after another holds a version of a user key, and the first does
/// not end before the user key, the versions in the first are newer, and there is one.
proof fn lemma_earlier_newer(live: Files, f: FileView, g: FileView, key: Seq<u8>, d: RawEntry) -> (e: RawEntry)
    requires
        sound_table(live, f),
        sound_table(live, g),
        !ends_before(f, key),
        lex_lt(f.largest_key, g.smallest_key),
        holds(live, g, key, d),
    ensures
        holds(live, f, key, e),
        forall|x: RawEntry| #[trigger] holds(live, f, key, x) ==> seq_of(x.0) > seq_of(d.0),
{
    lemma_last(live, f, key);
    lemma_within(live, g, d);
    lemma_lex_lt_le(f.largest_key, g.smallest_key, d.0);
    if user_of(f.largest_key) != key {
        lemma_user_order(f.largest_key, d.0);
    }
    let e = choose|e: RawEntry| #[trigger] holds(live, f, key, e) && e.0 == f.largest_key;
    assert forall|x: RawEntry| #[trigger] holds(live, f, key, x) implies seq_of(x.0) > seq_of(d.0) by {
        lemma_within(live, f, x);
        lemma_lex_le_lt(x.0, f.largest_key, d.0);
        lemma_version_order(x.0, d.0);
    }
    e
}

/// The one file that is searched on a level gives the newest version that the level holds.
proof fn lemma_level_read(live: Files, files: Seq<FileView>, key: Seq<u8>, at: u64) -> (r: Option<
    RawEntry,
>)
    requires
        all_sound(live, files),
        level_ordered(files),
        users_together(live, files),
    ensures
        newest_of_files(live, files, files.len(), key, at, r),
        r is Some ==> value_read(r) is Some,
        ({
            let c = candidate(files, key) as int;
            if c < files.len() && lex_le(user_of(files[c].smallest_key), key) {
                file_lookup(live, files[c].file_num, key, at) == Ok::<Option<ValueView>, ErrorView>(
                    value_read(r),
                )
            } else {
                r is None
            }
        }),
{
    lemma_partitioned(live, files, key);
    law_candidate_is_first(files, key);
    let n = files.len();
    let c = candidate(files, key) as int;
    assert forall|i: int, d: RawEntry| 0 <= i < n && #[trigger] holds(live, files[i], key, d) implies i
        >= c && c < n && lex_le(user_of(files[i].smallest_key), key) by {
        assert(sound_table(live, files[i]));
        lemma_not_past(live, files[i], key, d);
    }
    if c < n {
        let f = files[c];
        assert(sound_table(live, files[c]));
        let r = lemma_file_read(live, f, key, at);
        assert forall|d: RawEntry| #[trigger]
            some_holds(live, files, n, key, d) && seq_of(d.0) <= at implies r is Some && seq_of(d.0)
            <= seq_of((r->0).0) by {
            let i = choose|i: int|
                0 <= i < n && i < files.len() && holds(live, #[trigger] files[i], key, d);
            if i > c {
                assert(sound_table(live, files[i]));
                assert(lex_lt(files[c].largest_key, files[i].smallest_key));
                let e = lemma_earlier_newer(live, f, files[i], key, d);
                assert(holds(live, files[c], key, e));
                assert(no_key_shared(live, files[c], files[i]));
                assert(held(live, files[c]).contains(e) && held(live, files[i]).contains(d));
            } else {
                assert(holds(live, f, key, d));
            }
        }
        if r is Some {
            assert(holds(live, files[c], key, r->0));
            assert(some_holds(live, files, n, key, r->0));
        }
        r
    } else {
        assert forall|d: RawEntry| #[trigger] some_holds(live, files, n, key, d) implies seq_of(d.0)
            > at by {
            let i = choose|i: int|
                0 <= i < n && i < files.len() && holds(live, #[trigger] files[i], key, d);
            assert(holds(live, files[i], key, d));
        }
        None
    }
}

/// Tells whether no user key is in both of two files.
pub open spec fn no_key_shared(live: Files, f: FileView, g: FileView) -> bool {
    forall|e: RawEntry, d: RawEntry|
        #![trigger held(live, f).contains(e), held(live, g).contains(d)]
        held(live, f).contains(e) && held(live, g).contains(d) ==> user_of(e.0) != user_of(d.0)
}

/// Tells whether no two files of a level share a user key.
pub open spec fn users_together(live: Files, files: Seq<FileView>) -> bool {
    forall|i: int, j: int|
        0 <= i < j < files.len() ==> no_key_shared(live, #[trigger] files[i], #[trigger] files[j])
}

/// Tells whether every file of a level comes before every file of another.
pub open spec fn all_cover(live: Files, a: Seq<FileView>, b: Seq<FileView>, floor: u64) -> bool {
    forall|i: int, j: int|
        0 <= i < a.len() && 0 <= j < b.len() ==> covers(
            live,
            #[trigger] a[i],
            #[trigger] b[j],
            floor,
        )
}

/// Tells whether entries of table files with the same key are the same.
pub open spec fn one_value_each(live: Files, v: Seq<Seq<FileView>>) -> bool {
    forall|l: int, i: int, e: RawEntry, m: int, j: int, d: RawEntry|
        #![trigger file_at_holds(live, v, l, i, e), file_at_holds(live, v, m, j, d)]
        file_at_holds(live, v, l, i, e) && file_at_holds(live, v, m, j, d) && e.0 == d.0 ==> e == d
}

/// Tells whether no file of a level has the number of a file of another.
pub open spec fn numbers_apart(a: Seq<FileView>, b: Seq<FileView>) -> bool {
    forall|i: int, j: int|
        0 <= i < a.len() && 0 <= j < b.len() ==> (#[trigger] a[i]).file_num != (#[trigger] b[j]).file_num
}

/// Tells whether the files of a level are there, and are table files as they are made.
pub open spec fn all_sound(live: Files, files: Seq<FileView>) -> bool {
    forall|i: int| 0 <= i < files.len() ==> sound_table(live, #[trigger] files[i])
}

/// Tells whether levels are as flushes and compactions leave them: the files are there, those of a
/// level below level 0 are in order and share no user key, and a version has the same value
/// wherever it is.
pub open spec fn sound_levels(live: Files, v: Seq<Seq<FileView>>) -> bool {
    &&& v.len() > 0
    &&& levels_ordered(v)
    &&& one_value_each(live, v)
    &&& forall|l: int| 0 <= l < v.len() ==> all_sound(live, #[trigger] v[l])
    &&& forall|l: int| 1 <= l < v.len() ==> users_together(live, #[trigger] v[l])
    &&& forall|l: int, m: int|
        0 <= l < m < v.len() ==> numbers_apart(#[trigger] v[l], #[trigger] v[m])
}

/// Tells whether levels give readers from a sequence number on the newest version that they see: a
/// later file of level 0 comes before those listed before it, and an upper level before a lower
/// one.
pub open spec fn covering_levels(live: Files, v: Seq<Seq<FileView>>, floor: u64) -> bool {
    &&& sound_levels(live, v)
    &&& later_cover(live, v[0], floor)
    &&& forall|l: int, m: int|
        0 <= l < m < v.len() ==> all_cover(live, #[trigger] v[l], #[trigger] v[m], floor)
}

/// Tells whether a reader of a user key at a sequence number is one for whom levels are in order:
/// it is not below the floor, or sees all versions of the user key.
pub open spec fn served(
    live: Files,
    v: Seq<Seq<FileView>>,
    key: Seq<u8>,
    at: u64,
    floor: u64,
) -> bool {
    at >= floor || all_seen(live, v, key, at)
}

/// Tells whether a reader at a sequence number sees all versions of a user key in the table files.
pub open spec fn all_seen(live: Files, v: Seq<Seq<FileView>>, key: Seq<u8>, at: u64) -> bool {
    forall|l: int, i: int|
        0 <= l < v.len() && 0 <= i < v[l].len() ==> file_seen(live, #[trigger] v[l][i], key, at)
}

/// What a level holds together with what the levels after it hold.
proof fn lemma_join(
    live: Files,
    v: Seq<Seq<FileView>>,
    level: nat,
    key: Seq<u8>,
    at: u64,
    floor: u64,
    a: Option<RawEntry>,
    b: Option<RawEntry>,
)
    requires
        covering_levels(live, v, floor),
        served(live, v, key, at, floor),
        level < v.len(),
        newest_of_files(live, v[level as int], v[level as int].len(), key, at, a),
        newest_of_levels(live, v, level + 1, key, at, b),
    ensures
        newest_of_levels(
            live,
            v,
            level,
            key,
            at,
            if a is Some {
                a
            } else {
                b
            },
        ),
{
    let here = v[level as int];
    let n = here.len();
    assert forall|d: RawEntry| #[trigger] levels_hold(live, v, level, key, d) implies some_holds(
        live,
        here,
        n,
        key,
        d,
    ) || levels_hold(live, v, level + 1, key, d) by {
        let l = choose|l: int|
            level <= l < v.len() && some_holds(live, #[trigger] v[l], v[l].len(), key, d);
        if l > level {
            assert(some_holds(live, v[l], v[l].len(), key, d));
        }
    }
    assert forall|d: RawEntry| #[trigger] levels_hold(live, v, level + 1, key, d) implies levels_hold(
        live,
        v,
        level,
        key,
        d,
    ) by {
        let l = choose|l: int|
            level + 1 <= l < v.len() && some_holds(live, #[trigger] v[l], v[l].len(), key, d);
        assert(some_holds(live, v[l], v[l].len(), key, d));
    }
    if a is Some {
        let e = a->0;
        assert(some_holds(live, v[level as int], n, key, e));
        assert(levels_hold(live, v, level, key, e));
        let i = choose|i: int| 0 <= i < n && i < here.len() && holds(live, #[trigger] here[i], key, e);
        assert forall|d: RawEntry| #[trigger]
            levels_hold(live, v, level + 1, key, d) && seq_of(d.0) <= at implies seq_of(d.0)
            <= seq_of(e.0) by {
            let l = choose|l: int|
                level + 1 <= l < v.len() && some_holds(live, #[trigger] v[l], v[l].len(), key, d);
            let there = v[l];
            let j = choose|j: int|
                0 <= j < there.len() && j < there.len() && holds(live, #[trigger] there[j], key, d);
            assert(all_cover(live, v[level as int], v[l], floor));
            assert(covers(live, here[i], there[j], floor));
            assert(held(live, here[i]).contains(e) && held(live, there[j]).contains(d));
            if seq_of(e.0) < seq_of(d.0) {
                if at < floor {
                    assert(file_seen(live, v[level as int][i], key, at));
                }
                let x = lemma_answered(live, here[i], key, d, at, floor);
                assert(holds(live, here[i], key, x));
                assert(some_holds(live, here, n, key, x));
            }
        }
    }
}

/// The levels give the newest version that they hold.
proof fn lemma_levels_read(
    live: Files,
    v: Seq<Seq<FileView>>,
    level: nat,
    key: Seq<u8>,
    at: u64,
    floor: u64,
) -> (r: Option<RawEntry>)
    requires
        covering_levels(live, v, floor),
        served(live, v, key, at, floor),
        1 <= level <= v.len(),
    ensures
        newest_of_levels(live, v, level, key, at, r),
        levels_lookup(live, v, level, key, at) == Ok::<Option<ValueView>, ErrorView>(value_read(r)),
        r is Some ==> value_read(r) is Some,
    decreases v.len() - level,
{
    if level == v.len() {
        None
    } else {
        assert(all_sound(live, v[level as int]));
        assert(level_ordered(v[level as int]));
        assert(users_together(live, v[level as int]));
        let a = lemma_level_read(live, v[level as int], key, at);
        let b = lemma_levels_read(live, v, level + 1, key, at, floor);
        lemma_join(live, v, level, key, at, floor, a, b);
        if a is Some {
            a
        } else {
            b
        }
    }
}

/// On a level below level 0 only the file that is searched can hold a version of a user key.
proof fn lemma_only_candidate(live: Files, files: Seq<FileView>, key: Seq<u8>, i: int, d: RawEntry)
    requires
        all_sound(live, files),
        level_ordered(files),
        users_together(live, files),
        0 <= i < files.len(),
        holds(live, files[i], key, d),
    ensures
        i == candidate(files, key),
{
    lemma_partitioned(live, files, key);
    law_candidate_is_first(files, key);
    let c = candidate(files, key) as int;
    assert(sound_table(live, files[i]));
    lemma_not_past(live, files[i], key, d);
    if i > c {
        assert(sound_table(live, files[c]));
        assert(lex_lt(files[c].largest_key, files[i].smallest_key));
        let e = lemma_earlier_newer(live, files[c], files[i], key, d);
        assert(holds(live, files[c], key, e));
        assert(no_key_shared(live, files[c], files[i]));
        assert(held(live, files[c]).contains(e) && held(live, files[i]).contains(d));
    }
}

/// Tells whether a file on one of the levels from `level` on holds a version of a user key after a
/// sequence number.
pub open spec fn levels_hold_after(
    live: Files,
    v: Seq<Seq<FileView>>,
    level: nat,
    key: Seq<u8>,
    ts: u64,
) -> bool {
    exists|l: int, j: int|
        level <= l < v.len() && 0 <= j < v[l].len() && holds_after(
            live,
            #[trigger] v[l][j],
            key,
            ts,
        )
}

/// The levels tell whether one of their files holds a version of a user key after a sequence
/// number.
proof fn lemma_levels_written(
    live: Files,
    v: Seq<Seq<FileView>>,
    level: nat,
    key: Seq<u8>,
    ts: u64,
)
    requires
        sound_levels(live, v),
        1 <= level <= v.len(),
    ensures
        levels_written_after(live, v, level, key, ts) == Ok::<bool, ErrorView>(
            levels_hold_after(live, v, level, key, ts),
        ),
    decreases v.len() - level,
{
    if level < v.len() {
        let files = v[level as int];
        assert(all_sound(live, v[level as int]));
        assert(level_ordered(v[level as int]));
        assert(users_together(live, v[level as int]));
        lemma_levels_written(live, v, level + 1, key, ts);
        let c = candidate(files, key) as int;
        if c < files.len() {
            assert(sound_table(live, files[c]));
            lemma_file_written(live, files[c], key, ts);
            if holds_after(live, files[c], key, ts) {
                assert(holds_after(live, v[level as int][c], key, ts));
            }
        }
        if levels_hold_after(live, v, level + 1, key, ts) {
            let (l, j) = choose|l: int, j: int|
                level + 1 <= l < v.len() && 0 <= j < v[l].len() && holds_after(
                    live,
                    #[trigger] v[l][j],
                    key,
                    ts,
                );
            assert(holds_after(live, v[l][j], key, ts));
        }
        if levels_hold_after(live, v, level, key, ts) {
            let (l, j) = choose|l: int, j: int|
                level <= l < v.len() && 0 <= j < v[l].len() && holds_after(
                    live,
                    #[trigger] v[l][j],
                    key,
                    ts,
                );
            if l == level {
                let e = choose|e: RawEntry| #[trigger]
                    holds(live, v[l][j], key, e) && seq_of(e.0) > ts;
                lemma_only_candidate(live, files, key, j, e);
            } else {
                assert(holds_after(live, v[l][j], key, ts));
            }
        }
    }
}

/// The table files tell whether one of them, on whatever level, holds a version of a user key
/// after a sequence number.
pub proof fn lemma_tables_written(live: Files, v: Seq<Seq<FileView>>, key: Seq<u8>, ts: u64)
    requires
        sound_levels(live, v),
    ensures
        Ok::<bool, ErrorView>(levels_hold_after(live, v, 0, key, ts)) == match level0_written_after(
            live,
            v[0],
            0,
            key,
            ts,
        ) {
            Err(e) => Err(e),
            Ok(true) => Ok(true),
            Ok(false) => levels_written_after(live, v, 1, key, ts),
        },
{
    assert(all_sound(live, v[0]));
    lemma_level0_written(live, v[0], 0, key, ts);
    lemma_levels_written(live, v, 1, key, ts);
    if exists|j: int| 0 <= j < v[0].len() && holds_after(live, #[trigger] v[0][j], key, ts) {
        let j = choose|j: int| 0 <= j < v[0].len() && holds_after(live, #[trigger] v[0][j], key, ts);
        assert(holds_after(live, v[0][j], key, ts));
    }
    if levels_hold_after(live, v, 1, key, ts) {
        let (l, j) = choose|l: int, j: int|
            1 <= l < v.len() && 0 <= j < v[l].len() && holds_after(
                live,
                #[trigger] v[l][j],
                key,
                ts,
            );
        assert(holds_after(live, v[l][j], key, ts));
    }
    if levels_hold_after(live, v, 0, key, ts) {
        let (l, j) = choose|l: int, j: int|
            0 <= l < v.len() && 0 <= j < v[l].len() && holds_after(
                live,
                #[trigger] v[l][j],
                key,
                ts,
            );
        if l > 0 {
            assert(1 <= l < v.len() && holds_after(live, v[l][j], key, ts));
        }
    }
}

/// The table files give the newest version that they hold.
pub proof fn lemma_tables_read(
    live: Files,
    v: Seq<Seq<FileView>>,
    key: Seq<u8>,
    at: u64,
    floor: u64,
) -> (r: Option<RawEntry>)
    requires
        covering_levels(live, v, floor),
        served(live, v, key, at, floor),
    ensures
        newest_of_levels(live, v, 0, key, at, r),
        r is Some ==> value_read(r) is Some,
        Ok::<Option<ValueView>, ErrorView>(value_read(r)) == match level0_lookup(
            live,
            v[0],
            v[0].len(),
            key,
            at,
        ) {
            Err(e) => Err(e),
            Ok(Some(x)) => Ok(Some(x)),
            Ok(None) => levels_lookup(live, v, 1, key, at),
        },
{
    assert(all_sound(live, v[0]));
    if at < floor {
        let files = v[0];
        assert forall|i: int| 0 <= i < files.len() implies file_seen(
            live,
            #[trigger] files[i],
            key,
            at,
        ) by {
            assert(file_seen(live, v[0][i], key, at));
        }
    }
    let a = lemma_level0_read(live, v[0], v[0].len(), key, at, floor);
    let b = lemma_levels_read(live, v, 1, key, at, floor);
    lemma_join(live, v, 0, key, at, floor, a, b);
    if a is Some {
        a
    } else {
        b
    }
}

/// Tells whether a file of a level holds an entry.
pub open spec fn file_at_holds(
    live: Files,
    v: Seq<Seq<FileView>>,
    l: int,
    i: int,
    e: RawEntry,
) -> bool {
    0 <= l < v.len() && 0 <= i < v[l].len() && held(live, v[l][i]).contains(e)
}

/// Entries of a table file with the same key are the same.
proof fn lemma_one_in_file(live: Files, f: FileView, e: RawEntry, d: RawEntry)
    requires
        sound_table(live, f),
        held(live, f).contains(e),
        held(live, f).contains(d),
        e.0 == d.0,
    ensures
        e == d,
{
    lemma_held(live, f);
    let es = held(live, f);
    let p = choose|p: int| 0 <= p < es.len() && es[p] == e;
    let q = choose|q: int| 0 <= q < es.len() && es[q] == d;
    lemma_lex_irreflexive(e.0);
    if p < q {
        assert(lex_lt(es[p].0, es[q].0));
    } else if q < p {
        assert(lex_lt(es[q].0, es[p].0));
    }
}

/// A version of a user key that the levels hold is in a file.
pub proof fn lemma_place(live: Files, v: Seq<Seq<FileView>>, key: Seq<u8>, e: RawEntry) -> (p: (int, int))
    requires
        sound_levels(live, v),
        levels_hold(live, v, 0, key, e),
    ensures
        file_at_holds(live, v, p.0, p.1, e),
        user_of(e.0) == key,
        is_key(e.0),
{
    let l = choose|l: int|
        0 <= l < v.len() && some_holds(live, #[trigger] v[l], v[l].len(), key, e);
    let files = v[l];
    let i = choose|i: int|
        0 <= i < files.len() && i < files.len() && holds(live, #[trigger] files[i], key, e);
    assert(all_sound(live, v[l]));
    lemma_within(live, files[i], e);
    (l, i)
}

/// Of a user key one version is the newest.
proof fn lemma_one_newest(
    live: Files,
    v: Seq<Seq<FileView>>,
    key: Seq<u8>,
    at: u64,
    a: Option<RawEntry>,
    b: Option<RawEntry>,
)
    requires
        sound_levels(live, v),
        newest_of_levels(live, v, 0, key, at, a),
        newest_of_levels(live, v, 0, key, at, b),
    ensures
        a == b,
{
    if a is Some && b is Some {
        let e = a->0;
        let d = b->0;
        let p = lemma_place(live, v, key, e);
        let q = lemma_place(live, v, key, d);
        assert(levels_hold(live, v, 0, key, e));
        assert(levels_hold(live, v, 0, key, d));
        lemma_version_order(e.0, d.0);
        assert(file_at_holds(live, v, p.0, p.1, e) && file_at_holds(live, v, q.0, q.1, d));
    }
}

/// A reader gets, where the memtables hold no version of a user key that it sees, the newest that it
/// sees in the table files.
pub proof fn law_tables_give_newest(
    s: EngineView,
    key: Seq<u8>,
    at: u64,
    floor: u64,
    r: Option<RawEntry>,
)
    requires
        covering_levels(s.live, s.version, floor),
        served(s.live, s.version, key, at, floor),
        memory_lookup(s, key, at) is None,
        newest_of_levels(s.live, s.version, 0, key, at, r),
    ensures
        read_state(s, key, at) == Ok::<Option<ValueView>, ErrorView>(value_read(r)),
{
    let b = lemma_tables_read(s.live, s.version, key, at, floor);
    lemma_one_newest(s.live, s.version, key, at, r, b);
}

#[verifier::rlimit(40)]
proof fn lemma_with_table(
    live: Files,
    next: u64,
    files: Seq<Seq<RawEntry>>,
    config: SSTableConfig,
    n: nat,
    num: u64,
)
    requires
        next + n <= u64::MAX,
    ensures
        ({
            let after = with_tables(live, next, files, config, n);
            let id = FileId::Sst(num);
            if next <= num < next + n {
                after.contains_key(id) && after[id] == plain_table(files[num - next], config)
            } else {
                after.contains_key(id) == live.contains_key(id) && after[id] == live[id]
            }
        }),
    decreases n,
{
    if n > 0 {
        lemma_with_table(live, next, files, config, (n - 1) as nat, num);
    }
}

proof fn lemma_without_table(live: Files, nums: Seq<u64>, num: u64)
    requires
        !nums.contains(num),
    ensures
        without_tables(live, nums).contains_key(FileId::Sst(num)) == live.contains_key(
            FileId::Sst(num),
        ),
        live.contains_key(FileId::Sst(num)) ==> without_tables(live, nums)[FileId::Sst(num)]
            == live[FileId::Sst(num)],
    decreases nums.len(),
{
    if nums.len() > 0 {
        assert(nums[nums.len() - 1] == nums.last());
        assert(!nums.drop_last().contains(num)) by {
            if nums.drop_last().contains(num) {
                let q = choose|q: int| 0 <= q < nums.len() - 1 && nums.drop_last()[q] == num;
                assert(nums[q] == num);
            }
        }
        lemma_without_table(live, nums.drop_last(), num);
    }
}

/// A table file is what its bytes are.
pub proof fn lemma_same_bytes(a: Files, b: Files, f: FileView)
    requires
        sound_table(a, f),
        b.contains_key(FileId::Sst(f.file_num)),
        a[FileId::Sst(f.file_num)] == b[FileId::Sst(f.file_num)],
    ensures
        a.contains_key(FileId::Sst(f.file_num)),
        sound_table(b, f),
        held(b, f) == held(a, f),
{
    reveal(sound_table);
    let (es, config) = choose|es: Seq<RawEntry>, config: SSTableConfig| #[trigger]
        made_of(a, f, es, config);
    lemma_made_of(a, f, es, config);
    assert(made_of(b, f, es, config));
    lemma_made_of(b, f, es, config);
}

/// The watermark, or zero.
pub open spec fn lowest(watermark: Option<u64>) -> u64 {
    match watermark {
        Some(w) => w,
        None => 0,
    }
}

/// The sequence number from which on levels are in order after a compaction.
pub open spec fn higher(floor: u64, watermark: Option<u64>) -> u64 {
    if floor >= lowest(watermark) {
        floor
    } else {
        lowest(watermark)
    }
}

/// A compaction: the levels and files before and after, the key range and the numbers of the files
/// merged, and what the files made hold.
struct Step {
    live: Files,
    after: Files,
    version: Seq<Seq<FileView>>,
    level: int,
    smallest: Seq<u8>,
    largest: Seq<u8>,
    nums: Seq<u64>,
    next: u64,
    files: Seq<Seq<RawEntry>>,
    config: SSTableConfig,
    watermark: Option<u64>,
    floor: u64,
}

impl Step {
    /// The files made.
    spec fn made(self) -> Seq<FileView> {
        made_files(self.next, self.files, self.config)
    }

    /// The levels afterwards.
    spec fn levels(self) -> Seq<Seq<FileView>> {
        applied(self.version, self.level, self.level + 1, self.nums, self.made())
    }

    /// The files of the next level that are merged.
    spec fn outputs(self) -> Seq<FileView> {
        overlapping(self.version[self.level + 1], self.smallest, self.largest)
    }

    /// Tells whether a file with a number stays.
    spec fn stays(self, num: u64) -> bool {
        self.live.contains_key(FileId::Sst(num)) && !self.nums.contains(num)
    }

    /// Tells whether the files afterwards are those that stay and those made.
    spec fn files_fit(self) -> bool {
        &&& self.next + self.files.len() <= u64::MAX
        &&& numbers_free(self.live, self.next, self.files.len())
        &&& forall|num: u64| #[trigger]
            self.stays(num) ==> self.after.contains_key(FileId::Sst(num)) && self.after[FileId::Sst(num)]
                == self.live[FileId::Sst(num)]
        &&& forall|i: int|
            0 <= i < self.files.len() ==> made_of(
                self.after,
                #[trigger] self.made()[i],
                self.files[i],
                self.config,
            )
    }

    /// Tells whether a file is merged.
    spec fn source(self, f: FileView) -> bool {
        ||| {
            &&& self.version[self.level].contains(f)
            &&& lex_le(self.smallest, f.smallest_key)
            &&& lex_le(f.largest_key, self.largest)
        }
        ||| self.outputs().contains(f)
    }

    /// Tells whether a number is that of a file that is merged.
    spec fn names_source(self, num: u64) -> bool {
        exists|f: FileView| #[trigger] self.source(f) && f.file_num == num
    }

    /// Tells whether the files taken out are those merged.
    spec fn sources_fit(self) -> bool {
        &&& 0 <= self.level
        &&& self.level + 1 < self.version.len()
        &&& forall|i: int|
            0 <= i < self.outputs().len() ==> self.nums.contains(
                (#[trigger] self.outputs()[i]).file_num,
            )
        &&& forall|num: u64| #[trigger] self.nums.contains(num) ==> self.names_source(num)
        &&& self.level == 0 ==> forall|i: int|
            0 <= i < self.version[0].len() ==> self.nums.contains((#[trigger] self.version[0][i]).file_num)
    }

    /// Tells whether a file that is merged holds an entry.
    spec fn sourced(self, e: RawEntry) -> bool {
        exists|f: FileView| #[trigger]
            self.source(f) && self.nums.contains(f.file_num) && held(self.live, f).contains(e)
    }

    /// Tells whether a file that was made holds an entry.
    spec fn made_holds(self, e: RawEntry) -> bool {
        exists|k: int| 0 <= k < self.files.len() && (#[trigger] self.files[k]).contains(e)
    }

    /// Tells whether an entry is the newest of its user key among those merged that a reader at a
    /// sequence number sees.
    spec fn newest_sourced(self, e: RawEntry, at: u64) -> bool {
        &&& self.sourced(e)
        &&& seq_of(e.0) <= at
        &&& forall|d: RawEntry| #[trigger]
            self.sourced(d) && user_of(d.0) == user_of(e.0) && seq_of(d.0) <= at ==> seq_of(d.0)
                <= seq_of(e.0)
    }

    /// Tells whether a reader at a sequence number goes on seeing the same.
    spec fn serves(self, at: u64) -> bool {
        match self.watermark {
            Some(w) => at >= w,
            None => at == u64::MAX,
        }
    }

    /// Tells whether the files made hold entries merged, and of each user key the newest that a
    /// reader sees.
    spec fn entries_fit(self) -> bool {
        &&& raw_sorted(all_of(self.files))
        &&& cut_between_users(self.files)
        &&& forall|e: RawEntry| #[trigger] self.made_holds(e) ==> self.sourced(e)
        &&& forall|e: RawEntry, at: u64| #[trigger]
            self.newest_sourced(e, at) && self.serves(at) ==> self.made_holds(e)
        &&& forall|e: RawEntry, d: RawEntry|
            #![trigger self.made_holds(e), self.sourced(d)]
            self.made_holds(e) && self.sourced(d) && user_of(e.0) == user_of(d.0) && seq_of(e.0)
                < seq_of(d.0) ==> self.made_answers(d)
    }

    /// Tells whether the files made answer for an entry that is merged, for readers from the
    /// watermark on.
    spec fn made_answers(self, d: RawEntry) -> bool {
        exists|x: RawEntry| #[trigger]
            self.made_holds(x) && user_of(x.0) == user_of(d.0) && seq_of(d.0) <= seq_of(x.0) && (
            seq_of(x.0) <= lowest(self.watermark) || seq_of(x.0) == seq_of(d.0))
    }

    /// The sequence number from which on readers read the same afterwards.
    spec fn new_floor(self) -> u64 {
        higher(self.floor, self.watermark)
    }

    /// Tells whether the range of keys holds whole user keys.
    spec fn range_fits(self) -> bool {
        &&& is_key(self.smallest) && seq_of(self.smallest) == u64::MAX
        &&& is_key(self.largest) && seq_of(self.largest) == 0
    }

    spec fn wf(self) -> bool {
        &&& covering_levels(self.live, self.version, self.floor)
        &&& self.files_fit()
        &&& self.sources_fit()
        &&& self.entries_fit()
        &&& self.range_fits()
    }
}

/// Files that are not taken out are left.
proof fn lemma_left(files: Seq<FileView>, removed: Seq<u64>, g: FileView)
    ensures
        without_files(files, removed).contains(g) == (files.contains(g) && !removed.contains(
            g.file_num,
        )),
    decreases files.len(),
{
    let all = without_files(files, removed);
    if all.contains(g) {
        let i = choose|i: int| 0 <= i < all.len() && all[i] == g;
        lemma_without_files(files, removed, i);
    }
    if files.contains(g) && !removed.contains(g.file_num) {
        let t = files.drop_last();
        let q = choose|q: int| 0 <= q < files.len() && files[q] == g;
        let before = without_files(t, removed);
        lemma_left(t, removed, g);
        if q == t.len() {
            assert(all[before.len() as int] == g);
        } else {
            assert(t[q] == g);
            let p = choose|p: int| 0 <= p < before.len() && before[p] == g;
            assert(all[p] == g);
        }
    }
}

/// What a level holds afterwards: what stays, and on the next level what was made.
proof fn lemma_new_level(st: Step, l: int, g: FileView)
    requires
        st.sources_fit(),
        0 <= l < st.version.len(),
    ensures
        st.levels().len() == st.version.len(),
        l != st.level && l != st.level + 1 ==> st.levels()[l] == st.version[l],
        l == st.level ==> st.levels()[l].contains(g) == (st.version[l].contains(g)
            && !st.nums.contains(g.file_num)),
        l == st.level + 1 ==> st.levels()[l].contains(g) == ((st.version[l].contains(g)
            && !st.nums.contains(g.file_num)) || st.made().contains(g)),
{
    let v = st.version;
    lemma_left(v[l], st.nums, g);
    if l == st.level + 1 {
        let rest = without_files(v[l], st.nums);
        let all = rest + st.made();
        lemma_sorted_has(all, g);
        if all.contains(g) {
            let i = choose|i: int| 0 <= i < all.len() && all[i] == g;
            if i < rest.len() {
                assert(rest[i] == g);
            } else {
                assert(st.made()[i - rest.len()] == g);
            }
        }
        if rest.contains(g) {
            let i = choose|i: int| 0 <= i < rest.len() && rest[i] == g;
            assert(all[i] == g);
        }
        if st.made().contains(g) {
            let i = choose|i: int| 0 <= i < st.made().len() && st.made()[i] == g;
            assert(all[rest.len() + i] == g);
        }
    }
}

impl Step {
    /// Tells whether a file of a level stays.
    spec fn kept(self, l: int, g: FileView) -> bool {
        self.version[l].contains(g) && !self.nums.contains(g.file_num)
    }

    /// Tells whether a file of a level was made.
    spec fn was_made(self, l: int, g: FileView) -> bool {
        l == self.level + 1 && self.made().contains(g)
    }
}

/// A file that is merged is on the level or on the next.
proof fn lemma_source_level(st: Step, f: FileView) -> (l: int)
    requires
        st.sources_fit(),
        st.source(f),
    ensures
        l == st.level || l == st.level + 1,
        st.version[l].contains(f),
{
    if st.outputs().contains(f) {
        let i = choose|i: int| 0 <= i < st.outputs().len() && st.outputs()[i] == f;
        lemma_overlapping_subset(st.version[st.level + 1], st.smallest, st.largest, i);
        st.level + 1
    } else {
        st.level
    }
}

/// Files of other levels stay.
proof fn lemma_elsewhere(st: Step, l: int, g: FileView)
    requires
        st.wf(),
        0 <= l < st.version.len(),
        l != st.level,
        l != st.level + 1,
        st.version[l].contains(g),
    ensures
        !st.nums.contains(g.file_num),
{
    if st.nums.contains(g.file_num) {
        assert(st.names_source(g.file_num));
        let f = choose|f: FileView| #[trigger] st.source(f) && f.file_num == g.file_num;
        let m = lemma_source_level(st, f);
        let a = st.version[l];
        let b = st.version[m];
        let i = choose|i: int| 0 <= i < a.len() && a[i] == g;
        let j = choose|j: int| 0 <= j < b.len() && b[j] == f;
        assert(a[i].file_num == b[j].file_num);
        if l < m {
            assert(numbers_apart(st.version[l], st.version[m]));
        } else {
            assert(numbers_apart(st.version[m], st.version[l]));
        }
    }
}

/// A file that is on a level is there.
pub proof fn lemma_on_level(live: Files, v: Seq<Seq<FileView>>, l: int, g: FileView)
    requires
        sound_levels(live, v),
        0 <= l < v.len(),
        v[l].contains(g),
    ensures
        sound_table(live, g),
        live.contains_key(FileId::Sst(g.file_num)),
{
    assert(all_sound(live, v[l]));
    let files = v[l];
    let i = choose|i: int| 0 <= i < files.len() && files[i] == g;
    assert(sound_table(live, files[i]));
    lemma_same_bytes(live, live.insert(FileId::Sst(g.file_num), live[FileId::Sst(g.file_num)]), g);
}

/// A file that stays holds what it held.
proof fn lemma_kept(st: Step, l: int, g: FileView)
    requires
        st.wf(),
        0 <= l < st.version.len(),
        st.kept(l, g),
    ensures
        sound_table(st.live, g),
        sound_table(st.after, g),
        held(st.after, g) == held(st.live, g),
        st.live.contains_key(FileId::Sst(g.file_num)),
{
    lemma_on_level(st.live, st.version, l, g);
    assert(st.stays(g.file_num));
    lemma_same_bytes(st.live, st.after, g);
}

/// A file that was made holds what it was made of, and its number is new.
proof fn lemma_made(st: Step, k: int)
    requires
        st.wf(),
        0 <= k < st.files.len(),
    ensures
        sound_table(st.after, st.made()[k]),
        held(st.after, st.made()[k]) == st.files[k],
        !st.live.contains_key(FileId::Sst(st.made()[k].file_num)),
{
    let f = st.made()[k];
    assert(made_of(st.after, st.made()[k], st.files[k], st.config));
    lemma_made_of(st.after, f, st.files[k], st.config);
    assert(sound_table(st.after, f)) by {
        reveal(sound_table);
    }
    assert(!st.live.contains_key(sst_at(st.next, k)));
}

/// A file that was made, by its place.
proof fn lemma_made_index(st: Step, g: FileView) -> (k: int)
    requires
        st.wf(),
        st.made().contains(g),
    ensures
        0 <= k < st.files.len(),
        st.made()[k] == g,
        sound_table(st.after, g),
        held(st.after, g) == st.files[k],
        !st.live.contains_key(FileId::Sst(g.file_num)),
        forall|e: RawEntry| #[trigger] held(st.after, g).contains(e) ==> st.made_holds(e),
{
    let k = choose|k: int| 0 <= k < st.made().len() && st.made()[k] == g;
    lemma_made(st, k);
    assert forall|e: RawEntry| #[trigger] held(st.after, g).contains(e) implies st.made_holds(e) by {
        assert(st.files[k].contains(e));
    }
    k
}

/// A file afterwards stayed or was made.
proof fn lemma_came(st: Step, l: int, g: FileView)
    requires
        st.wf(),
        0 <= l < st.version.len(),
    ensures
        st.levels().len() == st.version.len(),
        st.levels()[l].contains(g) <==> st.kept(l, g) || st.was_made(l, g),
{
    lemma_new_level(st, l, g);
    if l != st.level && l != st.level + 1 && st.version[l].contains(g) {
        lemma_elsewhere(st, l, g);
    }
}

/// What a file taken out holds was merged.
proof fn lemma_taken(st: Step, l: int, g: FileView, e: RawEntry)
    requires
        st.wf(),
        0 <= l < st.version.len(),
        st.version[l].contains(g),
        st.nums.contains(g.file_num),
        held(st.live, g).contains(e),
    ensures
        st.sourced(e),
{
    assert(st.names_source(g.file_num));
    let f = choose|f: FileView| #[trigger] st.source(f) && f.file_num == g.file_num;
    assert(held(st.live, f) == held(st.live, g)) by {
        reveal(held);
    }
}

/// Where an entry that was merged came from.
proof fn lemma_sourced(st: Step, e: RawEntry) -> (p: (int, FileView))
    requires
        st.wf(),
        st.sourced(e),
    ensures
        p.0 == st.level || p.0 == st.level + 1,
        st.version[p.0].contains(p.1),
        st.nums.contains(p.1.file_num),
        held(st.live, p.1).contains(e),
{
    let f = choose|f: FileView| #[trigger]
        st.source(f) && st.nums.contains(f.file_num) && held(st.live, f).contains(e);
    let l = lemma_source_level(st, f);
    (l, f)
}

/// A file of an upper level answers for an entry of a lower level that is newer than one of its
/// own.
proof fn lemma_upper_answers(
    live: Files,
    v: Seq<Seq<FileView>>,
    floor: u64,
    l: int,
    f: FileView,
    e: RawEntry,
    m: int,
    g: FileView,
    d: RawEntry,
)
    requires
        covering_levels(live, v, floor),
        0 <= l < m < v.len(),
        v[l].contains(f),
        v[m].contains(g),
        held(live, f).contains(e),
        held(live, g).contains(d),
        user_of(e.0) == user_of(d.0),
        seq_of(e.0) < seq_of(d.0),
    ensures
        answers(live, f, d, floor),
{
    let a = v[l];
    let b = v[m];
    let i = choose|i: int| 0 <= i < a.len() && a[i] == f;
    let j = choose|j: int| 0 <= j < b.len() && b[j] == g;
    assert(all_cover(live, v[l], v[m], floor));
    assert(covers(live, a[i], b[j], floor));
}

/// What answers for readers goes on doing so for fewer of them, where the file holds the same.
proof fn lemma_answers_on(a: Files, b: Files, f: FileView, d: RawEntry, floor: u64, top: u64)
    requires
        answers(a, f, d, floor),
        held(b, f) == held(a, f),
        floor <= top,
    ensures
        answers(b, f, d, top),
{
    let x = choose|x: RawEntry| #[trigger]
        held(a, f).contains(x) && user_of(x.0) == user_of(d.0) && seq_of(d.0) <= seq_of(x.0) && (
        seq_of(x.0) <= floor || seq_of(x.0) == seq_of(d.0));
    assert(held(b, f).contains(x));
}

/// A user key of a level below level 0 is in one file.
proof fn lemma_together(
    live: Files,
    v: Seq<Seq<FileView>>,
    l: int,
    f: FileView,
    e: RawEntry,
    g: FileView,
    d: RawEntry,
)
    requires
        sound_levels(live, v),
        1 <= l < v.len(),
        v[l].contains(f),
        v[l].contains(g),
        held(live, f).contains(e),
        held(live, g).contains(d),
        user_of(e.0) == user_of(d.0),
    ensures
        f == g,
{
    let files = v[l];
    let i = choose|i: int| 0 <= i < files.len() && files[i] == f;
    let j = choose|j: int| 0 <= j < files.len() && files[j] == g;
    assert(users_together(live, v[l]));
    if i < j {
        assert(no_key_shared(live, files[i], files[j]));
    } else if j < i {
        assert(no_key_shared(live, files[j], files[i]));
    }
}

/// A file that was made answers for what one merged answered for.
proof fn lemma_made_answers(st: Step, f: FileView, e: RawEntry, p: FileView, d: RawEntry)
    requires
        st.wf(),
        st.made().contains(f),
        held(st.after, f).contains(e),
        st.source(p),
        st.nums.contains(p.file_num),
        answers(st.live, p, d, st.floor),
        user_of(e.0) == user_of(d.0),
        seq_of(e.0) < seq_of(d.0),
    ensures
        answers(st.after, f, d, st.new_floor()),
{
    let k = lemma_made_index(st, f);
    assert(st.made_holds(e));
    let x = choose|x: RawEntry| #[trigger]
        held(st.live, p).contains(x) && user_of(x.0) == user_of(d.0) && seq_of(d.0) <= seq_of(x.0) && (
        seq_of(x.0) <= st.floor || seq_of(x.0) == seq_of(d.0));
    assert(st.sourced(x));
    assert(st.made_answers(x));
    let y = choose|y: RawEntry| #[trigger]
        st.made_holds(y) && user_of(y.0) == user_of(x.0) && seq_of(x.0) <= seq_of(y.0) && (seq_of(y.0)
            <= lowest(st.watermark) || seq_of(y.0) == seq_of(x.0));
    let j = choose|j: int| 0 <= j < st.files.len() && (#[trigger] st.files[j]).contains(y);
    lemma_made(st, j);
    assert(held(st.after, st.made()[j]).contains(y));
    if j < k {
        lemma_made_together(st, j, k);
    } else if k < j {
        lemma_made_together(st, k, j);
    }
    assert(held(st.after, f).contains(y));
}

/// Upper levels go on coming before lower ones.
proof fn lemma_stays_covering(st: Step, l: int, f: FileView, m: int, g: FileView)
    requires
        st.wf(),
        0 <= l < m < st.version.len(),
        st.levels()[l].contains(f),
        st.levels()[m].contains(g),
    ensures
        covers(st.after, f, g, st.new_floor()),
{
    lemma_came(st, l, f);
    lemma_came(st, m, g);
    let top = st.new_floor();
    assert forall|e: RawEntry, d: RawEntry|
        #![trigger held(st.after, f).contains(e), held(st.after, g).contains(d)]
        held(st.after, f).contains(e) && held(st.after, g).contains(d) && user_of(e.0) == user_of(
            d.0,
        ) && seq_of(e.0) < seq_of(d.0) implies answers(st.after, f, d, top) by {
        if st.kept(l, f) {
            lemma_kept(st, l, f);
            if st.kept(m, g) {
                lemma_kept(st, m, g);
                lemma_upper_answers(st.live, st.version, st.floor, l, f, e, m, g, d);
            } else {
                let k = lemma_made_index(st, g);
                assert(st.made_holds(d));
                let p = lemma_sourced(st, d);
                if p.0 > l {
                    lemma_upper_answers(st.live, st.version, st.floor, l, f, e, p.0, p.1, d);
                } else if l == 0 {
                    let files = st.version[0];
                    let i = choose|i: int| 0 <= i < files.len() && files[i] == f;
                    assert(st.nums.contains(st.version[0][i].file_num));
                } else {
                    lemma_together(st.live, st.version, l, f, e, p.1, d);
                    assert(st.nums.contains(p.1.file_num));
                }
            }
            lemma_answers_on(st.live, st.after, f, d, st.floor, top);
        } else {
            let k = lemma_made_index(st, f);
            assert(st.made_holds(e));
            let p = choose|p: FileView| #[trigger]
                st.source(p) && st.nums.contains(p.file_num) && held(st.live, p).contains(e);
            let n = lemma_source_level(st, p);
            assert(st.kept(m, g));
            lemma_kept(st, m, g);
            lemma_upper_answers(st.live, st.version, st.floor, n, p, e, m, g, d);
            lemma_made_answers(st, f, e, p, d);
        }
    }
}

/// Files of different levels keep different numbers.
proof fn lemma_stays_numbered(st: Step, l: int, f: FileView, m: int, g: FileView)
    requires
        st.wf(),
        0 <= l < m < st.version.len(),
        st.levels()[l].contains(f),
        st.levels()[m].contains(g),
    ensures
        f.file_num != g.file_num,
{
    lemma_came(st, l, f);
    lemma_came(st, m, g);
    if st.kept(l, f) && st.kept(m, g) {
        let a = st.version[l];
        let b = st.version[m];
        let i = choose|i: int| 0 <= i < a.len() && a[i] == f;
        let j = choose|j: int| 0 <= j < b.len() && b[j] == g;
        assert(numbers_apart(st.version[l], st.version[m]));
        assert(a[i].file_num != b[j].file_num);
    } else if st.kept(l, f) {
        lemma_kept(st, l, f);
        let k = lemma_made_index(st, g);
    } else {
        lemma_kept(st, m, g);
        let k = lemma_made_index(st, f);
    }
}

/// Level 0 keeps its order, or is empty.
proof fn lemma_stays_level0(st: Step)
    requires
        st.wf(),
    ensures
        later_cover(st.after, st.levels()[0], st.new_floor()),
{
    let files = st.levels()[0];
    assert forall|i: int, j: int| 0 <= i < j < files.len() implies covers(
        st.after,
        #[trigger] files[j],
        #[trigger] files[i],
        st.new_floor(),
    ) by {
        assert(files.contains(files[i]));
        assert(files.contains(files[j]));
        lemma_came(st, 0, files[i]);
        lemma_came(st, 0, files[j]);
        if st.level == 0 {
            let was = st.version[0];
            let q = choose|q: int| 0 <= q < was.len() && was[q] == files[i];
            assert(st.nums.contains(st.version[0][q].file_num));
        } else {
            lemma_new_level(st, 0, files[i]);
            lemma_kept(st, 0, files[i]);
            lemma_kept(st, 0, files[j]);
            assert(files == st.version[0]);
            let (f, g) = (files[j], files[i]);
            assert(covers(st.live, files[j], files[i], st.floor));
            assert forall|e: RawEntry, d: RawEntry|
                #![trigger held(st.after, f).contains(e), held(st.after, g).contains(d)]
                held(st.after, f).contains(e) && held(st.after, g).contains(d) && user_of(e.0)
                    == user_of(d.0) && seq_of(e.0) < seq_of(d.0) implies answers(
                st.after,
                f,
                d,
                st.new_floor(),
            ) by {
                assert(held(st.live, f).contains(e) && held(st.live, g).contains(d));
                lemma_answers_on(st.live, st.after, f, d, st.floor, st.new_floor());
            }
        }
    }
}

/// All entries of groups are those of each.
proof fn lemma_all_has(groups: Seq<Seq<RawEntry>>, e: RawEntry)
    ensures
        all_of(groups).contains(e) <==> exists|k: int|
            0 <= k < groups.len() && (#[trigger] groups[k]).contains(e),
    decreases groups.len(),
{
    if groups.len() > 0 {
        let t = groups.drop_last();
        let n = t.len() as int;
        let front = all_of(t);
        let all = all_of(groups);
        assert(all == front + groups[n]);
        lemma_all_has(t, e);
        if all.contains(e) {
            let p = choose|p: int| 0 <= p < all.len() && all[p] == e;
            if p < front.len() {
                assert(front[p] == e);
                let k = choose|k: int| 0 <= k < t.len() && (#[trigger] t[k]).contains(e);
                assert(groups[k].contains(e));
            } else {
                assert(groups[n][p - front.len()] == e);
                assert(groups[n].contains(e));
            }
        }
        if exists|k: int| 0 <= k < groups.len() && (#[trigger] groups[k]).contains(e) {
            let k = choose|k: int| 0 <= k < groups.len() && (#[trigger] groups[k]).contains(e);
            if k < n {
                assert(t[k].contains(e));
                let p = choose|p: int| 0 <= p < front.len() && front[p] == e;
                assert(all[p] == e);
            } else {
                let q = choose|q: int| 0 <= q < groups[n].len() && groups[n][q] == e;
                assert(all[front.len() + q] == e);
            }
        }
    }
}

/// Groups of entries in order are in order.
proof fn lemma_groups_ordered(groups: Seq<Seq<RawEntry>>, i: int, j: int, e: RawEntry, d: RawEntry)
    requires
        raw_sorted(all_of(groups)),
        0 <= i < j < groups.len(),
        groups[i].contains(e),
        groups[j].contains(d),
    ensures
        lex_lt(e.0, d.0),
    decreases groups.len(),
{
    let t = groups.drop_last();
    let n = t.len() as int;
    let front = all_of(t);
    let all = all_of(groups);
    assert(all == front + groups[n]);
    if j == n {
        assert(t[i].contains(e));
        lemma_all_has(t, e);
        let p = choose|p: int| 0 <= p < front.len() && front[p] == e;
        let q = choose|q: int| 0 <= q < groups[n].len() && groups[n][q] == d;
        assert(all[p] == e);
        assert(all[front.len() + q] == d);
        assert(lex_lt(all[p].0, all[front.len() + q].0));
    } else {
        assert forall|a: int, b: int| 0 <= a < b < front.len() implies lex_lt(
            (#[trigger] front[a]).0,
            (#[trigger] front[b]).0,
        ) by {
            assert(all[a] == front[a] && all[b] == front[b]);
        }
        assert(t[i] == groups[i] && t[j] == groups[j]);
        lemma_groups_ordered(t, i, j, e, d);
    }
}

/// The files made are in order and apart.
proof fn lemma_made_ordered(st: Step)
    requires
        st.wf(),
    ensures
        level_ordered(st.made()),
{
    let made = st.made();
    assert forall|i: int| 0 <= i < made.len() implies lex_le(
        (#[trigger] made[i]).smallest_key,
        made[i].largest_key,
    ) by {
        lemma_made(st, i);
        lemma_held(st.after, made[i]);
        let es = st.files[i];
        if es.len() > 1 {
            assert(lex_lt(es[0].0, es[es.len() - 1].0));
        }
    }
    assert forall|i: int, j: int| 0 <= i < j < made.len() implies lex_lt(
        (#[trigger] made[i]).largest_key,
        (#[trigger] made[j]).smallest_key,
    ) by {
        lemma_made(st, i);
        lemma_made(st, j);
        lemma_held(st.after, made[i]);
        lemma_held(st.after, made[j]);
        let e = st.files[i].last();
        let d = st.files[j][0];
        assert(st.files[i][st.files[i].len() - 1] == e);
        assert(st.files[i].contains(e) && st.files[j].contains(d));
        lemma_groups_ordered(st.files, i, j, e, d);
    }
}

/// Entries of two groups are versions of different user keys.
proof fn lemma_groups_apart(
    groups: Seq<Seq<RawEntry>>,
    i: int,
    j: int,
    e: RawEntry,
    d: RawEntry,
)
    requires
        raw_sorted(all_of(groups)),
        cut_between_users(groups),
        0 <= i < j < groups.len(),
        groups[i].contains(e),
        groups[j].contains(d),
        groups[i + 1].len() > 0,
        is_key(e.0),
        is_key(d.0),
        is_key(groups[i].last().0),
        is_key(groups[i + 1][0].0),
        lex_le(e.0, groups[i].last().0),
        j == i + 1 ==> lex_le(groups[j][0].0, d.0),
    ensures
        user_of(e.0) != user_of(d.0),
{
    let a = groups[i].last();
    let b = groups[i + 1][0];
    assert(groups[i][groups[i].len() - 1] == a);
    assert(groups[i].contains(a) && groups[i + 1].contains(b));
    lemma_groups_ordered(groups, i, i + 1, a, b);
    if j > i + 1 {
        lemma_groups_ordered(groups, i + 1, j, b, d);
    }
    lemma_groups_ordered(groups, i, j, a, d);
    lemma_lex_le_lt(e.0, a.0, b.0);
    let k = i + 1;
    assert(user_of(groups[k - 1].last().0) != user_of(groups[k][0].0));
    if user_of(e.0) == user_of(d.0) {
        lemma_between(e.0, a.0, d.0);
        lemma_between(e.0, b.0, d.0);
    }
}

/// The files made share no user key.
proof fn lemma_made_together(st: Step, i: int, j: int)
    requires
        st.wf(),
        0 <= i < j < st.made().len(),
    ensures
        no_key_shared(st.after, st.made()[i], st.made()[j]),
{
    let (f, g, h) = (st.made()[i], st.made()[j], st.made()[i + 1]);
    lemma_made(st, i);
    lemma_made(st, i + 1);
    lemma_made(st, j);
    lemma_held(st.after, f);
    lemma_held(st.after, h);
    lemma_ends(st.after, f);
    lemma_ends(st.after, h);
    assert forall|e: RawEntry, d: RawEntry|
        #![trigger held(st.after, f).contains(e), held(st.after, g).contains(d)]
        held(st.after, f).contains(e) && held(st.after, g).contains(d) implies user_of(e.0)
        != user_of(d.0) by {
        lemma_within(st.after, f, e);
        lemma_within(st.after, g, d);
        lemma_groups_apart(st.files, i, j, e, d);
    }
}

/// A file that stays on the next level shares no user key with one that is made.
proof fn lemma_kept_together(st: Step, f: FileView, k: int)
    requires
        st.wf(),
        st.kept(st.level + 1, f),
        0 <= k < st.made().len(),
    ensures
        no_key_shared(st.after, f, st.made()[k]),
        no_key_shared(st.after, st.made()[k], f),
{
    let m = st.level + 1;
    let g = st.made()[k];
    lemma_kept(st, m, f);
    lemma_made(st, k);
    assert forall|e: RawEntry, d: RawEntry|
        #![trigger held(st.after, f).contains(e), held(st.after, g).contains(d)]
        held(st.after, f).contains(e) && held(st.after, g).contains(d) implies user_of(e.0)
        != user_of(d.0) by {
        assert(st.made_holds(d));
        lemma_shared(st, f, e, d);
    }
}

proof fn lemma_shared(st: Step, f: FileView, e: RawEntry, d: RawEntry)
    requires
        st.wf(),
        st.kept(st.level + 1, f),
        held(st.live, f).contains(e),
        st.made_holds(d),
    ensures
        user_of(e.0) != user_of(d.0),
{
    let m = st.level + 1;
    assert(st.sourced(d));
    let g = choose|g: FileView| #[trigger]
        st.source(g) && st.nums.contains(g.file_num) && held(st.live, g).contains(d);
    let l = lemma_source_level(st, g);
    lemma_on_level(st.live, st.version, l, g);
    lemma_on_level(st.live, st.version, m, f);
    lemma_within(st.live, g, d);
    lemma_within(st.live, f, e);
    if user_of(e.0) != user_of(d.0) {
    } else if st.outputs().contains(g) {
        let q = choose|q: int| 0 <= q < st.outputs().len() && st.outputs()[q] == g;
        lemma_overlapping_subset(st.version[m], st.smallest, st.largest, q);
        lemma_together(st.live, st.version, m, f, e, g, d);
    } else {
        let (a, b) = (st.smallest, st.largest);
        if a != g.smallest_key {
            lemma_lex_lt_le(a, g.smallest_key, d.0);
        }
        if d.0 != g.largest_key {
            lemma_lex_lt_le(d.0, g.largest_key, b);
        }
        assert(lex_le(a, d.0) && lex_le(d.0, b));
        if user_of(a) == user_of(e.0) {
            lemma_version_order(a, e.0);
        } else {
            lemma_user_order(a, d.0);
            lemma_user_order(a, e.0);
        }
        if user_of(b) == user_of(e.0) {
            lemma_version_order(e.0, b);
        } else {
            lemma_user_order(d.0, b);
            lemma_user_order(e.0, b);
        }
        assert(lex_le(a, e.0) && lex_le(e.0, b));
        assert(!lex_lt(f.largest_key, a)) by {
            if lex_lt(f.largest_key, a) {
                lemma_lex_le_lt(e.0, f.largest_key, a);
                lemma_lex_irreflexive(a);
                lemma_lex_asymmetric(e.0, a);
            }
        }
        assert(!lex_lt(b, f.smallest_key)) by {
            if lex_lt(b, f.smallest_key) {
                lemma_lex_lt_le(b, f.smallest_key, e.0);
                lemma_lex_irreflexive(b);
                lemma_lex_asymmetric(b, e.0);
            }
        }
        assert(overlaps_keys(f, a, b));
        let files = st.version[m];
        let i = choose|i: int| 0 <= i < files.len() && files[i] == f;
        lemma_overlapping_has(files, a, b, i);
        let q = choose|q: int| 0 <= q < st.outputs().len() && st.outputs()[q] == f;
        assert(st.nums.contains(st.outputs()[q].file_num));
    }
}

/// The files of a level go on sharing no user key.
proof fn lemma_stays_together(st: Step, l: int, f: FileView, g: FileView)
    requires
        st.wf(),
        1 <= l < st.version.len(),
        st.levels()[l].contains(f),
        st.levels()[l].contains(g),
        lex_lt(f.largest_key, g.smallest_key),
    ensures
        no_key_shared(st.after, f, g),
{
    lemma_came(st, l, f);
    lemma_came(st, l, g);
    if st.kept(l, f) && st.kept(l, g) {
        lemma_kept(st, l, f);
        lemma_kept(st, l, g);
        lemma_on_level(st.live, st.version, l, f);
        lemma_ends(st.live, f);
        let a = choose|a: RawEntry| #[trigger] held(st.live, f).contains(a) && a.0 == f.largest_key;
        lemma_within(st.live, f, a);
        assert forall|e: RawEntry, d: RawEntry|
            #![trigger held(st.after, f).contains(e), held(st.after, g).contains(d)]
            held(st.after, f).contains(e) && held(st.after, g).contains(d) implies user_of(e.0)
            != user_of(d.0) by {
            if user_of(e.0) == user_of(d.0) {
                lemma_together(st.live, st.version, l, f, e, g, d);
                lemma_lex_lt_le(f.largest_key, f.smallest_key, f.largest_key);
                lemma_lex_irreflexive(f.largest_key);
            }
        }
    } else if st.kept(l, f) {
        let k = lemma_made_index(st, g);
        lemma_kept_together(st, f, k);
    } else if st.kept(l, g) {
        let k = lemma_made_index(st, f);
        lemma_kept_together(st, g, k);
    } else {
        let i = lemma_made_index(st, f);
        let j = lemma_made_index(st, g);
        lemma_made_ordered(st);
        if i < j {
            lemma_made_together(st, i, j);
        } else if j < i {
            lemma_lex_lt_le(st.made()[j].largest_key, f.smallest_key, f.largest_key);
            lemma_lex_transitive(g.largest_key, f.largest_key, g.smallest_key);
            lemma_lex_lt_le(g.largest_key, g.smallest_key, g.largest_key);
            lemma_lex_irreflexive(g.largest_key);
        } else {
            lemma_lex_lt_le(f.largest_key, f.smallest_key, f.largest_key);
            lemma_lex_irreflexive(f.largest_key);
        }
    }
}

/// An entry that was made lies within the keys of the files merged.
proof fn lemma_made_within(st: Step, e: RawEntry)
    requires
        st.wf(),
        st.made_holds(e),
    ensures
        lex_le(st.smallest, e.0) || exists|i: int|
            0 <= i < st.outputs().len() && lex_le((#[trigger] st.outputs()[i]).smallest_key, e.0),
        lex_le(e.0, st.largest) || exists|i: int|
            0 <= i < st.outputs().len() && lex_le(e.0, (#[trigger] st.outputs()[i]).largest_key),
{
    assert(st.sourced(e));
    let f = choose|f: FileView| #[trigger]
        st.source(f) && st.nums.contains(f.file_num) && held(st.live, f).contains(e);
    let l = lemma_source_level(st, f);
    lemma_on_level(st.live, st.version, l, f);
    lemma_within(st.live, f, e);
    if st.outputs().contains(f) {
        let i = choose|i: int| 0 <= i < st.outputs().len() && st.outputs()[i] == f;
        assert(lex_le(st.outputs()[i].smallest_key, e.0));
        assert(lex_le(e.0, st.outputs()[i].largest_key));
    } else {
        if st.smallest != f.smallest_key {
            lemma_lex_lt_le(st.smallest, f.smallest_key, e.0);
        }
        if e.0 != f.largest_key {
            lemma_lex_lt_le(e.0, f.largest_key, st.largest);
        }
    }
}

/// A version goes on having the same value wherever it is.
proof fn lemma_stays_agreeing(st: Step)
    requires
        st.wf(),
    ensures
        one_value_each(st.after, st.levels()),
{
    let v = st.levels();
    assert forall|l: int, i: int, e: RawEntry, m: int, j: int, d: RawEntry|
        #![trigger file_at_holds(st.after, v, l, i, e), file_at_holds(st.after, v, m, j, d)]
        file_at_holds(st.after, v, l, i, e) && file_at_holds(st.after, v, m, j, d) && e.0
            == d.0 implies e == d by {
        let was = st.version;
        assert(v[l].contains(v[l][i]) && v[m].contains(v[m][j]));
        let p = lemma_held_before(st, l, v[l][i], e);
        let q = lemma_held_before(st, m, v[m][j], d);
        let a = choose|a: int| 0 <= a < was[p.0].len() && was[p.0][a] == p.1;
        let b = choose|b: int| 0 <= b < was[q.0].len() && was[q.0][b] == q.1;
        assert(file_at_holds(st.live, was, p.0, a, e));
        assert(file_at_holds(st.live, was, q.0, b, d));
    }
}

/// A compaction leaves levels sound.
proof fn lemma_stays_sound(st: Step)
    requires
        st.wf(),
    ensures
        covering_levels(st.after, st.levels(), st.new_floor()),
{
    let v = st.levels();
    let made = st.made();
    lemma_made_ordered(st);
    assert forall|i: int| 0 <= i < made.len() implies within_merged(
        #[trigger] made[i],
        st.smallest,
        st.largest,
        st.outputs(),
    ) by {
        lemma_made(st, i);
        lemma_held(st.after, made[i]);
        let es = st.files[i];
        assert(es[es.len() - 1] == es.last());
        assert(st.files[i].contains(es[0]) && st.files[i].contains(es.last()));
        assert(st.made_holds(es[0]) && st.made_holds(es.last()));
        lemma_made_within(st, es[0]);
        lemma_made_within(st, es.last());
    }
    law_compaction_keeps_order(st.version, st.level, st.smallest, st.largest, st.nums, made);
    lemma_stays_level0(st);
    assert forall|l: int| 0 <= l < v.len() implies all_sound(st.after, #[trigger] v[l]) by {
        let files = v[l];
        assert forall|i: int| 0 <= i < files.len() implies sound_table(st.after, #[trigger] files[i]) by {
            assert(v[l].contains(files[i]));
            lemma_came(st, l, files[i]);
            if st.kept(l, files[i]) {
                lemma_kept(st, l, files[i]);
            } else {
                let k = lemma_made_index(st, files[i]);
            }
        }
    }
    assert forall|l: int| 1 <= l < v.len() implies users_together(st.after, #[trigger] v[l]) by {
        let files = v[l];
        assert(level_ordered(v[l]));
        assert forall|i: int, j: int| 0 <= i < j < files.len() implies no_key_shared(
            st.after,
            #[trigger] files[i],
            #[trigger] files[j],
        ) by {
            assert(v[l].contains(files[i]) && v[l].contains(files[j]));
            lemma_stays_together(st, l, files[i], files[j]);
        }
    }
    assert forall|l: int, m: int| 0 <= l < m < v.len() implies all_cover(
        st.after,
        #[trigger] v[l],
        #[trigger] v[m],
        st.new_floor(),
    ) by {
        let a = v[l];
        let b = v[m];
        assert forall|i: int, j: int| 0 <= i < a.len() && 0 <= j < b.len() implies covers(
            st.after,
            #[trigger] a[i],
            #[trigger] b[j],
            st.new_floor(),
        ) by {
            assert(v[l].contains(a[i]) && v[m].contains(b[j]));
            lemma_stays_covering(st, l, a[i], m, b[j]);
        }
    }
    lemma_stays_agreeing(st);
    assert forall|l: int, m: int| 0 <= l < m < v.len() implies numbers_apart(
        #[trigger] v[l],
        #[trigger] v[m],
    ) by {
        let a = v[l];
        let b = v[m];
        assert forall|i: int, j: int| 0 <= i < a.len() && 0 <= j < b.len() implies (#[trigger] a[i]).file_num
            != (#[trigger] b[j]).file_num by {
            assert(v[l].contains(a[i]) && v[m].contains(b[j]));
            lemma_stays_numbered(st, l, a[i], m, b[j]);
        }
    }
}

/// What a file of a level holds, the levels hold.
pub proof fn lemma_held_on_level(live: Files, v: Seq<Seq<FileView>>, l: int, g: FileView, e: RawEntry)
    requires
        0 <= l < v.len(),
        v[l].contains(g),
        held(live, g).contains(e),
    ensures
        levels_hold(live, v, 0, user_of(e.0), e),
{
    let files = v[l];
    let i = choose|i: int| 0 <= i < files.len() && files[i] == g;
    assert(holds(live, files[i], user_of(e.0), e));
    assert(some_holds(live, v[l], v[l].len(), user_of(e.0), e));
}

/// What the levels hold afterwards, they held.
proof fn lemma_held_before(st: Step, l: int, g: FileView, e: RawEntry) -> (p: (int, FileView))
    requires
        st.wf(),
        0 <= l < st.version.len(),
        st.levels()[l].contains(g),
        held(st.after, g).contains(e),
    ensures
        0 <= p.0 < st.version.len(),
        st.version[p.0].contains(p.1),
        held(st.live, p.1).contains(e),
{
    lemma_came(st, l, g);
    if st.kept(l, g) {
        lemma_kept(st, l, g);
        (l, g)
    } else {
        let k = lemma_made_index(st, g);
        assert(st.made_holds(e));
        lemma_sourced(st, e)
    }
}

/// The newest version of a user key that a reader sees stays.
proof fn lemma_newest_stays(st: Step, key: Seq<u8>, at: u64, e: RawEntry)
    requires
        st.wf(),
        st.serves(at) || all_seen(st.live, st.version, key, at),
        newest_of_levels(st.live, st.version, 0, key, at, Some(e)),
    ensures
        levels_hold(st.after, st.levels(), 0, key, e),
{
    let p = lemma_place(st.live, st.version, key, e);
    let l = p.0;
    let g = st.version[l][p.1];
    assert(st.version[l].contains(g));
    if st.nums.contains(g.file_num) {
        lemma_taken(st, l, g, e);
        let top = if st.serves(at) {
            at
        } else {
            u64::MAX
        };
        assert(st.newest_sourced(e, top)) by {
            assert forall|d: RawEntry| #[trigger]
                st.sourced(d) && user_of(d.0) == user_of(e.0) && seq_of(d.0) <= top implies seq_of(d.0)
                <= seq_of(e.0) by {
                let q = lemma_sourced(st, d);
                lemma_held_on_level(st.live, st.version, q.0, q.1, d);
                assert(levels_hold(st.live, st.version, 0, key, d));
                if !st.serves(at) {
                    let files = st.version[q.0];
                    let j = choose|j: int| 0 <= j < files.len() && files[j] == q.1;
                    assert(file_seen(st.live, st.version[q.0][j], key, at));
                    assert(holds(st.live, st.version[q.0][j], key, d));
                }
            }
        }
        assert(st.made_holds(e));
        let k = choose|k: int| 0 <= k < st.files.len() && (#[trigger] st.files[k]).contains(e);
        let f = st.made()[k];
        lemma_made(st, k);
        assert(st.made().contains(f));
        lemma_came(st, st.level + 1, f);
        assert(st.was_made(st.level + 1, f));
        lemma_held_on_level(st.after, st.levels(), st.level + 1, f, e);
    } else {
        assert(st.kept(l, g));
        lemma_kept(st, l, g);
        lemma_came(st, l, g);
        lemma_held_on_level(st.after, st.levels(), l, g, e);
    }
}

/// Every version of a user key that the levels hold afterwards, they held.
proof fn lemma_no_new_versions(st: Step, key: Seq<u8>, d: RawEntry)
    requires
        st.wf(),
        levels_hold(st.after, st.levels(), 0, key, d),
    ensures
        levels_hold(st.live, st.version, 0, key, d),
{
    lemma_stays_sound(st);
    let p = lemma_place(st.after, st.levels(), key, d);
    let l = p.0;
    let g = st.levels()[l][p.1];
    assert(st.levels()[l].contains(g));
    let q = lemma_held_before(st, l, g, d);
    lemma_held_on_level(st.live, st.version, q.0, q.1, d);
}

/// The newest version of a user key that a reader sees stays the newest.
proof fn lemma_same_newest(st: Step, key: Seq<u8>, at: u64, r: Option<RawEntry>)
    requires
        st.wf(),
        st.serves(at) || all_seen(st.live, st.version, key, at),
        newest_of_levels(st.live, st.version, 0, key, at, r),
    ensures
        newest_of_levels(st.after, st.levels(), 0, key, at, r),
{
    assert forall|d: RawEntry| #[trigger]
        levels_hold(st.after, st.levels(), 0, key, d) implies levels_hold(
        st.live,
        st.version,
        0,
        key,
        d,
    ) by {
        lemma_no_new_versions(st, key, d);
    }
    if r is Some {
        lemma_newest_stays(st, key, at, r->0);
    }
}

/// The keys of files are within their range.
pub proof fn lemma_range(files: Seq<FileView>, i: int)
    requires
        0 <= i < files.len(),
    ensures
        lex_le(min_key(files), files[i].smallest_key),
        lex_le(files[i].largest_key, max_key(files)),
    decreases files.len(),
{
    if files.len() > 1 {
        let t = files.drop_last();
        let last = files.last();
        let m = min_key(t);
        let n = max_key(t);
        if i < t.len() {
            assert(t[i] == files[i]);
            lemma_range(t, i);
            if lex_lt(last.smallest_key, m) {
                lemma_lex_lt_le(last.smallest_key, m, files[i].smallest_key);
            }
            if lex_lt(n, last.largest_key) {
                lemma_lex_le_lt(files[i].largest_key, n, last.largest_key);
            }
        } else {
            lemma_lex_total(m, last.smallest_key);
            lemma_lex_total(n, last.largest_key);
        }
    }
}

/// The largest of files is one of them.
pub proof fn lemma_largest_file(files: Seq<FileView>)
    requires
        files.len() > 0,
    ensures
        files.contains(largest_file(files)),
    decreases files.len(),
{
    if files.len() > 1 {
        let t = files.drop_last();
        lemma_largest_file(t);
        let q = choose|q: int| 0 <= q < t.len() && t[q] == largest_file(t);
        assert(files[q] == largest_file(t));
        assert(files[files.len() - 1] == files.last());
    } else {
        assert(files[0] == largest_file(files));
    }
}

/// The shape of a task: all of level 0 or one file of another level, with what it overlaps on the
/// next.
proof fn lemma_task(c: EngineConfig, v: Seq<Seq<FileView>>, t: TaskView)
    requires
        next_task(c, v, t),
        levels_ordered(v),
    ensures
        t.level + 1 < v.len(),
        t.input_files.len() > 0,
        t.level == 0 ==> t.input_files == v[0],
        t.level > 0 ==> t.input_files.len() == 1,
        forall|i: int|
            0 <= i < t.input_files.len() ==> v[t.level as int].contains(
                #[trigger] t.input_files[i],
            ),
        t.output_level_files == overlapping(
            v[t.level as int + 1],
            first_of_user(min_key(t.input_files)),
            last_of_user(max_key(t.input_files)),
        ),
{
    lemma_picked_level(c.compaction, v);
    assert(level_ordered(v[t.level as int + 1]));
    law_found_overlaps(
        v[t.level as int + 1],
        first_of_user(min_key(t.input_files)),
        last_of_user(max_key(t.input_files)),
    );
    if v[0].len() >= c.compaction.l0_compaction_trigger {
        assert(t.input_files == v[0]);
    } else {
        lemma_largest_file(v[t.level as int]);
        let f = largest_file(v[t.level as int]);
        assert(t.input_files == seq![f]);
        assert(min_key(t.input_files) == f.smallest_key);
        assert(max_key(t.input_files) == f.largest_key);
    }
}

proof fn lemma_overlapping_ordered(files: Seq<FileView>, smallest: Seq<u8>, largest: Seq<u8>)
    requires
        level_ordered(files),
    ensures
        level_ordered(overlapping(files, smallest, largest)),
    decreases files.len(),
{
    if files.len() > 0 {
        let t = files.drop_last();
        let n = t.len() as int;
        let f = files.last();
        assert forall|i: int, j: int| 0 <= i < j < t.len() implies lex_lt(
            (#[trigger] t[i]).largest_key,
            (#[trigger] t[j]).smallest_key,
        ) by {
            assert(t[i] == files[i] && t[j] == files[j]);
        }
        assert forall|i: int| 0 <= i < t.len() implies lex_le(
            (#[trigger] t[i]).smallest_key,
            t[i].largest_key,
        ) by {
            assert(t[i] == files[i]);
        }
        lemma_overlapping_ordered(t, smallest, largest);
        let before = overlapping(t, smallest, largest);
        assert forall|i: int| 0 <= i < before.len() implies lex_lt(
            (#[trigger] before[i]).largest_key,
            f.smallest_key,
        ) by {
            lemma_overlapping_subset(t, smallest, largest, i);
            let q = choose|q: int| 0 <= q < t.len() && t[q] == before[i];
            assert(lex_lt(files[q].largest_key, files[n].smallest_key));
        }
        assert(lex_le(files[n].smallest_key, files[n].largest_key));
    }
}

/// The entries of table files, one by one.
pub proof fn lemma_sources(live: Files, nums: Seq<u64>)
    requires
        sources_of(live, nums) is Ok,
    ensures
        sources_of(live, nums)->Ok_0.len() == nums.len(),
        forall|k: int|
            0 <= k < nums.len() ==> #[trigger] sources_of(live, nums)->Ok_0[k] == source_of(
                live,
                nums[k],
            )->Ok_0,
    decreases nums.len(),
{
    if nums.len() > 0 {
        let t = nums.drop_last();
        lemma_sources(live, t);
        let all = sources_of(live, nums)->Ok_0;
        let before = sources_of(live, t)->Ok_0;
        assert forall|k: int| 0 <= k < nums.len() implies #[trigger] all[k] == source_of(
            live,
            nums[k],
        )->Ok_0 by {
            if k < t.len() {
                assert(all[k] == before[k]);
                assert(t[k] == nums[k]);
            }
        }
    }
}

/// Tells whether the sizes of table files made of entries fit the numbers that they hold them in.
pub open spec fn tables_fit(files: Seq<Seq<RawEntry>>, config: SSTableConfig) -> bool {
    forall|i: int|
        0 <= i < files.len() ==> table_fits(
            blocks_of(#[trigger] files[i], config.block_size as nat),
            Seq::empty(),
        )
}

/// Tells whether a task is the next one on levels in order, and can be carried out.
pub open spec fn sound_task(
    s: EngineView,
    c: EngineConfig,
    t: TaskView,
    watermark: Option<u64>,
    floor: u64,
) -> bool {
    &&& covering_levels(s.live, s.version, floor)
    &&& next_task(c, s.version, t)
    &&& compaction_outcome(s.live, t, watermark, c.compaction, s.next_file_num) is Ok
    &&& tables_fit(
        compaction_outcome(s.live, t, watermark, c.compaction, s.next_file_num)->Ok_0,
        c.compaction.sstable_config,
    )
}

spec fn step_of(
    s: EngineView,
    c: EngineConfig,
    t: TaskView,
    watermark: Option<u64>,
    floor: u64,
) -> Step {
    Step {
        live: s.live,
        after: compacted(s, c, t, watermark).0.live,
        version: s.version,
        level: t.level as int,
        smallest: first_of_user(min_key(t.input_files)),
        largest: last_of_user(max_key(t.input_files)),
        nums: task_nums(t),
        next: s.next_file_num,
        files: compaction_outcome(s.live, t, watermark, c.compaction, s.next_file_num)->Ok_0,
        config: c.compaction.sstable_config,
        watermark,
        floor,
    }
}

/// The files to merge, and what each holds.
proof fn lemma_task_file(s: EngineView, c: EngineConfig, t: TaskView, k: int) -> (p: (int, int))
    requires
        sound_levels(s.live, s.version),
        next_task(c, s.version, t),
        sources_of(s.live, task_nums(t)) is Ok,
        0 <= k < task_nums(t).len(),
    ensures
        p.0 == t.level || p.0 == t.level + 1,
        0 <= p.1 < s.version[p.0].len(),
        s.version[p.0][p.1].file_num == task_nums(t)[k],
        sources_of(s.live, task_nums(t))->Ok_0[k] == held(s.live, s.version[p.0][p.1]),
        k < t.input_files.len() ==> p.0 == t.level && s.version[p.0][p.1] == t.input_files[k],
        k < t.input_files.len() && t.level == 0 ==> p.1 == k,
        k >= t.input_files.len() ==> p.0 == t.level + 1 && s.version[p.0][p.1]
            == t.output_level_files[k - t.input_files.len()],
{
    lemma_task(c, s.version, t);
    lemma_sources(s.live, task_nums(t));
    reveal(held);
    let n = t.input_files.len();
    if k < n {
        let files = s.version[t.level as int];
        assert(task_nums(t)[k] == t.input_files[k].file_num);
        if t.level == 0 {
            (0, k)
        } else {
            let i = choose|i: int| 0 <= i < files.len() && files[i] == t.input_files[k];
            (t.level as int, i)
        }
    } else {
        let j = k - n;
        let files = s.version[t.level as int + 1];
        assert(task_nums(t)[k] == t.output_level_files[j].file_num);
        lemma_overlapping_subset(
            files,
            first_of_user(min_key(t.input_files)),
            last_of_user(max_key(t.input_files)),
            j,
        );
        let i = choose|i: int| 0 <= i < files.len() && files[i] == t.output_level_files[j];
        (t.level as int + 1, i)
    }
}

/// What the files to merge hold is in order, and has one value for each key.
#[verifier::rlimit(40)]
proof fn lemma_task_sound(s: EngineView, c: EngineConfig, t: TaskView)
    requires
        sound_levels(s.live, s.version),
        next_task(c, s.version, t),
        sources_of(s.live, task_nums(t)) is Ok,
    ensures
        sound_sources(sources_of(s.live, task_nums(t))->Ok_0),
{
    let srcs = sources_of(s.live, task_nums(t))->Ok_0;
    let v = s.version;
    lemma_task(c, v, t);
    lemma_sources(s.live, task_nums(t));
    assert forall|k: int| 0 <= k < srcs.len() implies raw_sorted(#[trigger] srcs[k]) && canonical(srcs[k]) by {
        let p = lemma_task_file(s, c, t, k);
        assert(all_sound(s.live, v[p.0]));
        assert(sound_table(s.live, v[p.0][p.1]));
        lemma_held(s.live, v[p.0][p.1]);
    }
    assert forall|i: int, j: int, a: int, b: int|
        0 <= i < srcs.len() && 0 <= j < srcs.len() && 0 <= a < srcs[i].len() && 0 <= b < srcs[j].len()
            && (#[trigger] srcs[i][a]).0 == (#[trigger] srcs[j][b]).0 implies srcs[i][a]
        == srcs[j][b] by {
        let e = srcs[i][a];
        let d = srcs[j][b];
        let p = lemma_task_file(s, c, t, i);
        let q = lemma_task_file(s, c, t, j);
        assert(srcs[i].contains(e) && srcs[j].contains(d));
        assert(file_at_holds(s.live, v, p.0, p.1, e));
        assert(file_at_holds(s.live, v, q.0, q.1, d));
    }
}

/// What a compaction makes: groups of entries in order, as table files hold them, all of them
/// merged, and of each user key the newest.
proof fn lemma_outcome(s: EngineView, c: EngineConfig, t: TaskView, watermark: Option<u64>, floor: u64)
    requires
        sound_task(s, c, t, watermark, floor),
    ensures
        ({
            let srcs = sources_of(s.live, task_nums(t))->Ok_0;
            let files = compaction_outcome(
                s.live,
                t,
                watermark,
                c.compaction,
                s.next_file_num,
            )->Ok_0;
            &&& sources_of(s.live, task_nums(t)) is Ok
            &&& files == merged_files(srcs, watermark, c.compaction)->Ok_0
            &&& sound_sources(srcs)
            &&& raw_sorted(all_of(files))
            &&& cut_between_users(files)
            &&& forall|i: int| 0 <= i < files.len() ==> (#[trigger] files[i]).len() > 0
            &&& forall|i: int| 0 <= i < files.len() ==> canonical(#[trigger] files[i])
            &&& all_of(files) == surviving(joined(srcs), watermark)
            &&& forall|e: RawEntry| #[trigger] all_of(files).contains(e) ==> held_by_some(srcs, e)
        }),
{
    let srcs = sources_of(s.live, task_nums(t))->Ok_0;
    let files = compaction_outcome(s.live, t, watermark, c.compaction, s.next_file_num)->Ok_0;
    lemma_task_sound(s, c, t);
    law_merge_succeeds(srcs, watermark, c.compaction);
    let all = joined(srcs);
    law_merge_sorted(srcs);
    law_surviving_sorted(all, watermark);
    lemma_merged_canonical(srcs);
    let out = surviving(all, watermark);
    assert forall|e: RawEntry| #[trigger] out.contains(e) implies held_by_some(srcs, e) by {
        match watermark {
            Some(w) => {
                law_gc_keeps(all, w, e);
            },
            None => {
                law_newest_keeps(all, e);
            },
        }
    }
    assert forall|i: int| 0 <= i < files.len() implies canonical(#[trigger] files[i]) by {
        let es = files[i];
        assert forall|j: int| 0 <= j < es.len() implies entry_problem(#[trigger] es[j]) is None
            && recoded(es[j]) == es[j] by {
            assert(files[i].contains(es[j]));
            lemma_all_has(files, es[j]);
            let q = choose|q: int| 0 <= q < out.len() && out[q] == es[j];
            assert(entry_problem(out[q]) is None && recoded(out[q]) == out[q]);
        }
    }
}

/// The bytes of a table file after a compaction, where it is not taken out.
proof fn lemma_bytes_after(s: EngineView, c: EngineConfig, t: TaskView, watermark: Option<u64>, floor: u64, num: u64)
    requires
        compaction_outcome(s.live, t, watermark, c.compaction, s.next_file_num) is Ok,
        !task_nums(t).contains(num),
    ensures
        ({
            let st = step_of(s, c, t, watermark, floor);
            let id = FileId::Sst(num);
            if st.next <= num < st.next + st.files.len() {
                st.after.contains_key(id) && st.after[id] == plain_table(
                    st.files[num - st.next],
                    st.config,
                )
            } else {
                s.live.contains_key(id) ==> st.after.contains_key(id) && st.after[id]
                    == s.live[id]
            }
        }),
{
    let st = step_of(s, c, t, watermark, floor);
    let n = st.files.len();
    let live = with_tables(s.live, st.next, st.files, st.config, n);
    lemma_with_table(s.live, st.next, st.files, st.config, n, num);
    lemma_without_table(live, st.nums, num);
}

/// A new number is not that of a file to merge.
proof fn lemma_new_number(s: EngineView, c: EngineConfig, t: TaskView, num: u64)
    requires
        sound_levels(s.live, s.version),
        next_task(c, s.version, t),
        sources_of(s.live, task_nums(t)) is Ok,
        !s.live.contains_key(FileId::Sst(num)),
    ensures
        !task_nums(t).contains(num),
{
    let nums = task_nums(t);
    lemma_task(c, s.version, t);
    if nums.contains(num) {
        let k = choose|k: int| 0 <= k < nums.len() && nums[k] == num;
        let p = lemma_task_file(s, c, t, k);
        let g = s.version[p.0][p.1];
        assert(s.version[p.0].contains(g));
        lemma_on_level(s.live, s.version, p.0, g);
    }
}

/// Where table files are after a compaction.
#[verifier::rlimit(40)]
proof fn lemma_files_fit(s: EngineView, c: EngineConfig, t: TaskView, watermark: Option<u64>, floor: u64)
    requires
        sound_task(s, c, t, watermark, floor),
    ensures
        step_of(s, c, t, watermark, floor).files_fit(),
{
    let st = step_of(s, c, t, watermark, floor);
    lemma_outcome(s, c, t, watermark, floor);
    assert forall|num: u64| #[trigger] st.stays(num) implies st.after.contains_key(FileId::Sst(num))
        && st.after[FileId::Sst(num)] == st.live[FileId::Sst(num)] by {
        lemma_bytes_after(s, c, t, watermark, floor, num);
        if st.next <= num < st.next + st.files.len() {
            assert(!s.live.contains_key(sst_at(st.next, num - st.next)));
        }
    }
    assert forall|i: int| 0 <= i < st.files.len() implies made_of(
        st.after,
        #[trigger] st.made()[i],
        st.files[i],
        st.config,
    ) by {
        let num = (st.next + i) as u64;
        assert(!s.live.contains_key(sst_at(st.next, i)));
        lemma_new_number(s, c, t, num);
        lemma_bytes_after(s, c, t, watermark, floor, num);
        assert(table_fits(blocks_of(st.files[i], st.config.block_size as nat), Seq::empty()));
        let es = st.files[i];
        assert forall|a: int, b: int| 0 <= a < b < es.len() implies lex_lt(
            (#[trigger] es[a]).0,
            (#[trigger] es[b]).0,
        ) by {
            lemma_group_sorted(st.files, i, a, b);
        }
    }
}

/// A group of entries in order is in order.
proof fn lemma_group_sorted(groups: Seq<Seq<RawEntry>>, i: int, a: int, b: int)
    requires
        raw_sorted(all_of(groups)),
        0 <= i < groups.len(),
        0 <= a < b < groups[i].len(),
    ensures
        lex_lt(groups[i][a].0, groups[i][b].0),
    decreases groups.len(),
{
    let t = groups.drop_last();
    let n = t.len() as int;
    let front = all_of(t);
    let all = all_of(groups);
    assert(all == front + groups[n]);
    if i == n {
        assert(all[front.len() + a] == groups[n][a]);
        assert(all[front.len() + b] == groups[n][b]);
        assert(lex_lt(all[front.len() + a].0, all[front.len() + b].0));
    } else {
        assert forall|x: int, y: int| 0 <= x < y < front.len() implies lex_lt(
            (#[trigger] front[x]).0,
            (#[trigger] front[y]).0,
        ) by {
            assert(all[x] == front[x] && all[y] == front[y]);
        }
        assert(t[i] == groups[i]);
        lemma_group_sorted(t, i, a, b);
    }
}

/// A file to merge is one of those that the numbers name.
proof fn lemma_task_source(s: EngineView, c: EngineConfig, t: TaskView, watermark: Option<u64>, floor: u64, k: int) -> (f: FileView)
    requires
        sound_levels(s.live, s.version),
        next_task(c, s.version, t),
        sources_of(s.live, task_nums(t)) is Ok,
        0 <= k < task_nums(t).len(),
    ensures
        step_of(s, c, t, watermark, floor).source(f),
        f.file_num == task_nums(t)[k],
        sources_of(s.live, task_nums(t))->Ok_0[k] == held(s.live, f),
{
    let st = step_of(s, c, t, watermark, floor);
    lemma_task(c, s.version, t);
    let p = lemma_task_file(s, c, t, k);
    let f = s.version[p.0][p.1];
    assert(s.version[p.0].contains(f));
    if k < t.input_files.len() {
        let (a, b) = (min_key(t.input_files), max_key(t.input_files));
        lemma_range(t.input_files, k);
        lemma_of_user(a);
        lemma_of_user(b);
        if first_of_user(a) != a {
            lemma_lex_lt_le(first_of_user(a), a, f.smallest_key);
        }
        if f.largest_key != b {
            lemma_lex_lt_le(f.largest_key, b, last_of_user(b));
        }
    } else {
        assert(st.outputs()[k - t.input_files.len()] == f);
        assert(st.outputs().contains(f));
    }
    f
}

proof fn lemma_sources_fit(s: EngineView, c: EngineConfig, t: TaskView, watermark: Option<u64>, floor: u64)
    requires
        sound_levels(s.live, s.version),
        next_task(c, s.version, t),
        sources_of(s.live, task_nums(t)) is Ok,
    ensures
        step_of(s, c, t, watermark, floor).sources_fit(),
{
    let st = step_of(s, c, t, watermark, floor);
    let n = t.input_files.len();
    lemma_task(c, s.version, t);
    assert forall|i: int| 0 <= i < st.outputs().len() implies st.nums.contains(
        (#[trigger] st.outputs()[i]).file_num,
    ) by {
        assert(st.nums[n + i] == st.outputs()[i].file_num);
    }
    assert forall|num: u64| #[trigger] st.nums.contains(num) implies st.names_source(num) by {
        let k = choose|k: int| 0 <= k < st.nums.len() && st.nums[k] == num;
        let f = lemma_task_source(s, c, t, watermark, floor, k);
    }
    if t.level == 0 {
        assert forall|i: int| 0 <= i < s.version[0].len() implies st.nums.contains(
            (#[trigger] s.version[0][i]).file_num,
        ) by {
            assert(st.nums[i] == s.version[0][i].file_num);
        }
    }
}

/// An entry is merged where one of the files to merge holds it.
proof fn lemma_sourced_by(s: EngineView, c: EngineConfig, t: TaskView, watermark: Option<u64>, floor: u64, e: RawEntry)
    requires
        sound_levels(s.live, s.version),
        next_task(c, s.version, t),
        sources_of(s.live, task_nums(t)) is Ok,
    ensures
        step_of(s, c, t, watermark, floor).sourced(e) == held_by_some(
            sources_of(s.live, task_nums(t))->Ok_0,
            e,
        ),
{
    let st = step_of(s, c, t, watermark, floor);
    let srcs = sources_of(s.live, task_nums(t))->Ok_0;
    lemma_sources(s.live, task_nums(t));
    if st.sourced(e) {
        let f = choose|f: FileView| #[trigger]
            st.source(f) && st.nums.contains(f.file_num) && held(st.live, f).contains(e);
        let k = choose|k: int| 0 <= k < st.nums.len() && st.nums[k] == f.file_num;
        assert(srcs[k] == held(s.live, f)) by {
            reveal(held);
        }
        assert(srcs[k].contains(e));
    }
    if held_by_some(srcs, e) {
        let k = choose|k: int| 0 <= k < srcs.len() && (#[trigger] srcs[k]).contains(e);
        let f = lemma_task_source(s, c, t, watermark, floor, k);
        assert(st.nums[k] == f.file_num);
        assert(st.nums.contains(f.file_num));
    }
}

/// The newest version of a user key among those merged that a reader sees is made.
proof fn lemma_newest_made(
    s: EngineView,
    c: EngineConfig,
    t: TaskView,
    watermark: Option<u64>,
    floor: u64,
    e: RawEntry,
    at: u64,
)
    requires
        sound_task(s, c, t, watermark, floor),
        step_of(s, c, t, watermark, floor).newest_sourced(e, at),
        step_of(s, c, t, watermark, floor).serves(at),
    ensures
        step_of(s, c, t, watermark, floor).made_holds(e),
{
    let st = step_of(s, c, t, watermark, floor);
    let srcs = sources_of(s.live, task_nums(t))->Ok_0;
    let key = user_of(e.0);
    lemma_outcome(s, c, t, watermark, floor);
    let all = merged(srcs);
    lemma_sourced_by(s, c, t, watermark, floor, e);
    law_merge_has_all(srcs, e);
    assert forall|i: int| 0 <= i < all.len() && visible(#[trigger] all[i], key, at) implies seq_of(
        all[i].0,
    ) <= seq_of(e.0) by {
        assert(all.contains(all[i]));
        law_merge_has_all(srcs, all[i]);
        lemma_sourced_by(s, c, t, watermark, floor, all[i]);
        assert(st.sourced(all[i]));
    }
    assert(reads(all, key, at, Some(e)));
    match watermark {
        Some(w) => {
            law_compaction_keeps_reads(srcs, w, c.compaction, key, at, Some(e));
        },
        None => {
            law_compaction_keeps_latest(srcs, c.compaction, key, Some(e));
        },
    }
    assert(all_of(st.files).contains(e));
    lemma_all_has(st.files, e);
}

/// What a reader of a user key at a sequence number gets from entries.
proof fn lemma_some_read(es: Seq<RawEntry>, key: Seq<u8>, at: u64) -> (r: Option<RawEntry>)
    ensures
        reads(es, key, at, r),
    decreases es.len(),
{
    if es.len() == 0 {
        None
    } else {
        let t = es.drop_last();
        let x = es.last();
        let r = lemma_some_read(t, key, at);
        assert(es[es.len() - 1] == x);
        assert forall|i: int| 0 <= i < t.len() implies #[trigger] es[i] == t[i] by {}
        let best = if visible(x, key, at) && (r is None || seq_of((r->0).0) <= seq_of(x.0)) {
            Some(x)
        } else {
            r
        };
        if let Some(e) = r {
            let p = choose|p: int| 0 <= p < t.len() && t[p] == e;
            assert(es[p] == e);
        }
        assert forall|i: int| 0 <= i < es.len() && visible(#[trigger] es[i], key, at) implies best is Some
            && seq_of(es[i].0) <= seq_of((best->0).0) by {
            if i < t.len() {
                assert(visible(t[i], key, at));
            }
        }
        best
    }
}

/// Of two versions of a user key of which the older stays, the newer stays or one above it that
/// readers from the watermark on see.
proof fn lemma_merge_answers(
    s: EngineView,
    c: EngineConfig,
    t: TaskView,
    watermark: Option<u64>,
    floor: u64,
    e: RawEntry,
    d: RawEntry,
)
    requires
        sound_task(s, c, t, watermark, floor),
        step_of(s, c, t, watermark, floor).made_holds(e),
        step_of(s, c, t, watermark, floor).sourced(d),
        user_of(e.0) == user_of(d.0),
        seq_of(e.0) < seq_of(d.0),
    ensures
        step_of(s, c, t, watermark, floor).made_answers(d),
{
    let st = step_of(s, c, t, watermark, floor);
    let srcs = sources_of(s.live, task_nums(t))->Ok_0;
    lemma_outcome(s, c, t, watermark, floor);
    lemma_sourced_by(s, c, t, watermark, floor, d);
    law_merge_sorted(srcs);
    lemma_merged_canonical(srcs);
    let all = joined(srcs);
    let out = surviving(all, watermark);
    lemma_all_has(st.files, e);
    assert(out.contains(e));
    assert(all.contains(d));
    let q = choose|q: int| 0 <= q < all.len() && all[q] == d;
    match watermark {
        Some(w) => {
            law_gc_keeps(all, w, d);
            if out.contains(d) {
                lemma_all_has(st.files, d);
                assert(st.made_holds(d));
            } else {
                let key = user_of(d.0);
                let r = lemma_some_read(all, key, w);
                assert(visible(all[q], key, w));
                let x = r->0;
                assert(newest_below(all, w, x));
                law_gc_keeps(all, w, x);
                lemma_all_has(st.files, x);
                assert(st.made_holds(x));
            }
        },
        None => {
            law_newest_keeps(all, e);
            assert(visible(all[q], user_of(e.0), u64::MAX));
        },
    }
}

/// The smallest and the largest key are those of files.
proof fn lemma_range_of(files: Seq<FileView>) -> (p: (int, int))
    requires
        files.len() > 0,
    ensures
        0 <= p.0 < files.len(),
        0 <= p.1 < files.len(),
        min_key(files) == files[p.0].smallest_key,
        max_key(files) == files[p.1].largest_key,
    decreases files.len(),
{
    if files.len() == 1 {
        (0, 0)
    } else {
        let t = files.drop_last();
        let p = lemma_range_of(t);
        let n = files.len() - 1;
        (
            if lex_lt(files.last().smallest_key, min_key(t)) {
                n
            } else {
                p.0
            },
            if lex_lt(max_key(t), files.last().largest_key) {
                n
            } else {
                p.1
            },
        )
    }
}

proof fn lemma_range_fits(s: EngineView, c: EngineConfig, t: TaskView, watermark: Option<u64>, floor: u64)
    requires
        sound_levels(s.live, s.version),
        next_task(c, s.version, t),
    ensures
        step_of(s, c, t, watermark, floor).range_fits(),
{
    lemma_task(c, s.version, t);
    let p = lemma_range_of(t.input_files);
    let l = t.level as int;
    assert(s.version[l].contains(t.input_files[p.0]));
    assert(s.version[l].contains(t.input_files[p.1]));
    lemma_on_level(s.live, s.version, l, t.input_files[p.0]);
    lemma_on_level(s.live, s.version, l, t.input_files[p.1]);
    lemma_ends(s.live, t.input_files[p.0]);
    lemma_ends(s.live, t.input_files[p.1]);
    law_key_round_trip((user_part(min_key(t.input_files)), u64::MAX));
    law_key_round_trip((user_part(max_key(t.input_files)), 0));
}

proof fn lemma_step(s: EngineView, c: EngineConfig, t: TaskView, watermark: Option<u64>, floor: u64)
    requires
        sound_task(s, c, t, watermark, floor),
    ensures
        step_of(s, c, t, watermark, floor).wf(),
        compacted(s, c, t, watermark).0.version == step_of(s, c, t, watermark, floor).levels(),
{
    let st = step_of(s, c, t, watermark, floor);
    lemma_outcome(s, c, t, watermark, floor);
    lemma_files_fit(s, c, t, watermark, floor);
    lemma_sources_fit(s, c, t, watermark, floor);
    lemma_range_fits(s, c, t, watermark, floor);
    assert forall|e: RawEntry| #[trigger] st.made_holds(e) implies st.sourced(e) by {
        lemma_all_has(st.files, e);
        lemma_sourced_by(s, c, t, watermark, floor, e);
        assert(all_of(st.files).contains(e));
    }
    assert forall|e: RawEntry, at: u64| #[trigger]
        st.newest_sourced(e, at) && st.serves(at) implies st.made_holds(e) by {
        lemma_newest_made(s, c, t, watermark, floor, e, at);
    }
    assert forall|e: RawEntry, d: RawEntry|
        #![trigger st.made_holds(e), st.sourced(d)]
        st.made_holds(e) && st.sourced(d) && user_of(e.0) == user_of(d.0) && seq_of(e.0) < seq_of(
            d.0,
        ) implies st.made_answers(d) by {
        lemma_merge_answers(s, c, t, watermark, floor, e, d);
    }
}

/// Where each table file can be read, all can.
pub proof fn lemma_sources_read(live: Files, nums: Seq<u64>)
    requires
        forall|k: int| 0 <= k < nums.len() ==> source_of(live, #[trigger] nums[k]) is Ok,
    ensures
        sources_of(live, nums) is Ok,
    decreases nums.len(),
{
    if nums.len() > 0 {
        let t = nums.drop_last();
        assert forall|k: int| 0 <= k < t.len() implies source_of(live, #[trigger] t[k]) is Ok by {
            assert(t[k] == nums[k]);
        }
        lemma_sources_read(live, t);
        assert(source_of(live, nums[nums.len() - 1]) is Ok);
    }
}

/// A compaction of sound levels succeeds, where there are file numbers left for what it makes.
pub proof fn law_compaction_succeeds(
    s: EngineView,
    c: EngineConfig,
    t: TaskView,
    watermark: Option<u64>,
)
    requires
        sound_levels(s.live, s.version),
        next_task(c, s.version, t),
        ({
            let srcs = sources_of(s.live, task_nums(t))->Ok_0;
            let files = merged_files(srcs, watermark, c.compaction)->Ok_0;
            &&& s.next_file_num + files.len() <= u64::MAX
            &&& numbers_free(s.live, s.next_file_num, files.len())
        }),
    ensures
        compaction_outcome(s.live, t, watermark, c.compaction, s.next_file_num) is Ok,
        compacted(s, c, t, watermark).1 is None,
{
    let nums = task_nums(t);
    let n = t.input_files.len();
    lemma_task(c, s.version, t);
    assert forall|k: int| 0 <= k < nums.len() implies source_of(s.live, #[trigger] nums[k]) is Ok by {
        let (l, f) = if k < n {
            (t.level as int, t.input_files[k])
        } else {
            lemma_overlapping_subset(
                s.version[t.level as int + 1],
                first_of_user(min_key(t.input_files)),
                last_of_user(max_key(t.input_files)),
                k - n,
            );
            (t.level as int + 1, t.output_level_files[k - n])
        };
        assert(s.version[l].contains(f));
        assert(nums[k] == f.file_num);
        lemma_on_level(s.live, s.version, l, f);
        lemma_held(s.live, f);
    }
    lemma_sources_read(s.live, nums);
    lemma_task_sound(s, c, t);
    law_merge_succeeds(sources_of(s.live, nums)->Ok_0, watermark, c.compaction);
}

/// A compaction adds no version: each that the table files hold afterwards, they held before.
pub proof fn law_compaction_adds_nothing(
    s: EngineView,
    c: EngineConfig,
    t: TaskView,
    watermark: Option<u64>,
    floor: u64,
    key: Seq<u8>,
    d: RawEntry,
)
    requires
        sound_task(s, c, t, watermark, floor),
        levels_hold(
            compacted(s, c, t, watermark).0.live,
            compacted(s, c, t, watermark).0.version,
            0,
            key,
            d,
        ),
    ensures
        levels_hold(s.live, s.version, 0, key, d),
{
    lemma_step(s, c, t, watermark, floor);
    lemma_no_new_versions(step_of(s, c, t, watermark, floor), key, d);
}

/// A compaction leaves levels in order: for all readers for whom they were without a watermark, and
/// for those of them that are not below it with one.
pub proof fn law_compaction_keeps_levels(
    s: EngineView,
    c: EngineConfig,
    t: TaskView,
    watermark: Option<u64>,
    floor: u64,
)
    requires
        sound_task(s, c, t, watermark, floor),
    ensures
        covering_levels(
            compacted(s, c, t, watermark).0.live,
            compacted(s, c, t, watermark).0.version,
            higher(floor, watermark),
        ),
{
    lemma_step(s, c, t, watermark, floor);
    lemma_stays_sound(step_of(s, c, t, watermark, floor));
}

/// A reader that sees all versions of a user key sees all that are left.
proof fn lemma_still_seen(st: Step, key: Seq<u8>, at: u64)
    requires
        st.wf(),
        all_seen(st.live, st.version, key, at),
    ensures
        all_seen(st.after, st.levels(), key, at),
{
    let v = st.levels();
    assert forall|l: int, i: int| 0 <= l < v.len() && 0 <= i < v[l].len() implies file_seen(
        st.after,
        #[trigger] v[l][i],
        key,
        at,
    ) by {
        assert forall|d: RawEntry| #[trigger] holds(st.after, v[l][i], key, d) implies seq_of(d.0)
            <= at by {
            assert(v[l].contains(v[l][i]));
            lemma_came(st, l, v[l][i]);
            let p = lemma_held_before(st, l, v[l][i], d);
            let was = st.version;
            let a = choose|a: int| 0 <= a < was[p.0].len() && was[p.0][a] == p.1;
            assert(file_seen(st.live, was[p.0][a], key, at));
            assert(holds(st.live, was[p.0][a], key, d));
        }
    }
}

proof fn lemma_compacted_reads(
    s: EngineView,
    c: EngineConfig,
    t: TaskView,
    watermark: Option<u64>,
    floor: u64,
    key: Seq<u8>,
    at: u64,
)
    requires
        sound_task(s, c, t, watermark, floor),
        (at >= floor && step_of(s, c, t, watermark, floor).serves(at)) || all_seen(
            s.live,
            s.version,
            key,
            at,
        ),
    ensures
        read_state(compacted(s, c, t, watermark).0, key, at) == read_state(s, key, at),
{
    let st = step_of(s, c, t, watermark, floor);
    let b = compacted(s, c, t, watermark).0;
    lemma_step(s, c, t, watermark, floor);
    lemma_stays_sound(st);
    if all_seen(s.live, s.version, key, at) {
        lemma_still_seen(st, key, at);
    }
    assert(memory_lookup(b, key, at) == memory_lookup(s, key, at));
    if memory_lookup(s, key, at) is None {
        let r = lemma_tables_read(s.live, s.version, key, at, floor);
        lemma_same_newest(st, key, at, r);
        law_tables_give_newest(s, key, at, floor, r);
        law_tables_give_newest(b, key, at, st.new_floor(), r);
    }
}

/// A compaction does not change what a reader that sees all versions of a user key reads.
pub proof fn law_compaction_keeps_engine_reads(
    s: EngineView,
    c: EngineConfig,
    t: TaskView,
    watermark: Option<u64>,
    floor: u64,
    key: Seq<u8>,
    at: u64,
)
    requires
        sound_task(s, c, t, watermark, floor),
        all_seen(s.live, s.version, key, at),
    ensures
        read_state(compacted(s, c, t, watermark).0, key, at) == read_state(s, key, at),
        all_seen(
            compacted(s, c, t, watermark).0.live,
            compacted(s, c, t, watermark).0.version,
            key,
            at,
        ),
{
    lemma_step(s, c, t, watermark, floor);
    lemma_still_seen(step_of(s, c, t, watermark, floor), key, at);
    lemma_compacted_reads(s, c, t, watermark, floor, key, at);
}

/// A compaction with a watermark does not change what a reader at or above it reads.
pub proof fn law_compaction_keeps_snapshot_reads(
    s: EngineView,
    c: EngineConfig,
    t: TaskView,
    watermark: u64,
    floor: u64,
    key: Seq<u8>,
    at: u64,
)
    requires
        sound_task(s, c, t, Some(watermark), floor),
        at >= watermark,
        at >= floor,
    ensures
        read_state(compacted(s, c, t, Some(watermark)).0, key, at) == read_state(s, key, at),
{
    lemma_compacted_reads(s, c, t, Some(watermark), floor, key, at);
}

/// Levels without files are in order.
pub proof fn law_empty_levels(live: Files, v: Seq<Seq<FileView>>)
    requires
        v.len() > 0,
        forall|l: int| 0 <= l < v.len() ==> (#[trigger] v[l]).len() == 0,
    ensures
        covering_levels(live, v, 0),
{
}

/// Tells whether a memtable holds what an entry of a table file says.
pub open spec fn has_version(m: Versions, d: RawEntry) -> bool {
    let k = (user_of(d.0), seq_of(d.0));
    m.contains_key(k) && d == raw_entry((k, m[k]))
}

/// Tells whether a memtable comes before a file for a reader: each version in the file is older
/// than each of the same user key in the memtable, or the memtable holds it too.
pub open spec fn memtable_covers(live: Files, m: Versions, f: FileView) -> bool {
    forall|k: KeyView, d: RawEntry|
        #![trigger m.contains_key(k), held(live, f).contains(d)]
        m.contains_key(k) && held(live, f).contains(d) && user_of(d.0) == k.0 ==> k.1 > seq_of(d.0)
            || has_version(m, d)
}

/// Tells whether a memtable comes before the table files for a reader.
pub open spec fn covers_levels(live: Files, m: Versions, v: Seq<Seq<FileView>>) -> bool {
    forall|l: int, i: int|
        0 <= l < v.len() && 0 <= i < v[l].len() ==> memtable_covers(live, m, #[trigger] v[l][i])
}

/// What is written of a memtable is as a table file holds it.
proof fn lemma_written_canonical(es: Entries)
    ensures
        canonical(raw_entries(es)),
{
    let raw = raw_entries(es);
    assert forall|i: int| 0 <= i < raw.len() implies entry_problem(#[trigger] raw[i]) is None
        && recoded(raw[i]) == raw[i] by {
        law_key_round_trip(es[i].0);
        law_value_round_trip(es[i].1);
    }
}

/// A file that a memtable was written to comes before those that the memtable comes before.
proof fn lemma_written_covers(
    before: Files,
    after: Files,
    es: Entries,
    m: Versions,
    f: FileView,
    g: FileView,
    floor: u64,
)
    requires
        entries_list(es, m),
        memtable_covers(before, m, g),
        held(after, f) == raw_entries(es),
        held(after, g) == held(before, g),
    ensures
        covers(after, f, g, floor),
        forall|e: RawEntry, d: RawEntry|
            #![trigger held(after, f).contains(e), held(after, g).contains(d)]
            held(after, f).contains(e) && held(after, g).contains(d) && e.0 == d.0 ==> e == d,
{
    let raw = raw_entries(es);
    assert forall|e: RawEntry, d: RawEntry|
        #![trigger held(after, f).contains(e), held(after, g).contains(d)]
        held(after, f).contains(e) && held(after, g).contains(d) && user_of(e.0) == user_of(
            d.0,
        ) implies (seq_of(e.0) < seq_of(d.0) ==> answers(after, f, d, floor)) && (e.0 == d.0 ==> e
        == d) by {
        let q = choose|q: int| 0 <= q < raw.len() && raw[q] == e;
        law_key_round_trip(es[q].0);
        assert(m.contains_key(es[q].0));
        assert(m[es[q].0] == es[q].1);
        assert(held(before, g).contains(d));
        if has_version(m, d) {
            let k = (user_of(d.0), seq_of(d.0));
            let p = choose|p: int| 0 <= p < es.len() && (#[trigger] es[p]).0 == k;
            assert(m[es[p].0] == es[p].1);
            assert(raw[p] == d);
            assert(held(after, f).contains(d));
        }
    }
}

/// Tells whether entries of two files with the same key are the same.
spec fn files_agree(live: Files, f: FileView, g: FileView) -> bool {
    forall|e: RawEntry, d: RawEntry|
        #![trigger held(live, f).contains(e), held(live, g).contains(d)]
        held(live, f).contains(e) && held(live, g).contains(d) && e.0 == d.0 ==> e == d
}

/// Levels in which the files are there as before, with a file added to level 0 that comes before
/// all of them.
proof fn lemma_added(before: Files, after: Files, v: Seq<Seq<FileView>>, f: FileView, floor: u64)
    requires
        covering_levels(before, v, floor),
        forall|l: int, i: int|
            0 <= l < v.len() && 0 <= i < v[l].len() ==> {
                &&& sound_table(after, #[trigger] v[l][i])
                &&& held(after, v[l][i]) == held(before, v[l][i])
                &&& covers(after, f, v[l][i], floor)
                &&& files_agree(after, f, v[l][i])
                &&& v[l][i].file_num != f.file_num
            },
        sound_table(after, f),
    ensures
        covering_levels(after, v.update(0, v[0].push(f)), floor),
{
    let w = v.update(0, v[0].push(f));
    let n = v[0].len() as int;
    assert forall|l: int| 1 <= l < w.len() implies level_ordered(#[trigger] w[l]) by {
        assert(level_ordered(v[l]));
    }
    assert forall|i: int, j: int| 0 <= i < j < w[0].len() implies covers(
        after,
        #[trigger] w[0][j],
        #[trigger] w[0][i],
        floor,
    ) by {
        assert(w[0][i] == v[0][i]);
        if j < n {
            assert(w[0][j] == v[0][j]);
            assert(covers(before, v[0][j], v[0][i], floor));
            assert(held(after, v[0][j]) == held(before, v[0][j]));
            assert(held(after, v[0][i]) == held(before, v[0][i]));
            lemma_same_covers(before, after, v[0][j], v[0][i], floor);
        } else {
            assert(covers(after, f, v[0][i], floor));
        }
    }
    assert forall|l: int| 0 <= l < w.len() implies all_sound(after, #[trigger] w[l]) by {
        let files = w[l];
        assert forall|i: int| 0 <= i < files.len() implies sound_table(after, #[trigger] files[i]) by {
            if l > 0 || i < n {
                assert(files[i] == v[l][i]);
            }
        }
    }
    assert forall|l: int, m: int| 0 <= l < m < w.len() implies all_cover(
        after,
        #[trigger] w[l],
        #[trigger] w[m],
        floor,
    ) && numbers_apart(w[l], w[m]) by {
        let a = w[l];
        let b = w[m];
        assert(all_cover(before, v[l], v[m], floor) && numbers_apart(v[l], v[m]));
        assert forall|i: int, j: int| 0 <= i < a.len() && 0 <= j < b.len() implies covers(
            after,
            #[trigger] a[i],
            #[trigger] b[j],
            floor,
        ) && a[i].file_num != b[j].file_num by {
            assert(b[j] == v[m][j]);
            if l > 0 || i < n {
                assert(a[i] == v[l][i]);
                assert(covers(before, v[l][i], v[m][j], floor));
                lemma_same_covers(before, after, v[l][i], v[m][j], floor);
                assert(v[l][i].file_num != v[m][j].file_num);
            } else {
                assert(covers(after, f, v[m][j], floor));
            }
        }
    }
    assert forall|l: int, i: int, e: RawEntry, m: int, j: int, d: RawEntry|
        #![trigger file_at_holds(after, w, l, i, e), file_at_holds(after, w, m, j, d)]
        file_at_holds(after, w, l, i, e) && file_at_holds(after, w, m, j, d) && e.0
            == d.0 implies e == d by {
        let new_e = l == 0 && i == n;
        let new_d = m == 0 && j == n;
        if !new_e {
            assert(w[l][i] == v[l][i]);
            assert(sound_table(after, v[l][i]));
            assert(file_at_holds(before, v, l, i, e));
        }
        if !new_d {
            assert(w[m][j] == v[m][j]);
            assert(sound_table(after, v[m][j]));
            assert(file_at_holds(before, v, m, j, d));
        }
        if new_e && new_d {
            lemma_one_in_file(after, f, e, d);
        } else if new_e {
            assert(files_agree(after, f, v[m][j]));
        } else if new_d {
            assert(files_agree(after, f, v[l][i]));
        }
    }
}

/// Flushing the oldest memtable set aside adds to the table files what the memtable held, and
/// nothing else.
pub proof fn law_flush_adds_memtable(s: EngineView, c: EngineConfig, es: Entries, l: int, i: int, d: RawEntry)
    requires
        sound_levels(s.live, s.version),
        s.immutables.len() > 0,
        entries_sorted(es),
        entries_list(es, s.immutables[0]),
        flush_fits(s.immutables[0], c),
        file_at_holds(flushed_one(s, c).0.live, flushed_one(s, c).0.version, l, i, d),
    ensures
        levels_hold(s.live, s.version, 0, user_of(d.0), d) || raw_entries(es).contains(d),
{
    let b = flushed_one(s, c).0;
    let v = s.version;
    let num = s.next_file_num;
    let sc = c.compaction.sstable_config;
    let g = b.version[l][i];
    lemma_entries_of(es, s.immutables[0]);
    let raw = raw_entries(es);
    law_versions_sorted(es);
    if v[l].contains(g) {
        lemma_on_level(s.live, v, l, g);
        lemma_same_bytes(s.live, b.live, g);
        lemma_held_on_level(s.live, v, l, g, d);
    } else {
        if i < v[l].len() {
            assert(v[l][i] == g);
        }
        let f = made_file(num, raw, sc);
        assert(g == f);
        lemma_written_canonical(es);
        assert(made_of(b.live, f, raw, sc));
        lemma_made_of(b.live, f, raw, sc);
    }
}

/// Flushing the oldest memtable set aside leaves levels in order for the readers for whom they were,
/// where the memtable comes before the table files.
#[verifier::rlimit(40)]
pub proof fn law_flush_keeps_levels(s: EngineView, c: EngineConfig, es: Entries, floor: u64)
    requires
        covering_levels(s.live, s.version, floor),
        s.immutables.len() > 0,
        entries_sorted(es),
        entries_list(es, s.immutables[0]),
        flush_fits(s.immutables[0], c),
        covers_levels(s.live, s.immutables[0], s.version),
    ensures
        covering_levels(flushed_one(s, c).0.live, flushed_one(s, c).0.version, floor),
{
    let m = s.immutables[0];
    let b = flushed_one(s, c).0;
    let v = s.version;
    let num = s.next_file_num;
    let sc = c.compaction.sstable_config;
    if flushed_one(s, c).1 is None {
        lemma_entries_of(es, m);
        let raw = raw_entries(es);
        law_versions_sorted(es);
        assert forall|l: int, i: int| 0 <= l < v.len() && 0 <= i < v[l].len() implies sound_table(
            b.live,
            #[trigger] v[l][i],
        ) && held(b.live, v[l][i]) == held(s.live, v[l][i]) && v[l][i].file_num != num by {
            assert(v[l].contains(v[l][i]));
            lemma_on_level(s.live, v, l, v[l][i]);
            lemma_same_bytes(s.live, b.live, v[l][i]);
        }
        if raw.len() == 0 {
            lemma_unchanged(s.live, b.live, v, floor);
        } else {
            let f = made_file(num, raw, sc);
            lemma_written_canonical(es);
            assert(made_of(b.live, f, raw, sc));
            lemma_made_of(b.live, f, raw, sc);
            assert(sound_table(b.live, f)) by {
                reveal(sound_table);
            }
            assert forall|l: int, i: int| 0 <= l < v.len() && 0 <= i < v[l].len() implies covers(
                b.live,
                f,
                #[trigger] v[l][i],
                floor,
            ) && files_agree(b.live, f, v[l][i]) by {
                lemma_written_covers(s.live, b.live, es, m, f, v[l][i], floor);
            }
            lemma_added(s.live, b.live, v, f, floor);
        }
    }
}

/// Levels of which the files are there as before.
pub proof fn lemma_unchanged(before: Files, after: Files, v: Seq<Seq<FileView>>, floor: u64)
    requires
        covering_levels(before, v, floor),
        forall|l: int, i: int|
            0 <= l < v.len() && 0 <= i < v[l].len() ==> {
                &&& sound_table(after, #[trigger] v[l][i])
                &&& held(after, v[l][i]) == held(before, v[l][i])
            },
    ensures
        covering_levels(after, v, floor),
{
    assert forall|l: int| 0 <= l < v.len() implies all_sound(after, #[trigger] v[l]) by {
        let files = v[l];
        assert forall|i: int| 0 <= i < files.len() implies sound_table(after, #[trigger] files[i]) by {
            assert(sound_table(after, v[l][i]));
        }
    }
    assert forall|i: int, j: int| 0 <= i < j < v[0].len() implies covers(
        after,
        #[trigger] v[0][j],
        #[trigger] v[0][i],
        floor,
    ) by {
        assert(covers(before, v[0][j], v[0][i], floor));
        lemma_same_covers(before, after, v[0][j], v[0][i], floor);
    }
    assert forall|l: int, m: int| 0 <= l < m < v.len() implies all_cover(
        after,
        #[trigger] v[l],
        #[trigger] v[m],
        floor,
    ) by {
        assert(all_cover(before, v[l], v[m], floor));
        let a = v[l];
        let b = v[m];
        assert forall|i: int, j: int| 0 <= i < a.len() && 0 <= j < b.len() implies covers(
            after,
            #[trigger] a[i],
            #[trigger] b[j],
            floor,
        ) by {
            assert(covers(before, v[l][i], v[m][j], floor));
            lemma_same_covers(before, after, v[l][i], v[m][j], floor);
        }
    }
    assert forall|l: int, i: int, e: RawEntry, m: int, j: int, d: RawEntry|
        #![trigger file_at_holds(after, v, l, i, e), file_at_holds(after, v, m, j, d)]
        file_at_holds(after, v, l, i, e) && file_at_holds(after, v, m, j, d) && e.0
            == d.0 implies e == d by {
        assert(sound_table(after, v[l][i]) && sound_table(after, v[m][j]));
        assert(file_at_holds(before, v, l, i, e) && file_at_holds(before, v, m, j, d));
    }
}

/// Files that hold the same come before each other as they did.
proof fn lemma_same_covers(before: Files, after: Files, f: FileView, g: FileView, floor: u64)
    requires
        covers(before, f, g, floor),
        held(after, f) == held(before, f),
        held(after, g) == held(before, g),
    ensures
        covers(after, f, g, floor),
{
    assert forall|e: RawEntry, d: RawEntry|
        #![trigger held(after, f).contains(e), held(after, g).contains(d)]
        held(after, f).contains(e) && held(after, g).contains(d) && user_of(e.0) == user_of(d.0)
            && seq_of(e.0) < seq_of(d.0) implies answers(after, f, d, floor) by {
        assert(held(before, f).contains(e) && held(before, g).contains(d));
        lemma_answers_on(before, after, f, d, floor, floor);
    }
}

} // verus!
