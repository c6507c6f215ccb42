//! Scanning a range of keys at a snapshot.
//!
//! The sources are memtables and table files. Their versions are merged by user key and, for one
//! user key, newest first. Of each user key the newest version at or before the snapshot counts;
//! a delete hides the key.

use crate::block::{raw_view, RawEntry};
use crate::codec::{
    bytes_eq, bytes_le, bytes_lt, copy_bytes, lemma_lex_irreflexive, lemma_lex_total,
    lemma_lex_transitive, lex_le, lex_lt,
};
use crate::memtable::{
    entries_sorted, entries_view, key_lt, lemma_key_asymmetric, lemma_key_irreflexive,
    lemma_key_transitive, Entries, InternalKey, KeyView, MemtableValue, ValueView,
};
use crate::sstable::{decode_internal_key, decode_value, key_of_bytes, value_of_bytes};
use vstd::prelude::*;

verus! {

/// One end of a range of keys.
#[derive(Debug, Clone)]
pub enum KeyBound {
    /// The key and what lies inside.
    Included(Vec<u8>),
    /// What lies inside, without the key.
    Excluded(Vec<u8>),
    /// No end.
    Unbounded,
}

/// One end of a range of keys, in the mathematical model.
pub enum BoundView {
    Included(Seq<u8>),
    Excluded(Seq<u8>),
    Unbounded,
}

impl View for KeyBound {
    type V = BoundView;

    open spec fn view(&self) -> BoundView {
        match self {
            KeyBound::Included(k) => BoundView::Included(k@),
            KeyBound::Excluded(k) => BoundView::Excluded(k@),
            KeyBound::Unbounded => BoundView::Unbounded,
        }
    }
}

/// Tells whether a key is not before the start of a range.
pub open spec fn after_start(start: BoundView, k: Seq<u8>) -> bool {
    match start {
        BoundView::Included(s) => lex_le(s, k),
        BoundView::Excluded(s) => lex_lt(s, k),
        BoundView::Unbounded => true,
    }
}

/// Tells whether a key is not past the end of a range.
pub open spec fn before_end(end: BoundView, k: Seq<u8>) -> bool {
    match end {
        BoundView::Included(e) => lex_le(k, e),
        BoundView::Excluded(e) => lex_lt(k, e),
        BoundView::Unbounded => true,
    }
}

/// Tells whether a key is in a range.
pub open spec fn in_range(start: BoundView, end: BoundView, k: Seq<u8>) -> bool {
    after_start(start, k) && before_end(end, k)
}

/// The entries whose user key is in a range.
pub open spec fn range_of(es: Entries, start: BoundView, end: BoundView) -> Entries
    decreases es.len(),
{
    if es.len() == 0 {
        Seq::empty()
    } else {
        let before = range_of(es.drop_last(), start, end);
        if in_range(start, end, es.last().0.0) {
            before.push(es.last())
        } else {
            before
        }
    }
}

/// Tells whether entries in order go past the end of a range.
pub open spec fn range_ended(es: Seq<RawEntry>, start: BoundView, end: BoundView) -> bool {
    exists|i: int| 0 <= i < es.len() && ends_range(#[trigger] es[i], start, end)
}

/// Tells whether an entry is past the end of a range.
pub open spec fn ends_range(e: RawEntry, start: BoundView, end: BoundView) -> bool {
    match key_of_bytes(e.0) {
        Some(k) => after_start(start, k.0) && !before_end(end, k.0),
        None => false,
    }
}

/// The versions that the entries of a table file denote; what cannot be decoded is passed over.
pub open spec fn decoded(es: Seq<RawEntry>) -> Entries
    decreases es.len(),
{
    if es.len() == 0 {
        Seq::empty()
    } else {
        let before = decoded(es.drop_last());
        match (key_of_bytes(es.last().0), value_of_bytes(es.last().1)) {
            (Some(k), Some(v)) => before.push((k, v)),
            _ => before,
        }
    }
}

/// The source whose first version comes first among the first `n`; of equal ones the first.
pub open spec fn first_head(srcs: Seq<Entries>, n: nat) -> Option<nat>
    decreases n,
{
    if n == 0 {
        None
    } else {
        let m = first_head(srcs, (n - 1) as nat);
        let s = srcs[n - 1];
        if s.len() == 0 {
            m
        } else {
            match m {
                None => Some((n - 1) as nat),
                Some(i) => if key_lt(s[0].0, srcs[i as int][0].0) {
                    Some((n - 1) as nat)
                } else {
                    Some(i)
                },
            }
        }
    }
}

/// The number of versions in all sources.
pub open spec fn count_all(srcs: Seq<Entries>) -> nat
    decreases srcs.len(),
{
    if srcs.len() == 0 {
        0
    } else {
        count_all(srcs.drop_last()) + srcs.last().len()
    }
}

/// The sources without the first version of one.
pub open spec fn past_head(srcs: Seq<Entries>, i: nat) -> Seq<Entries> {
    srcs.update(i as int, srcs[i as int].drop_first())
}

/// What `first_head` gives, whichever way it comes out.
pub proof fn lemma_first_head(srcs: Seq<Entries>, n: nat)
    requires
        n <= srcs.len(),
    ensures
        match first_head(srcs, n) {
            None => forall|j: int| 0 <= j < n ==> (#[trigger] srcs[j]).len() == 0,
            Some(i) => {
                &&& i < n
                &&& srcs[i as int].len() > 0
                &&& forall|j: int|
                    0 <= j < n && (#[trigger] srcs[j]).len() > 0 ==> !key_lt(
                        srcs[j][0].0,
                        srcs[i as int][0].0,
                    )
            },
        },
    decreases n,
{
    if n > 0 {
        lemma_first_head(srcs, (n - 1) as nat);
        let s = srcs[n - 1];
        if s.len() > 0 {
            lemma_key_irreflexive(s[0].0);
            match first_head(srcs, (n - 1) as nat) {
                None => {},
                Some(i) => {
                    let a = srcs[i as int][0].0;
                    if key_lt(s[0].0, a) {
                        assert forall|j: int| 0 <= j < n && (#[trigger] srcs[j]).len() > 0 implies
                            !key_lt(srcs[j][0].0, s[0].0) by {
                            if j < n - 1 && key_lt(srcs[j][0].0, s[0].0) {
                                lemma_key_transitive(srcs[j][0].0, s[0].0, a);
                            }
                        }
                    }
                },
            }
        }
    }
}

/// Taking one version leaves one less.
pub proof fn lemma_count_past(srcs: Seq<Entries>, i: nat)
    requires
        i < srcs.len(),
        srcs[i as int].len() > 0,
    ensures
        count_all(past_head(srcs, i)) + 1 == count_all(srcs),
    decreases srcs.len(),
{
    let w = past_head(srcs, i);
    if i == srcs.len() - 1 {
        assert(w.drop_last() =~= srcs.drop_last());
    } else {
        assert(w.drop_last() =~= past_head(srcs.drop_last(), i));
        lemma_count_past(srcs.drop_last(), i);
    }
}

/// All versions, always the first of the first ones next.
pub open spec fn interleaved(srcs: Seq<Entries>) -> Entries
    decreases count_all(srcs),
{
    match first_head(srcs, srcs.len()) {
        None => Seq::empty(),
        Some(i) => {
            proof {
                lemma_first_head(srcs, srcs.len());
                lemma_count_past(srcs, i);
            }
            seq![srcs[i as int][0]] + interleaved(past_head(srcs, i))
        },
    }
}

/// A key with its value.
pub type KeyValue = (Seq<u8>, Seq<u8>);

/// What a reader at a snapshot sees of versions, `last` being the user key seen before.
pub open spec fn seen_at(es: Entries, ts: u64, last: Option<Seq<u8>>) -> Seq<KeyValue>
    decreases es.len(),
{
    if es.len() == 0 {
        Seq::empty()
    } else {
        let e = es[0];
        let t = es.drop_first();
        if last == Some(e.0.0) || e.0.1 > ts {
            seen_at(t, ts, last)
        } else {
            let rest = seen_at(t, ts, Some(e.0.0));
            match e.1 {
                Some(v) => seq![(e.0.0, v)] + rest,
                None => rest,
            }
        }
    }
}

/// What a scan of sources at a snapshot gives.
pub open spec fn scanned(srcs: Seq<Entries>, ts: u64) -> Seq<KeyValue> {
    seen_at(interleaved(srcs), ts, None)
}

/// The views of keys and values.
pub open spec fn pairs_view(s: Seq<(Vec<u8>, Vec<u8>)>) -> Seq<KeyValue> {
    s.map_values(|p: (Vec<u8>, Vec<u8>)| (p.0@, p.1@))
}

/// The versions of sources.
pub open spec fn version_sources(s: Seq<Vec<(InternalKey, MemtableValue)>>) -> Seq<Entries> {
    s.map_values(|x: Vec<(InternalKey, MemtableValue)>| entries_view(x@))
}

impl KeyBound {
    /// Tells whether a key is not before this start of a range.
    pub fn is_after_start(&self, k: &[u8]) -> (r: bool)
        ensures
            r == after_start(self@, k@),
    {
        match self {
            KeyBound::Included(s) => bytes_le(s, k),
            KeyBound::Excluded(s) => bytes_lt(s, k),
            KeyBound::Unbounded => true,
        }
    }

    /// Tells whether a key is not past this end of a range.
    pub fn is_before_end(&self, k: &[u8]) -> (r: bool)
        ensures
            r == before_end(self@, k@),
    {
        match self {
            KeyBound::Included(e) => bytes_le(k, e),
            KeyBound::Excluded(e) => bytes_lt(k, e),
            KeyBound::Unbounded => true,
        }
    }
}

/// Keeps the versions whose user key is in a range.
pub fn keep_range(es: &Vec<(InternalKey, MemtableValue)>, start: &KeyBound, end: &KeyBound) -> (r:
    Vec<(InternalKey, MemtableValue)>)
    ensures
        entries_view(r@) == range_of(entries_view(es@), start@, end@),
{
    let ghost all = entries_view(es@);
    let mut r: Vec<(InternalKey, MemtableValue)> = Vec::new();
    let mut i: usize = 0;
    assert(entries_view(r@) =~= range_of(all.take(0), start@, end@));
    while i < es.len()
        invariant
            i <= es@.len(),
            all == entries_view(es@),
            entries_view(r@) == range_of(all.take(i as int), start@, end@),
        decreases es@.len() - i,
    {
        let (k, v) = &es[i];
        let ghost before = entries_view(r@);
        proof {
            assert(all[i as int] == (k@, v@));
            assert(all.take(i + 1).drop_last() =~= all.take(i as int));
        }
        if start.is_after_start(&k.user_key) && end.is_before_end(&k.user_key) {
            r.push((k.copy(), v.copy()));
            assert(entries_view(r@) =~= before.push((k@, v@)));
        }
        i += 1;
    }
    assert(all.take(i as int) =~= all);
    r
}

/// Tells whether entries in order go past the end of a range.
pub fn goes_past(es: &Vec<(Vec<u8>, Vec<u8>)>, start: &KeyBound, end: &KeyBound) -> (r: bool)
    ensures
        r == range_ended(raw_view(es@), start@, end@),
{
    let ghost all = raw_view(es@);
    let mut i: usize = 0;
    while i < es.len()
        invariant
            i <= es@.len(),
            all == raw_view(es@),
            forall|j: int| 0 <= j < i ==> !ends_range(#[trigger] all[j], start@, end@),
        decreases es@.len() - i,
    {
        let (k, v) = &es[i];
        assert(all[i as int] == (k@, v@));
        if let Some(key) = decode_internal_key(k) {
            if start.is_after_start(&key.user_key) && !end.is_before_end(&key.user_key) {
                assert(ends_range(all[i as int], start@, end@));
                return true;
            }
        }
        i += 1;
    }
    false
}

/// Decodes the entries of a table file; what cannot be decoded is passed over.
pub fn decode_entries(es: &Vec<(Vec<u8>, Vec<u8>)>) -> (r: Vec<(InternalKey, MemtableValue)>)
    ensures
        entries_view(r@) == decoded(raw_view(es@)),
{
    let ghost all = raw_view(es@);
    let mut r: Vec<(InternalKey, MemtableValue)> = Vec::new();
    let mut i: usize = 0;
    assert(entries_view(r@) =~= decoded(all.take(0)));
    while i < es.len()
        invariant
            i <= es@.len(),
            all == raw_view(es@),
            entries_view(r@) == decoded(all.take(i as int)),
        decreases es@.len() - i,
    {
        let (k, v) = &es[i];
        let ghost before = entries_view(r@);
        proof {
            assert(all[i as int] == (k@, v@));
            assert(all.take(i + 1).drop_last() =~= all.take(i as int));
        }
        if let Some(key) = decode_internal_key(k) {
            if let Some(value) = decode_value(v) {
                let ghost x = (key@, value@);
                r.push((key, value));
                assert(entries_view(r@) =~= before.push(x));
            }
        }
        i += 1;
    }
    assert(all.take(i as int) =~= all);
    r
}

spec fn rest_of(s: Seq<Vec<(InternalKey, MemtableValue)>>, places: Seq<usize>) -> Seq<Entries> {
    Seq::new(s.len(), |i: int| entries_view(s[i]@).skip(places[i] as int))
}

spec fn places_wf(s: Seq<Vec<(InternalKey, MemtableValue)>>, places: Seq<usize>) -> bool {
    &&& places.len() == s.len()
    &&& forall|i: int| 0 <= i < s.len() ==> #[trigger] places[i] <= s[i]@.len()
}

fn find_head(sources: &Vec<Vec<(InternalKey, MemtableValue)>>, places: &Vec<usize>) -> (r: Option<
    usize,
>)
    requires
        places_wf(sources@, places@),
    ensures
        match r {
            Some(i) => {
                &&& i < sources@.len()
                &&& places@[i as int] < sources@[i as int]@.len()
                &&& first_head(rest_of(sources@, places@), sources@.len()) == Some(i as nat)
            },
            None => first_head(rest_of(sources@, places@), sources@.len()) is None,
        },
{
    let ghost rest = rest_of(sources@, places@);
    let mut best: Option<usize> = None;
    let mut i: usize = 0;
    while i < sources.len()
        invariant
            i <= sources@.len(),
            places_wf(sources@, places@),
            rest == rest_of(sources@, places@),
            first_head(rest, i as nat) == (match best {
                Some(b) => Some(b as nat),
                None => None,
            }),
            best matches Some(b) ==> b < i && places@[b as int] < sources@[b as int]@.len(),
        decreases sources@.len() - i,
    {
        assert(rest[i as int] == entries_view(sources@[i as int]@).skip(places@[i as int] as int));
        let p = places[i];
        if p < sources[i].len() {
            let k = &sources[i][p].0;
            assert(rest[i as int][0].0 == k@);
            match best {
                None => {
                    best = Some(i);
                },
                Some(b) => {
                    let q = places[b];
                    let bk = &sources[b][q].0;
                    assert(rest[b as int][0].0 == bk@);
                    if k.sorts_before(bk) {
                        best = Some(i);
                    }
                },
            }
        }
        i += 1;
    }
    best
}

/// Scans sources at a snapshot.
pub fn scan_sources(sources: &Vec<Vec<(InternalKey, MemtableValue)>>, snapshot_ts: u64) -> (r: Vec<
    (Vec<u8>, Vec<u8>),
>)
    ensures
        pairs_view(r@) == scanned(version_sources(sources@), snapshot_ts),
{
    let ghost srcs = version_sources(sources@);
    let ghost want = scanned(srcs, snapshot_ts);
    let mut places: Vec<usize> = Vec::new();
    let n = sources.len();
    let mut i: usize = 0;
    while i < n
        invariant
            i <= n,
            places@.len() == i,
            forall|j: int| 0 <= j < i ==> #[trigger] places@[j] == 0,
        decreases n - i,
    {
        places.push(0);
        i += 1;
    }
    let mut out: Vec<(Vec<u8>, Vec<u8>)> = Vec::new();
    let mut last: Option<Vec<u8>> = None;
    proof {
        let rest = rest_of(sources@, places@);
        assert forall|j: int| 0 <= j < n implies #[trigger] rest[j] == srcs[j] by {
            assert(places@[j] == 0);
            assert(srcs[j].skip(0) =~= srcs[j]);
        }
        assert(rest =~= srcs);
        assert(pairs_view(out@) + want =~= want);
    }
    loop
        invariant
            places_wf(sources@, places@),
            srcs == version_sources(sources@),
            want == scanned(srcs, snapshot_ts),
            want == pairs_view(out@) + seen_at(
                interleaved(rest_of(sources@, places@)),
                snapshot_ts,
                match last {
                    Some(k) => Some(k@),
                    None => None,
                },
            ),
        decreases count_all(rest_of(sources@, places@)),
    {
        let ghost rest = rest_of(sources@, places@);
        let i = match find_head(sources, &places) {
            Some(i) => i,
            None => {
                assert(pairs_view(out@) + Seq::<KeyValue>::empty() =~= pairs_view(out@));
                return out;
            },
        };
        let p = places[i];
        let (k, v) = &sources[i][p];
        let len = sources[i].len();
        assert(p < len);
        places.set(i, p + 1);
        proof {
            let after = past_head(rest, i as nat);
            let now = rest_of(sources@, places@);
            assert(rest[i as int][0] == (k@, v@));
            assert forall|j: int| 0 <= j < rest.len() implies #[trigger] now[j] == after[j] by {
                if j == i {
                    assert(rest[j].drop_first() =~= entries_view(sources@[j]@).skip(p + 1));
                }
            }
            assert(now =~= after);
            lemma_first_head(rest, rest.len());
            lemma_count_past(rest, i as nat);
            let es = interleaved(rest);
            assert(es[0] == (k@, v@));
            assert(es.drop_first() =~= interleaved(now));
        }
        let same = match &last {
            Some(l) => bytes_eq(l, &k.user_key),
            None => false,
        };
        if !same && k.seq <= snapshot_ts {
            last = Some(copy_bytes(&k.user_key));
            if let MemtableValue::Put(x) = v {
                let ghost before = pairs_view(out@);
                let ghost kv: KeyValue = (k.user_key@, x@);
                out.push((copy_bytes(&k.user_key), copy_bytes(x)));
                proof {
                    assert(pairs_view(out@) =~= before.push(kv));
                    let tail = seen_at(
                        interleaved(rest_of(sources@, places@)),
                        snapshot_ts,
                        Some(k.user_key@),
                    );
                    assert(before + (seq![kv] + tail) =~= before.push(kv) + tail);
                }
            }
        }
    }
}

/// Tells whether some source holds a version.
pub open spec fn in_some_source(srcs: Seq<Entries>, e: (KeyView, ValueView)) -> bool {
    exists|i: int| 0 <= i < srcs.len() && (#[trigger] srcs[i]).contains(e)
}

/// The merged versions are exactly those of the sources.
pub proof fn law_scan_has_all(srcs: Seq<Entries>, e: (KeyView, ValueView))
    ensures
        interleaved(srcs).contains(e) == in_some_source(srcs, e),
    decreases count_all(srcs),
{
    lemma_first_head(srcs, srcs.len());
    match first_head(srcs, srcs.len()) {
        None => {
            if in_some_source(srcs, e) {
                let i = choose|i: int| 0 <= i < srcs.len() && (#[trigger] srcs[i]).contains(e);
                assert(srcs[i].len() == 0);
            }
        },
        Some(i) => {
            lemma_count_past(srcs, i);
            let rest = past_head(srcs, i);
            law_scan_has_all(rest, e);
            let h = srcs[i as int][0];
            let tail = interleaved(rest);
            let all = seq![h] + tail;
            if interleaved(srcs).contains(e) {
                let p = choose|p: int| 0 <= p < all.len() && all[p] == e;
                if p == 0 {
                    assert(srcs[i as int].contains(e));
                } else {
                    assert(tail[p - 1] == e);
                    let j = choose|j: int| 0 <= j < rest.len() && (#[trigger] rest[j]).contains(e);
                    if j == i {
                        let q = choose|q: int| 0 <= q < rest[j].len() && rest[j][q] == e;
                        assert(srcs[j][q + 1] == e);
                    }
                    assert(srcs[j].contains(e));
                }
            }
            if in_some_source(srcs, e) {
                let j = choose|j: int| 0 <= j < srcs.len() && (#[trigger] srcs[j]).contains(e);
                let q = choose|q: int| 0 <= q < srcs[j].len() && srcs[j][q] == e;
                if j == i && q == 0 {
                    assert(all[0] == e);
                } else {
                    if j == i {
                        assert(rest[j][q - 1] == e);
                    } else {
                        assert(rest[j] == srcs[j]);
                    }
                    assert(rest[j].contains(e));
                    assert(tail.contains(e));
                    let p = choose|p: int| 0 <= p < tail.len() && tail[p] == e;
                    assert(all[p + 1] == e);
                }
            }
        },
    }
}

/// Tells whether each source comes in the order of versions.
pub open spec fn all_in_order(srcs: Seq<Entries>) -> bool {
    forall|i: int| 0 <= i < srcs.len() ==> entries_sorted(#[trigger] srcs[i])
}

/// Tells whether versions come in order, equal ones next to each other.
spec fn weakly_sorted(es: Entries) -> bool {
    forall|i: int, j: int|
        0 <= i < j < es.len() ==> !key_lt((#[trigger] es[j]).0, (#[trigger] es[i]).0)
}

proof fn lemma_interleaved_sorted(srcs: Seq<Entries>)
    requires
        all_in_order(srcs),
    ensures
        weakly_sorted(interleaved(srcs)),
    decreases count_all(srcs),
{
    lemma_first_head(srcs, srcs.len());
    match first_head(srcs, srcs.len()) {
        None => {},
        Some(i) => {
            lemma_count_past(srcs, i);
            let rest = past_head(srcs, i);
            let h = srcs[i as int][0];
            assert forall|j: int| 0 <= j < rest.len() implies entries_sorted(#[trigger] rest[j]) by {
                assert(entries_sorted(srcs[j]));
            }
            lemma_interleaved_sorted(rest);
            let tail = interleaved(rest);
            let all = seq![h] + tail;
            assert forall|p: int| 0 <= p < tail.len() implies !key_lt((#[trigger] tail[p]).0, h.0) by {
                let e = tail[p];
                law_scan_has_all(rest, e);
                assert(tail.contains(e));
                let j = choose|j: int| 0 <= j < rest.len() && (#[trigger] rest[j]).contains(e);
                let q = choose|q: int| 0 <= q < rest[j].len() && rest[j][q] == e;
                assert(entries_sorted(srcs[j]));
                if j == i {
                    assert(srcs[j][q + 1] == e);
                    lemma_key_asymmetric(h.0, e.0);
                } else {
                    assert(srcs[j][q] == e);
                    assert(!key_lt(srcs[j][0].0, h.0));
                    if q > 0 && key_lt(e.0, h.0) {
                        lemma_key_transitive(srcs[j][0].0, srcs[j][q].0, h.0);
                    }
                }
            }
            assert forall|p: int, q: int| 0 <= p < q < all.len() implies !key_lt(
                (#[trigger] all[q]).0,
                (#[trigger] all[p]).0,
            ) by {
                assert(all[q] == tail[q - 1]);
                if p > 0 {
                    assert(all[p] == tail[p - 1]);
                }
            }
        },
    }
}

/// Tells whether a version is the newest of its user key that a reader at a snapshot sees.
pub open spec fn newest_seen(es: Entries, e: (KeyView, ValueView), ts: u64) -> bool {
    &&& es.contains(e)
    &&& e.0.1 <= ts
    &&& forall|i: int|
        0 <= i < es.len() && (#[trigger] es[i]).0.0 == e.0.0 && es[i].0.1 <= ts ==> es[i].0.1
            <= e.0.1
}

/// Tells whether the newest version of a user key that a reader at a snapshot sees has a value.
pub open spec fn shows(es: Entries, ts: u64, kv: KeyValue) -> bool {
    exists|s: u64| #[trigger] newest_seen(es, ((kv.0, s), Some(kv.1)), ts)
}

spec fn users_from(es: Entries, last: Option<Seq<u8>>) -> bool {
    last matches Some(l) ==> forall|i: int|
        0 <= i < es.len() ==> lex_le(l, (#[trigger] es[i]).0.0)
}

/// Tells whether entries with the same key have the same value.
pub open spec fn agreeing(es: Entries) -> bool {
    forall|i: int, j: int|
        0 <= i < es.len() && 0 <= j < es.len() && (#[trigger] es[i]).0 == (#[trigger] es[j]).0
            ==> es[i].1 == es[j].1
}

proof fn lemma_later_users(es: Entries)
    requires
        es.len() > 0,
        weakly_sorted(es),
    ensures
        forall|i: int| 0 <= i < es.len() ==> lex_le(es[0].0.0, (#[trigger] es[i]).0.0),
        forall|i: int|
            0 <= i < es.len() && (#[trigger] es[i]).0.0 == es[0].0.0 ==> es[i].0.1 <= es[0].0.1,
{
    assert forall|i: int| 0 <= i < es.len() implies lex_le(es[0].0.0, (#[trigger] es[i]).0.0) && (
    es[i].0.0 == es[0].0.0 ==> es[i].0.1 <= es[0].0.1) by {
        if i > 0 {
            assert(!key_lt(es[i].0, es[0].0));
            lemma_lex_total(es[0].0.0, es[i].0.0);
        }
    }
}

proof fn lemma_seen_only(es: Entries, ts: u64, last: Option<Seq<u8>>, p: int)
    requires
        weakly_sorted(es),
        users_from(es, last),
        0 <= p < seen_at(es, ts, last).len(),
    ensures
        shows(es, ts, seen_at(es, ts, last)[p]),
        last != Some(seen_at(es, ts, last)[p].0),
        last matches Some(l) ==> lex_lt(l, seen_at(es, ts, last)[p].0),
    decreases es.len(),
{
    let e = es[0];
    let t = es.drop_first();
    let out = seen_at(es, ts, last);
    let kv = out[p];
    lemma_later_users(es);
    assert(weakly_sorted(t)) by {
        assert forall|i: int, j: int| 0 <= i < j < t.len() implies !key_lt(
            (#[trigger] t[j]).0,
            (#[trigger] t[i]).0,
        ) by {
            assert(t[i] == es[i + 1] && t[j] == es[j + 1]);
        }
    }
    if last == Some(e.0.0) || e.0.1 > ts {
        assert(users_from(t, last)) by {
            if last is Some {
                assert forall|i: int| 0 <= i < t.len() implies lex_le(
                    last->0,
                    (#[trigger] t[i]).0.0,
                ) by {
                    assert(t[i] == es[i + 1]);
                }
            }
        }
        lemma_seen_only(t, ts, last, p);
        let s = choose|s: u64| #[trigger] newest_seen(t, ((kv.0, s), Some(kv.1)), ts);
        lemma_newest_later(es, ((kv.0, s), Some(kv.1)), ts);
    } else {
        let next = Some(e.0.0);
        assert(users_from(t, next)) by {
            assert forall|i: int| 0 <= i < t.len() implies lex_le(e.0.0, (#[trigger] t[i]).0.0) by {
                assert(t[i] == es[i + 1]);
            }
        }
        if last is Some {
            assert(lex_le(last->0, es[0].0.0));
            assert(lex_lt(last->0, e.0.0));
        }
        if e.1 is Some && p == 0 {
            assert(kv == (e.0.0, e.1->0));
            assert(es.contains(es[0]));
            assert(newest_seen(es, ((kv.0, e.0.1), Some(kv.1)), ts));
            if last is Some {
                lemma_lex_irreflexive(last->0);
            }
        } else {
            let q = if e.1 is Some {
                p - 1
            } else {
                p
            };
            assert(kv == seen_at(t, ts, next)[q]);
            lemma_seen_only(t, ts, next, q);
            let s = choose|s: u64| #[trigger] newest_seen(t, ((kv.0, s), Some(kv.1)), ts);
            lemma_newest_later(es, ((kv.0, s), Some(kv.1)), ts);
            if last is Some {
                lemma_lex_transitive(last->0, e.0.0, kv.0);
                lemma_lex_irreflexive(kv.0);
            }
        }
    }
}

/// What is newest after the first entry is newest of all, unless the first entry is of the same
/// user key and visible.
proof fn lemma_newest_later(es: Entries, x: (KeyView, ValueView), ts: u64)
    requires
        es.len() > 0,
        newest_seen(es.drop_first(), x, ts),
        es[0].0.0 != x.0.0 || es[0].0.1 > ts,
    ensures
        newest_seen(es, x, ts),
{
    let t = es.drop_first();
    let q = choose|q: int| 0 <= q < t.len() && t[q] == x;
    assert(es[q + 1] == x);
    assert forall|i: int|
        0 <= i < es.len() && (#[trigger] es[i]).0.0 == x.0.0 && es[i].0.1 <= ts implies es[i].0.1
        <= x.0.1 by {
        if i > 0 {
            assert(t[i - 1] == es[i]);
        }
    }
}

proof fn lemma_seen_all(es: Entries, ts: u64, last: Option<Seq<u8>>, x: (KeyView, ValueView))
    requires
        weakly_sorted(es),
        agreeing(es),
        newest_seen(es, x, ts),
        last != Some(x.0.0),
        x.1 is Some,
    ensures
        seen_at(es, ts, last).contains((x.0.0, x.1->0)),
    decreases es.len(),
{
    let e = es[0];
    let t = es.drop_first();
    let out = seen_at(es, ts, last);
    let want: KeyValue = (x.0.0, x.1->0);
    let j = choose|j: int| 0 <= j < es.len() && es[j] == x;
    lemma_later_users(es);
    assert forall|i: int, k: int| 0 <= i < k < t.len() implies !key_lt(
        (#[trigger] t[k]).0,
        (#[trigger] t[i]).0,
    ) by {
        assert(t[i] == es[i + 1] && t[k] == es[k + 1]);
    }
    assert forall|i: int, k: int|
        0 <= i < t.len() && 0 <= k < t.len() && (#[trigger] t[i]).0 == (#[trigger] t[k]).0 implies
        t[i].1 == t[k].1 by {
        assert(t[i] == es[i + 1] && t[k] == es[k + 1]);
    }
    if e.0.0 == x.0.0 && e.0.1 <= ts {
        assert(e.0.1 <= x.0.1);
        assert(es[j].0.1 <= es[0].0.1);
        assert(es[0].0 == es[j].0);
        assert(out[0] == want);
    } else {
        assert(j > 0);
        assert(t[j - 1] == x);
        assert(newest_seen(t, x, ts)) by {
            assert forall|i: int|
                0 <= i < t.len() && (#[trigger] t[i]).0.0 == x.0.0 && t[i].0.1 <= ts implies
                t[i].0.1 <= x.0.1 by {
                assert(t[i] == es[i + 1]);
            }
        }
        if last == Some(e.0.0) || e.0.1 > ts {
            lemma_seen_all(t, ts, last, x);
        } else {
            lemma_seen_all(t, ts, Some(e.0.0), x);
            let rest = seen_at(t, ts, Some(e.0.0));
            let q = choose|q: int| 0 <= q < rest.len() && rest[q] == want;
            if e.1 is Some {
                assert(out[q + 1] == want);
            } else {
                assert(out[q] == want);
            }
        }
    }
}

proof fn lemma_seen_ascending(es: Entries, ts: u64, last: Option<Seq<u8>>)
    requires
        weakly_sorted(es),
        users_from(es, last),
    ensures
        keys_ascend(seen_at(es, ts, last)),
    decreases es.len(),
{
    if es.len() > 0 {
        let e = es[0];
        let t = es.drop_first();
        lemma_later_users(es);
        assert forall|i: int, k: int| 0 <= i < k < t.len() implies !key_lt(
            (#[trigger] t[k]).0,
            (#[trigger] t[i]).0,
        ) by {
            assert(t[i] == es[i + 1] && t[k] == es[k + 1]);
        }
        if last == Some(e.0.0) || e.0.1 > ts {
            assert(users_from(t, last)) by {
                if last is Some {
                    assert forall|i: int| 0 <= i < t.len() implies lex_le(
                        last->0,
                        (#[trigger] t[i]).0.0,
                    ) by {
                        assert(t[i] == es[i + 1]);
                    }
                }
            }
            lemma_seen_ascending(t, ts, last);
        } else {
            let next = Some(e.0.0);
            assert(users_from(t, next)) by {
                assert forall|i: int| 0 <= i < t.len() implies lex_le(
                    e.0.0,
                    (#[trigger] t[i]).0.0,
                ) by {
                    assert(t[i] == es[i + 1]);
                }
            }
            lemma_seen_ascending(t, ts, next);
            let rest = seen_at(t, ts, next);
            if e.1 is Some {
                let out = seq![(e.0.0, e.1->0)] + rest;
                assert forall|i: int, j: int| 0 <= i < j < out.len() implies lex_lt(
                    (#[trigger] out[i]).0,
                    (#[trigger] out[j]).0,
                ) by {
                    assert(out[j] == rest[j - 1]);
                    if i == 0 {
                        lemma_seen_only(t, ts, next, j - 1);
                    } else {
                        assert(out[i] == rest[i - 1]);
                    }
                }
            }
        }
    }
}

/// Tells whether keys come in ascending order, without repeats.
pub open spec fn keys_ascend(s: Seq<KeyValue>) -> bool {
    forall|i: int, j: int|
        0 <= i < j < s.len() ==> lex_lt((#[trigger] s[i]).0, (#[trigger] s[j]).0)
}

/// A scan of sources that are in order gives each user key once, in ascending order, with the
/// value of the newest version that a reader at the snapshot sees in any source; a user key whose
/// newest version is a delete, or that has no version at the snapshot, does not appear.
pub proof fn law_scan(srcs: Seq<Entries>, ts: u64, kv: KeyValue)
    requires
        all_in_order(srcs),
        agreeing(interleaved(srcs)),
    ensures
        keys_ascend(scanned(srcs, ts)),
        scanned(srcs, ts).contains(kv) == shows(interleaved(srcs), ts, kv),
{
    let es = interleaved(srcs);
    lemma_interleaved_sorted(srcs);
    lemma_seen_ascending(es, ts, None);
    let out = scanned(srcs, ts);
    if out.contains(kv) {
        let p = choose|p: int| 0 <= p < out.len() && out[p] == kv;
        lemma_seen_only(es, ts, None, p);
    }
    if shows(es, ts, kv) {
        let s = choose|s: u64| #[trigger] newest_seen(es, ((kv.0, s), Some(kv.1)), ts);
        lemma_seen_all(es, ts, None, ((kv.0, s), Some(kv.1)));
    }
}

proof fn lemma_range_has(es: Entries, start: BoundView, end: BoundView, x: (KeyView, ValueView))
    ensures
        range_of(es, start, end).contains(x) == (es.contains(x) && in_range(start, end, x.0.0)),
    decreases es.len(),
{
    let out = range_of(es, start, end);
    if es.len() > 0 {
        let t = es.drop_last();
        let before = range_of(t, start, end);
        lemma_range_has(t, start, end, x);
        if out.contains(x) {
            let p = choose|p: int| 0 <= p < out.len() && out[p] == x;
            if p < before.len() {
                assert(before[p] == x);
                let q = choose|q: int| 0 <= q < t.len() && t[q] == x;
                assert(es[q] == x);
            } else {
                assert(es[es.len() - 1] == x);
            }
        }
        if es.contains(x) && in_range(start, end, x.0.0) {
            let q = choose|q: int| 0 <= q < es.len() && es[q] == x;
            if q < t.len() {
                assert(t[q] == x);
                let p = choose|p: int| 0 <= p < before.len() && before[p] == x;
                assert(out[p] == x);
            } else {
                assert(out[before.len() as int] == x);
            }
        }
    }
}

/// Keeping a range keeps exactly the versions in it, in order.
pub proof fn law_range(es: Entries, start: BoundView, end: BoundView, x: (KeyView, ValueView))
    ensures
        range_of(es, start, end).contains(x) == (es.contains(x) && in_range(start, end, x.0.0)),
        entries_sorted(es) ==> entries_sorted(range_of(es, start, end)),
{
    lemma_range_has(es, start, end, x);
    if entries_sorted(es) {
        lemma_range_sorted(es, start, end);
    }
}

proof fn lemma_range_sorted(es: Entries, start: BoundView, end: BoundView)
    requires
        entries_sorted(es),
    ensures
        entries_sorted(range_of(es, start, end)),
    decreases es.len(),
{
    if es.len() > 0 {
        let t = es.drop_last();
        let n = es.len() - 1;
        assert forall|i: int, j: int| 0 <= i < j < t.len() implies key_lt(
            (#[trigger] t[i]).0,
            (#[trigger] t[j]).0,
        ) by {
            assert(t[i] == es[i] && t[j] == es[j]);
        }
        lemma_range_sorted(t, start, end);
        let before = range_of(t, start, end);
        assert forall|i: int| 0 <= i < before.len() implies key_lt(
            (#[trigger] before[i]).0,
            es[n].0,
        ) by {
            lemma_range_has(t, start, end, before[i]);
            assert(before.contains(before[i]));
            let q = choose|q: int| 0 <= q < t.len() && t[q] == before[i];
            assert(key_lt(es[q].0, es[n].0));
        }
    }
}

/// What a range holds: with both ends at one key, that key alone; an end that is excluded takes out
/// its key and nothing else; without ends, every key. A key splits all keys into those before it
/// and the others.
pub proof fn law_bounds(start: BoundView, end: BoundView, a: Seq<u8>, k: Seq<u8>)
    ensures
        in_range(BoundView::Included(a), BoundView::Included(a), k) <==> k == a,
        in_range(BoundView::Excluded(a), end, k) <==> in_range(BoundView::Included(a), end, k) && k
            != a,
        in_range(start, BoundView::Excluded(a), k) <==> in_range(start, BoundView::Included(a), k)
            && k != a,
        in_range(BoundView::Unbounded, BoundView::Unbounded, k),
        in_range(BoundView::Unbounded, BoundView::Excluded(a), k) <==> !in_range(
            BoundView::Included(a),
            BoundView::Unbounded,
            k,
        ),
        in_range(BoundView::Unbounded, BoundView::Excluded(a), k) <==> lex_lt(k, a),
{
    crate::codec::lemma_lex_total(a, k);
    crate::codec::lemma_lex_irreflexive(a);
    if lex_lt(a, k) {
        crate::codec::lemma_lex_asymmetric(a, k);
    }
    if lex_lt(k, a) {
        crate::codec::lemma_lex_asymmetric(k, a);
    }
}

} // verus!
