//! Merging sorted sources into one, with or without dropping versions that no reader needs.
//!
//! The sources come newest first. Without a watermark, only the newest version of each user key
//! stays. With a watermark, these stay of each user key:
//!
//! - every version above the watermark,
//! - the newest version at or below the watermark,
//! - every delete.

use crate::block::{raw_view, RawEntry};
use crate::codec::{
    bytes_eq, bytes_lt, copy_bytes, lemma_lex_asymmetric, lemma_lex_irreflexive, lemma_lex_le_lt,
    lemma_lex_total,
    lemma_lex_transitive, lex_le, lex_lt,
};
use crate::sstable::{decode_internal_key, is_key, law_key_bytes_round_trip, law_key_order, raw_sorted,
    seq_part, user_part};
use vstd::prelude::*;

verus! {

/// The user key of an entry's key; all of it where it is not the key of a version.
pub open spec fn user_of(k: Seq<u8>) -> Seq<u8> {
    if is_key(k) {
        user_part(k)
    } else {
        k
    }
}

/// The sequence number of an entry's key; zero where it is not the key of a version.
pub open spec fn seq_of(k: Seq<u8>) -> u64 {
    if is_key(k) {
        seq_part(k)
    } else {
        0
    }
}

/// Tells whether the bytes of a value are those of a delete.
pub open spec fn is_tombstone(v: Seq<u8>) -> bool {
    v.len() > 0 && v[0] == 0
}

/// The number of entries in all sources.
pub open spec fn total(srcs: Seq<Seq<RawEntry>>) -> nat
    decreases srcs.len(),
{
    if srcs.len() == 0 {
        0
    } else {
        total(srcs.drop_last()) + srcs.last().len()
    }
}

/// The source whose first entry has the smallest key among the first `n`; of equal ones the
/// first.
pub open spec fn min_head(srcs: Seq<Seq<RawEntry>>, n: nat) -> Option<nat>
    decreases n,
{
    if n == 0 {
        None
    } else {
        let m = min_head(srcs, (n - 1) as nat);
        let s = srcs[n - 1];
        if s.len() == 0 {
            m
        } else {
            match m {
                None => Some((n - 1) as nat),
                Some(i) => if lex_lt(s[0].0, srcs[i as int][0].0) {
                    Some((n - 1) as nat)
                } else {
                    Some(i)
                },
            }
        }
    }
}

/// The sources without the first entry of one.
pub open spec fn without_head(srcs: Seq<Seq<RawEntry>>, i: nat) -> Seq<Seq<RawEntry>> {
    srcs.update(i as int, srcs[i as int].drop_first())
}

/// All entries, always the smallest of the first ones next.
pub open spec fn merged(srcs: Seq<Seq<RawEntry>>) -> Seq<RawEntry>
    decreases total(srcs),
{
    match min_head(srcs, srcs.len()) {
        None => Seq::empty(),
        Some(i) => {
            proof {
                lemma_min_head(srcs, srcs.len());
                lemma_total_without(srcs, i);
            }
            seq![srcs[i as int][0]] + merged(without_head(srcs, i))
        },
    }
}

/// What `min_head` gives, whichever way it comes out.
pub proof fn lemma_min_head(srcs: Seq<Seq<RawEntry>>, n: nat)
    requires
        n <= srcs.len(),
    ensures
        match min_head(srcs, n) {
            None => forall|j: int| 0 <= j < n ==> (#[trigger] srcs[j]).len() == 0,
            Some(i) => {
                &&& i < n
                &&& srcs[i as int].len() > 0
                &&& forall|j: int|
                    0 <= j < n && (#[trigger] srcs[j]).len() > 0 ==> lex_le(
                        srcs[i as int][0].0,
                        srcs[j][0].0,
                    )
            },
        },
    decreases n,
{
    if n > 0 {
        lemma_min_head(srcs, (n - 1) as nat);
        let s = srcs[n - 1];
        if s.len() > 0 {
            match min_head(srcs, (n - 1) as nat) {
                None => {},
                Some(i) => {
                    let a = srcs[i as int][0].0;
                    lemma_lex_total(s[0].0, a);
                    if lex_lt(s[0].0, a) {
                        assert forall|j: int| 0 <= j < n && (#[trigger] srcs[j]).len() > 0 implies
                            lex_le(s[0].0, srcs[j][0].0) by {
                            if j < n - 1 && a != srcs[j][0].0 {
                                lemma_lex_transitive(s[0].0, a, srcs[j][0].0);
                            }
                        }
                    }
                },
            }
        }
    }
}

/// Taking one entry leaves one less.
pub proof fn lemma_total_without(srcs: Seq<Seq<RawEntry>>, i: nat)
    requires
        i < srcs.len(),
        srcs[i as int].len() > 0,
    ensures
        total(without_head(srcs, i)) + 1 == total(srcs),
    decreases srcs.len(),
{
    let w = without_head(srcs, i);
    if i == srcs.len() - 1 {
        assert(w.drop_last() =~= srcs.drop_last());
    } else {
        assert(w.drop_last() =~= without_head(srcs.drop_last(), i));
        lemma_total_without(srcs.drop_last(), i);
    }
}

/// The entries without those that repeat the key before them, where `last` is the key before the
/// first.
pub open spec fn once_from(es: Seq<RawEntry>, last: Option<Seq<u8>>) -> Seq<RawEntry>
    decreases es.len(),
{
    if es.len() == 0 {
        Seq::empty()
    } else if last == Some(es[0].0) {
        once_from(es.drop_first(), last)
    } else {
        seq![es[0]] + once_from(es.drop_first(), Some(es[0].0))
    }
}

/// The entries without those that repeat the key before them.
pub open spec fn once_each(es: Seq<RawEntry>) -> Seq<RawEntry> {
    once_from(es, None)
}

/// The entries of sources in one, each key once.
pub open spec fn joined(srcs: Seq<Seq<RawEntry>>) -> Seq<RawEntry> {
    once_each(merged(srcs))
}

/// The first entry of each run of entries with the same user key, unless it is the `last` one
/// seen before.
pub open spec fn newest_only(es: Seq<RawEntry>, last: Option<Seq<u8>>) -> Seq<RawEntry>
    decreases es.len(),
{
    if es.len() == 0 {
        Seq::empty()
    } else {
        let user = user_of(es[0].0);
        if last == Some(user) {
            newest_only(es.drop_first(), last)
        } else {
            seq![es[0]] + newest_only(es.drop_first(), Some(user))
        }
    }
}

/// The versions that stay of a run of versions of one user key, newest first. `found` tells that
/// a version at or below the watermark has been kept before.
pub open spec fn kept(run: Seq<RawEntry>, watermark: u64, found: bool) -> Seq<RawEntry>
    decreases run.len(),
{
    if run.len() == 0 {
        Seq::empty()
    } else {
        let e = run[0];
        let below = seq_of(e.0) <= watermark;
        let rest = kept(run.drop_first(), watermark, found || below);
        if !below || !found || is_tombstone(e.1) {
            seq![e] + rest
        } else {
            rest
        }
    }
}

/// Tells whether an entry goes on a run of versions of one user key.
pub open spec fn goes_on(run: Seq<RawEntry>, e: RawEntry) -> bool {
    run.len() == 0 || user_of(run[0].0) == user_of(e.0)
}

/// The versions that stay of all runs but the last, where `run` has been seen before.
pub open spec fn collected(es: Seq<RawEntry>, watermark: u64, run: Seq<RawEntry>) -> Seq<RawEntry>
    decreases es.len(),
{
    if es.len() == 0 {
        Seq::empty()
    } else if goes_on(run, es[0]) {
        collected(es.drop_first(), watermark, run.push(es[0]))
    } else {
        kept(run, watermark, false) + collected(es.drop_first(), watermark, seq![es[0]])
    }
}

/// The versions that stay of the last run, where `run` has been seen before.
pub open spec fn last_collected(es: Seq<RawEntry>, watermark: u64, run: Seq<RawEntry>) -> Seq<
    RawEntry,
>
    decreases es.len(),
{
    if es.len() == 0 {
        kept(run, watermark, false)
    } else if goes_on(run, es[0]) {
        last_collected(es.drop_first(), watermark, run.push(es[0]))
    } else {
        last_collected(es.drop_first(), watermark, seq![es[0]])
    }
}

/// The versions that stay, with a watermark.
pub open spec fn without_garbage(es: Seq<RawEntry>, watermark: u64) -> Seq<RawEntry> {
    collected(es, watermark, Seq::empty()) + last_collected(es, watermark, Seq::empty())
}

/// The versions that stay, with or without a watermark.
pub open spec fn surviving(es: Seq<RawEntry>, watermark: Option<u64>) -> Seq<RawEntry> {
    match watermark {
        Some(w) => without_garbage(es, w),
        None => newest_only(es, None),
    }
}

/// The part of what survives that comes before the last run, with a watermark; all of it without
/// one.
pub open spec fn front_of(es: Seq<RawEntry>, watermark: Option<u64>) -> Seq<RawEntry> {
    match watermark {
        Some(w) => collected(es, w, Seq::empty()),
        None => newest_only(es, None),
    }
}

/// The part of what survives that is of the last run, with a watermark; nothing without one.
pub open spec fn tail_of(es: Seq<RawEntry>, watermark: Option<u64>) -> Seq<RawEntry> {
    match watermark {
        Some(w) => last_collected(es, w, Seq::empty()),
        None => Seq::empty(),
    }
}

/// The two parts are what survives.
pub proof fn lemma_parts(es: Seq<RawEntry>, watermark: Option<u64>)
    ensures
        front_of(es, watermark) + tail_of(es, watermark) == surviving(es, watermark),
{
    assert(front_of(es, watermark) + tail_of(es, watermark) =~= surviving(es, watermark));
}

/// The user key of an entry's key.
pub(crate) fn user_key_of(k: &[u8]) -> (r: Vec<u8>)
    ensures
        r@ == user_of(k@),
{
    match decode_internal_key(k) {
        Some(key) => key.user_key,
        None => copy_bytes(k),
    }
}

fn seq_num_of(k: &[u8]) -> (r: u64)
    ensures
        r == seq_of(k@),
{
    match decode_internal_key(k) {
        Some(key) => key.seq,
        None => 0,
    }
}

/// Keeps what stays of a run of versions of one user key.
fn keep_versions(run: &Vec<(Vec<u8>, Vec<u8>)>, watermark: u64) -> (r: Vec<(Vec<u8>, Vec<u8>)>)
    ensures
        raw_view(r@) == kept(raw_view(run@), watermark, false),
{
    let ghost all = raw_view(run@);
    let mut out: Vec<(Vec<u8>, Vec<u8>)> = Vec::new();
    let mut found = false;
    let mut i: usize = 0;
    proof {
        assert(all.skip(0) =~= all);
        assert(raw_view(out@) + kept(all, watermark, false) =~= kept(all, watermark, false));
    }
    while i < run.len()
        invariant
            i <= run@.len(),
            all == raw_view(run@),
            kept(all, watermark, false) == raw_view(out@) + kept(
                all.skip(i as int),
                watermark,
                found,
            ),
        decreases run@.len() - i,
    {
        let (k, v) = &run[i];
        let ghost e: RawEntry = (k@, v@);
        let ghost tail = all.skip(i as int);
        let ghost before = raw_view(out@);
        proof {
            assert(tail[0] == e);
            assert(tail.drop_first() =~= all.skip(i + 1));
        }
        let below = seq_num_of(k) <= watermark;
        let tombstone = v.len() > 0 && v[0] == 0;
        if !below || !found || tombstone {
            out.push((copy_bytes(k), copy_bytes(v)));
            proof {
                assert(raw_view(out@) =~= before.push(e));
                let rest = kept(all.skip(i + 1), watermark, found || below);
                assert(before + (seq![e] + rest) =~= before.push(e) + rest);
            }
        }
        found = found || below;
        i += 1;
    }
    assert(raw_view(out@) + Seq::<RawEntry>::empty() =~= raw_view(out@));
    out
}

/// Merges sources. The sources come newest first, each in ascending order of its keys.
pub struct MergeIterator {
    sources: Vec<Vec<(Vec<u8>, Vec<u8>)>>,
    places: Vec<usize>,
    last_key: Option<Vec<u8>>,
    last_user_key: Option<Vec<u8>>,
    gc_watermark: Option<u64>,
    ready: Vec<(Vec<u8>, Vec<u8>)>,
    ready_place: usize,
    run: Vec<(Vec<u8>, Vec<u8>)>,
}

/// The entries of sources.
pub open spec fn sources_view(s: Seq<Vec<(Vec<u8>, Vec<u8>)>>) -> Seq<Seq<RawEntry>> {
    s.map_values(|x: Vec<(Vec<u8>, Vec<u8>)>| raw_view(x@))
}

impl MergeIterator {
    /// What is left of the sources.
    pub closed spec fn rest(&self) -> Seq<Seq<RawEntry>> {
        Seq::new(
            self.sources@.len(),
            |i: int| raw_view(self.sources@[i]@).skip(self.places@[i] as int),
        )
    }

    spec fn ready_entries(&self) -> Seq<RawEntry> {
        raw_view(self.ready@).skip(self.ready_place as int)
    }

    spec fn last(&self) -> Option<Seq<u8>> {
        match self.last_user_key {
            Some(k) => Some(k@),
            None => None,
        }
    }

    spec fn taken_last(&self) -> Option<Seq<u8>> {
        match self.last_key {
            Some(k) => Some(k@),
            None => None,
        }
    }

    /// What is left of the sources in one, each key once and none that was taken last.
    spec fn left(&self) -> Seq<RawEntry> {
        once_from(merged(self.rest()), self.taken_last())
    }

    /// The watermark.
    pub closed spec fn watermark(&self) -> Option<u64> {
        self.gc_watermark
    }

    /// What has been taken from the sources and stays, but was not given out yet.
    pub closed spec fn buffered(&self) -> Seq<RawEntry> {
        match self.gc_watermark {
            Some(w) => self.ready_entries() + kept(raw_view(self.run@), w, false),
            None => Seq::empty(),
        }
    }

    /// The entries that `next_entry` has still to give.
    pub closed spec fn to_come(&self) -> Seq<RawEntry> {
        match self.gc_watermark {
            Some(w) => self.ready_entries() + collected(self.left(), w, raw_view(self.run@)),
            None => newest_only(self.left(), self.last()),
        }
    }

    /// The entries that `flush_buffer` gives once `next_entry` has no more.
    pub closed spec fn at_end(&self) -> Seq<RawEntry> {
        match self.gc_watermark {
            Some(w) => last_collected(self.left(), w, raw_view(self.run@)),
            None => Seq::empty(),
        }
    }

    /// Tells whether the places are in the sources.
    pub closed spec fn wf(&self) -> bool {
        &&& self.places@.len() == self.sources@.len()
        &&& forall|i: int|
            0 <= i < self.sources@.len() ==> #[trigger] self.places@[i] <= self.sources@[i]@.len()
        &&& self.ready_place <= self.ready@.len()
        &&& self.ready_place < self.ready@.len() ==> self.run@.len() == 0
        &&& self.gc_watermark is None ==> self.ready@.len() == 0 && self.run@.len() == 0
        &&& self.gc_watermark is Some ==> self.last_user_key is None
    }

    fn start(sources: Vec<Vec<(Vec<u8>, Vec<u8>)>>, gc_watermark: Option<u64>) -> (r: Self)
        ensures
            r.wf(),
            r.rest() == sources_view(sources@),
            r.watermark() == gc_watermark,
            r.buffered() == Seq::<RawEntry>::empty(),
            r.to_come() == front_of(joined(sources_view(sources@)), gc_watermark),
            r.at_end() == tail_of(joined(sources_view(sources@)), gc_watermark),
    {
        let mut places: Vec<usize> = Vec::new();
        let n = sources.len();
        let mut i: usize = 0;
        while i < n
            invariant
                i <= n,
                places@.len() == i,
                forall|j: int| 0 <= j < i ==> #[trigger] places@[j] == 0,
            decreases n - i,
        {
            places.push(0);
            i += 1;
        }
        let r = MergeIterator {
            sources,
            places,
            last_key: None,
            last_user_key: None,
            gc_watermark,
            ready: Vec::new(),
            ready_place: 0,
            run: Vec::new(),
        };
        proof {
            assert forall|j: int| 0 <= j < r.sources@.len() implies #[trigger] r.rest()[j]
                == sources_view(r.sources@)[j] by {
                assert(r.places@[j] == 0);
                let s = raw_view(r.sources@[j]@);
                assert(s.skip(0) =~= s);
            }
            assert(r.rest() =~= sources_view(r.sources@));
            assert(r.ready_entries() =~= Seq::<RawEntry>::empty());
            assert(raw_view(r.run@) =~= Seq::<RawEntry>::empty());
            assert(r.buffered() =~= Seq::<RawEntry>::empty());
            assert(r.to_come() =~= front_of(joined(r.rest()), gc_watermark));
            assert(r.at_end() =~= tail_of(joined(r.rest()), gc_watermark));
        }
        r
    }

    /// Merges, keeping only the newest version of each user key.
    pub fn new(sources: Vec<Vec<(Vec<u8>, Vec<u8>)>>) -> (r: Self)
        ensures
            r.wf(),
            r.watermark() is None,
            r.buffered() == Seq::<RawEntry>::empty(),
            r.to_come() == newest_only(joined(sources_view(sources@)), None),
            r.at_end() == Seq::<RawEntry>::empty(),
    {
        MergeIterator::start(sources, None)
    }

    /// Merges, dropping the versions that no reader at or above the watermark needs.
    pub fn new_with_gc(sources: Vec<Vec<(Vec<u8>, Vec<u8>)>>, watermark: u64) -> (r: Self)
        ensures
            r.wf(),
            r.watermark() == Some(watermark),
            r.buffered() == Seq::<RawEntry>::empty(),
            r.to_come() == front_of(joined(sources_view(sources@)), Some(watermark)),
            r.at_end() == tail_of(joined(sources_view(sources@)), Some(watermark)),
            r.to_come() + r.at_end() == without_garbage(joined(sources_view(sources@)), watermark),
    {
        MergeIterator::start(sources, Some(watermark))
    }

    fn peek(&self) -> (r: Option<usize>)
        requires
            self.wf(),
        ensures
            match r {
                Some(i) => {
                    &&& i < self.sources@.len()
                    &&& self.places@[i as int] < self.sources@[i as int]@.len()
                    &&& min_head(self.rest(), self.rest().len()) == Some(i as nat)
                },
                None => min_head(self.rest(), self.rest().len()) is None,
            },
    {
        let ghost rest = self.rest();
        let mut best: Option<usize> = None;
        let mut i: usize = 0;
        while i < self.sources.len()
            invariant
                i <= self.sources@.len(),
                self.wf(),
                rest == self.rest(),
                min_head(rest, i as nat) == (match best {
                    Some(b) => Some(b as nat),
                    None => None,
                }),
                best matches Some(b) ==> b < i && self.places@[b as int]
                    < self.sources@[b as int]@.len(),
            decreases self.sources@.len() - i,
        {
            assert(rest[i as int] == raw_view(self.sources@[i as int]@).skip(
                self.places@[i as int] as int,
            ));
            let p = self.places[i];
            if p < self.sources[i].len() {
                let k = &self.sources[i][p].0;
                assert(rest[i as int][0].0 == k@);
                match best {
                    None => {
                        best = Some(i);
                    },
                    Some(b) => {
                        let q = self.places[b];
                        let bk = &self.sources[b][q].0;
                        assert(rest[b as int][0].0 == bk@);
                        if bytes_lt(k, bk) {
                            best = Some(i);
                        }
                    },
                }
            }
            i += 1;
        }
        best
    }

    fn take_head(&mut self, i: usize) -> (r: (Vec<u8>, Vec<u8>))
        requires
            old(self).wf(),
            i < old(self).sources@.len(),
            old(self).places@[i as int] < old(self).sources@[i as int]@.len(),
            min_head(old(self).rest(), old(self).rest().len()) == Some(i as nat),
        ensures
            final(self).wf(),
            merged(old(self).rest()) == seq![(r.0@, r.1@)] + merged(final(self).rest()),
            final(self).taken_last() == Some(r.0@),
            total(final(self).rest()) + 1 == total(old(self).rest()),
            final(self).gc_watermark == old(self).gc_watermark,
            final(self).last_user_key == old(self).last_user_key,
            final(self).ready == old(self).ready,
            final(self).ready_place == old(self).ready_place,
            final(self).run == old(self).run,
    {
        let ghost before = self.rest();
        let p = self.places[i];
        let n = self.sources[i].len();
        assert(p < n);
        let (k, v) = &self.sources[i][p];
        let r = (copy_bytes(k), copy_bytes(v));
        let key = copy_bytes(k);
        self.places[i] = p + 1;
        self.last_key = Some(key);
        proof {
            assert(before[i as int][0] == (r.0@, r.1@));
            let after = without_head(before, i as nat);
            assert forall|j: int| 0 <= j < before.len() implies #[trigger] self.rest()[j]
                == after[j] by {
                if j == i {
                    assert(before[j].drop_first() =~= raw_view(self.sources@[j]@).skip(p + 1));
                }
            }
            assert(self.rest() =~= after);
            lemma_total_without(before, i as nat);
        }
        r
    }

    /// Tells whether the next entry of a source repeats the key that was taken last.
    fn repeats(&self, i: usize) -> (r: bool)
        requires
            self.wf(),
            i < self.sources@.len(),
            self.places@[i as int] < self.sources@[i as int]@.len(),
        ensures
            r == (self.taken_last() == Some(self.rest()[i as int][0].0)),
    {
        let p = self.places[i];
        let k = &self.sources[i][p].0;
        assert(self.rest()[i as int][0].0 == k@);
        match &self.last_key {
            Some(last) => bytes_eq(last, k),
            None => false,
        }
    }

    fn pop_ready(&mut self) -> (r: (Vec<u8>, Vec<u8>))
        requires
            old(self).wf(),
            old(self).ready_place < old(self).ready@.len(),
        ensures
            final(self).wf(),
            old(self).to_come().len() > 0,
            old(self).to_come()[0] == (r.0@, r.1@),
            final(self).to_come() == old(self).to_come().drop_first(),
            final(self).at_end() == old(self).at_end(),
            final(self).gc_watermark == old(self).gc_watermark,
    {
        let p = self.ready_place;
        let n = self.ready.len();
        assert(p < n);
        let (k, v) = &self.ready[p];
        let r = (copy_bytes(k), copy_bytes(v));
        let ghost before = *self;
        self.ready_place = p + 1;
        proof {
            assert(before.ready_entries().drop_first() =~= self.ready_entries());
            assert(before.ready_entries()[0] == (r.0@, r.1@));
            assert(self.rest() =~= before.rest());
            assert(before.to_come().drop_first() =~= self.to_come());
        }
        r
    }

    /// The next entry.
    pub fn next_entry(&mut self) -> (r: Option<(Vec<u8>, Vec<u8>)>)
        requires
            old(self).wf(),
        ensures
            final(self).wf(),
            final(self).watermark() == old(self).watermark(),
            final(self).at_end() == old(self).at_end(),
            match r {
                Some(e) => {
                    &&& old(self).to_come().len() > 0
                    &&& old(self).to_come()[0] == (e.0@, e.1@)
                    &&& final(self).to_come() == old(self).to_come().drop_first()
                },
                None => {
                    &&& old(self).to_come().len() == 0
                    &&& final(self).to_come().len() == 0
                    &&& final(self).buffered() == old(self).at_end()
                },
            },
    {
        match self.gc_watermark {
            None => self.next_newest(),
            Some(w) => self.next_collected(w),
        }
    }

    fn next_newest(&mut self) -> (r: Option<(Vec<u8>, Vec<u8>)>)
        requires
            old(self).wf(),
            old(self).gc_watermark is None,
        ensures
            final(self).wf(),
            final(self).gc_watermark is None,
            match r {
                Some(e) => {
                    &&& old(self).to_come().len() > 0
                    &&& old(self).to_come()[0] == (e.0@, e.1@)
                    &&& final(self).to_come() == old(self).to_come().drop_first()
                },
                None => {
                    &&& old(self).to_come().len() == 0
                    &&& final(self).to_come().len() == 0
                },
            },
    {
        let ghost want = self.to_come();
        loop
            invariant
                self.wf(),
                self.gc_watermark is None,
                want == self.to_come(),
                want == old(self).to_come(),
            decreases total(self.rest()),
        {
            let i = match self.peek() {
                Some(i) => i,
                None => {
                    return None;
                },
            };
            let ghost before = *self;
            let repeated = self.repeats(i);
            let (k, v) = self.take_head(i);
            let user = user_key_of(&k);
            let same = match &self.last_user_key {
                Some(last) => bytes_eq(&user, last),
                None => false,
            };
            let ghost e: RawEntry = (k@, v@);
            proof {
                let all = merged(before.rest());
                assert(before.rest()[i as int][0] == all[0]);
                assert(all[0] == e);
                assert(all.drop_first() =~= merged(self.rest()));
                if repeated {
                    assert(self.left() == before.left());
                } else {
                    assert(before.left()[0] == e);
                    assert(before.left().drop_first() =~= self.left());
                }
            }
            if !repeated && !same {
                self.last_user_key = Some(user);
                proof {
                    assert(self.left() == before.left().drop_first());
                    assert(want.drop_first() =~= self.to_come());
                }
                return Some((k, v));
            }
        }
    }

    fn next_collected(&mut self, w: u64) -> (r: Option<(Vec<u8>, Vec<u8>)>)
        requires
            old(self).wf(),
            old(self).gc_watermark == Some(w),
        ensures
            final(self).wf(),
            final(self).gc_watermark == Some(w),
            final(self).at_end() == old(self).at_end(),
            match r {
                Some(e) => {
                    &&& old(self).to_come().len() > 0
                    &&& old(self).to_come()[0] == (e.0@, e.1@)
                    &&& final(self).to_come() == old(self).to_come().drop_first()
                },
                None => {
                    &&& old(self).to_come().len() == 0
                    &&& final(self).to_come().len() == 0
                    &&& final(self).buffered() == old(self).at_end()
                },
            },
    {
        if self.ready_place < self.ready.len() {
            return Some(self.pop_ready());
        }
        let ghost want = self.to_come();
        let ghost end = self.at_end();
        loop
            invariant
                self.wf(),
                self.gc_watermark == Some(w),
                self.ready_place == self.ready@.len(),
                want == self.to_come(),
                end == self.at_end(),
                want == old(self).to_come(),
                end == old(self).at_end(),
            decreases total(self.rest()),
        {
            let i = match self.peek() {
                Some(i) => i,
                None => {
                    proof {
                        assert(self.ready_entries() =~= Seq::<RawEntry>::empty());
                        assert(self.buffered() =~= end);
                    }
                    return None;
                },
            };
            let ghost before = *self;
            let ghost all = merged(before.rest());
            if self.repeats(i) {
                let (k, v) = self.take_head(i);
                proof {
                    assert(all[0] == (k@, v@));
                    assert(all.drop_first() =~= merged(self.rest()));
                    assert(self.left() == before.left());
                }
                continue;
            }
            let ghost es = before.left();
            let p = self.places[i];
            let new_key = self.run.len() > 0 && !bytes_eq(
                &user_key_of(&self.run[0].0),
                &user_key_of(&self.sources[i][p].0),
            );
            proof {
                assert(before.rest()[i as int][0] == all[0]);
                assert(es[0] == all[0]);
                assert(es[0].0 == self.sources@[i as int]@[p as int].0@);
                if self.run@.len() > 0 {
                    assert(raw_view(self.run@)[0].0 == self.run@[0].0@);
                }
                assert(new_key == !goes_on(raw_view(self.run@), es[0]));
                assert(self.ready_entries() =~= Seq::<RawEntry>::empty());
            }
            if new_key {
                self.ready = keep_versions(&self.run, w);
                self.ready_place = 0;
                self.run = Vec::new();
                proof {
                    let run = raw_view(before.run@);
                    let none = raw_view(self.run@);
                    assert(none =~= Seq::<RawEntry>::empty());
                    assert(self.rest() =~= before.rest());
                    assert(self.ready_entries() =~= kept(run, w, false));
                    assert(none.push(es[0]) =~= seq![es[0]]);
                    assert(before.to_come() =~= collected(es, w, run));
                    assert(self.to_come() =~= before.to_come());
                    assert(run.len() > 0);
                    assert(kept(run, w, false).len() > 0);
                }
                return Some(self.pop_ready());
            }
            let (k, v) = self.take_head(i);
            let ghost e: RawEntry = (k@, v@);
            self.run.push((k, v));
            proof {
                let run = raw_view(before.run@);
                assert(all[0] == e);
                assert(all.drop_first() =~= merged(self.rest()));
                assert(es.drop_first() =~= self.left());
                assert(raw_view(self.run@) =~= run.push(e));
                assert(self.rest() =~= self.rest());
                assert(before.to_come() =~= collected(es, w, run));
                assert(self.to_come() =~= collected(self.left(), w, run.push(e)));
            }
        }
    }

    /// Gives out what is buffered.
    pub fn flush_buffer(&mut self) -> (r: Vec<(Vec<u8>, Vec<u8>)>)
        requires
            old(self).wf(),
        ensures
            final(self).wf(),
            final(self).watermark() == old(self).watermark(),
            final(self).rest() == old(self).rest(),
            final(self).buffered() == Seq::<RawEntry>::empty(),
            raw_view(r@) == old(self).buffered(),
    {
        let mut out: Vec<(Vec<u8>, Vec<u8>)> = Vec::new();
        let w = match self.gc_watermark {
            Some(w) => w,
            None => {
                assert(raw_view(out@) =~= Seq::<RawEntry>::empty());
                return out;
            },
        };
        let ghost all = raw_view(self.ready@);
        let ghost start = self.ready_place as int;
        let mut i = self.ready_place;
        proof {
            assert(raw_view(out@) =~= all.subrange(start, i as int));
        }
        while i < self.ready.len()
            invariant
                start <= i <= self.ready@.len(),
                all == raw_view(self.ready@),
                raw_view(out@) == all.subrange(start, i as int),
                0 <= start,
            decreases self.ready@.len() - i,
        {
            let (k, v) = &self.ready[i];
            let ghost before = raw_view(out@);
            out.push((copy_bytes(k), copy_bytes(v)));
            proof {
                assert(raw_view(out@) =~= before.push(all[i as int]));
                assert(all.subrange(start, i + 1) =~= all.subrange(start, i as int).push(
                    all[i as int],
                ));
            }
            i += 1;
        }
        let mut tail = keep_versions(&self.run, w);
        let ghost head0 = out@;
        let ghost tail0 = tail@;
        out.append(&mut tail);
        proof {
            assert(out@ =~= head0 + tail0);
            assert(raw_view(out@) =~= raw_view(head0) + raw_view(tail0));
            assert(all.subrange(start, i as int) =~= self.ready_entries());
        }
        let ghost rest = self.rest();
        self.ready = Vec::new();
        self.ready_place = 0;
        self.run = Vec::new();
        proof {
            assert(self.rest() =~= rest);
            assert(self.ready_entries() =~= Seq::<RawEntry>::empty());
            assert(raw_view(self.run@) =~= Seq::<RawEntry>::empty());
            assert(self.buffered() =~= Seq::<RawEntry>::empty());
        }
        out
    }
}

/// Tells whether some source holds an entry.
pub open spec fn held_by_some(srcs: Seq<Seq<RawEntry>>, e: RawEntry) -> bool {
    exists|i: int| 0 <= i < srcs.len() && (#[trigger] srcs[i]).contains(e)
}

/// A merge has exactly the entries of its sources.
pub proof fn law_merge_has_all(srcs: Seq<Seq<RawEntry>>, e: RawEntry)
    ensures
        merged(srcs).contains(e) == held_by_some(srcs, e),
    decreases total(srcs),
{
    lemma_min_head(srcs, srcs.len());
    match min_head(srcs, srcs.len()) {
        None => {
            if held_by_some(srcs, e) {
                let i = choose|i: int| 0 <= i < srcs.len() && (#[trigger] srcs[i]).contains(e);
                assert(srcs[i].len() == 0);
            }
        },
        Some(i) => {
            lemma_total_without(srcs, i);
            let rest = without_head(srcs, i);
            law_merge_has_all(rest, e);
            let h = srcs[i as int][0];
            let tail = merged(rest);
            let all = seq![h] + tail;
            if merged(srcs).contains(e) {
                let p = choose|p: int| 0 <= p < all.len() && all[p] == e;
                if p == 0 {
                    assert(srcs[i as int].contains(e));
                } else {
                    assert(tail[p - 1] == e);
                    let j = choose|j: int| 0 <= j < rest.len() && (#[trigger] rest[j]).contains(e);
                    if j == i {
                        let q = choose|q: int| 0 <= q < rest[j].len() && rest[j][q] == e;
                        assert(srcs[j][q + 1] == e);
                    }
                    assert(srcs[j].contains(e));
                }
            }
            if held_by_some(srcs, e) {
                let j = choose|j: int| 0 <= j < srcs.len() && (#[trigger] srcs[j]).contains(e);
                let q = choose|q: int| 0 <= q < srcs[j].len() && srcs[j][q] == e;
                if j == i && q == 0 {
                    assert(all[0] == e);
                } else {
                    if j == i {
                        assert(rest[j][q - 1] == e);
                    } else {
                        assert(rest[j] == srcs[j]);
                    }
                    assert(rest[j].contains(e));
                    assert(tail.contains(e));
                    let p = choose|p: int| 0 <= p < tail.len() && tail[p] == e;
                    assert(all[p + 1] == e);
                }
            }
        },
    }
}

/// Tells whether entries with the same key are the same.
pub open spec fn agreeing_entries(es: Seq<RawEntry>) -> bool {
    forall|i: int, j: int|
        0 <= i < es.len() && 0 <= j < es.len() && (#[trigger] es[i]).0 == (#[trigger] es[j]).0
            ==> es[i] == es[j]
}

/// Tells whether each source comes in ascending order, and entries of two sources with the same key
/// are the same.
pub open spec fn sources_sorted(srcs: Seq<Seq<RawEntry>>) -> bool {
    &&& forall|i: int| 0 <= i < srcs.len() ==> raw_sorted(#[trigger] srcs[i])
    &&& forall|i: int, j: int, p: int, q: int|
        0 <= i < srcs.len() && 0 <= j < srcs.len() && 0 <= p < srcs[i].len() && 0 <= q
            < srcs[j].len() && (#[trigger] srcs[i][p]).0 == (#[trigger] srcs[j][q]).0
            ==> srcs[i][p] == srcs[j][q]
}

/// Tells whether no key comes after a larger one.
pub open spec fn never_falling(es: Seq<RawEntry>) -> bool {
    forall|i: int, j: int|
        0 <= i < j < es.len() ==> lex_le((#[trigger] es[i]).0, (#[trigger] es[j]).0)
}

proof fn lemma_merge_rises(srcs: Seq<Seq<RawEntry>>)
    requires
        forall|i: int| 0 <= i < srcs.len() ==> raw_sorted(#[trigger] srcs[i]),
    ensures
        never_falling(merged(srcs)),
    decreases total(srcs),
{
    lemma_min_head(srcs, srcs.len());
    match min_head(srcs, srcs.len()) {
        None => {},
        Some(i) => {
            lemma_total_without(srcs, i);
            let rest = without_head(srcs, i);
            let h = srcs[i as int][0];
            assert forall|j: int| 0 <= j < rest.len() implies raw_sorted(#[trigger] rest[j]) by {
                assert(raw_sorted(srcs[j]));
            }
            lemma_merge_rises(rest);
            let tail = merged(rest);
            let all = seq![h] + tail;
            assert forall|p: int| 0 <= p < tail.len() implies lex_le(
                h.0,
                (#[trigger] tail[p]).0,
            ) by {
                let e = tail[p];
                law_merge_has_all(rest, e);
                assert(tail.contains(e));
                let j = choose|j: int| 0 <= j < rest.len() && (#[trigger] rest[j]).contains(e);
                let q = choose|q: int| 0 <= q < rest[j].len() && rest[j][q] == e;
                assert(raw_sorted(srcs[j]));
                if j == i {
                    assert(srcs[j][q + 1] == e);
                    assert(lex_lt(srcs[j][0].0, srcs[j][q + 1].0));
                } else {
                    assert(srcs[j][q] == e);
                    assert(lex_le(h.0, srcs[j][0].0));
                    if q > 0 {
                        assert(lex_lt(srcs[j][0].0, srcs[j][q].0));
                        lemma_lex_le_lt(h.0, srcs[j][0].0, e.0);
                    }
                }
            }
            assert forall|p: int, q: int| 0 <= p < q < all.len() implies lex_le(
                (#[trigger] all[p]).0,
                (#[trigger] all[q]).0,
            ) by {
                assert(all[q] == tail[q - 1]);
                if p > 0 {
                    assert(all[p] == tail[p - 1]);
                }
            }
        },
    }
}

proof fn lemma_once_subset(es: Seq<RawEntry>, last: Option<Seq<u8>>, x: RawEntry)
    requires
        once_from(es, last).contains(x),
    ensures
        es.contains(x),
        last != Some(x.0) || !never_falling(es) || !all_from(es, last),
    decreases es.len(),
{
    let out = once_from(es, last);
    let i = choose|i: int| 0 <= i < out.len() && out[i] == x;
    if es.len() > 0 {
        let t = es.drop_first();
        if last == Some(es[0].0) {
            lemma_once_subset(t, last, x);
            let p = choose|p: int| 0 <= p < t.len() && t[p] == x;
            assert(es[p + 1] == x);
            if never_falling(es) && all_from(es, last) {
                lemma_tail_rises(es);
            }
        } else if i == 0 {
            assert(es[0] == x);
        } else {
            let rest = once_from(t, Some(es[0].0));
            assert(rest[i - 1] == x);
            lemma_once_subset(t, Some(es[0].0), x);
            let p = choose|p: int| 0 <= p < t.len() && t[p] == x;
            assert(es[p + 1] == x);
            if never_falling(es) && all_from(es, last) && last == Some(x.0) {
                lemma_tail_rises(es);
                assert(lex_le(es[0].0, es[p + 1].0));
                assert(lex_le(x.0, es[0].0));
                if es[0].0 != x.0 {
                    lemma_lex_asymmetric(es[0].0, x.0);
                }
            }
        }
    }
}

/// Tells whether no key comes before `last`.
spec fn all_from(es: Seq<RawEntry>, last: Option<Seq<u8>>) -> bool {
    last matches Some(k) ==> forall|i: int| 0 <= i < es.len() ==> lex_le(k, (#[trigger] es[i]).0)
}

proof fn lemma_tail_rises(es: Seq<RawEntry>)
    requires
        never_falling(es),
        es.len() > 0,
    ensures
        never_falling(es.drop_first()),
        all_from(es.drop_first(), Some(es[0].0)),
{
    let t = es.drop_first();
    assert forall|i: int, j: int| 0 <= i < j < t.len() implies lex_le(
        (#[trigger] t[i]).0,
        (#[trigger] t[j]).0,
    ) by {
        assert(t[i] == es[i + 1] && t[j] == es[j + 1]);
    }
    assert forall|i: int| 0 <= i < t.len() implies lex_le(es[0].0, (#[trigger] t[i]).0) by {
        assert(t[i] == es[i + 1]);
    }
}

proof fn lemma_once_sorted(es: Seq<RawEntry>, last: Option<Seq<u8>>)
    requires
        never_falling(es),
        all_from(es, last),
    ensures
        raw_sorted(once_from(es, last)),
    decreases es.len(),
{
    if es.len() > 0 {
        let t = es.drop_first();
        lemma_tail_rises(es);
        if last == Some(es[0].0) {
            lemma_once_sorted(t, last);
        } else {
            let h = es[0];
            let rest = once_from(t, Some(h.0));
            lemma_once_sorted(t, Some(h.0));
            let all = seq![h] + rest;
            assert forall|p: int, q: int| 0 <= p < q < all.len() implies lex_lt(
                (#[trigger] all[p]).0,
                (#[trigger] all[q]).0,
            ) by {
                assert(all[q] == rest[q - 1]);
                if p > 0 {
                    assert(all[p] == rest[p - 1]);
                } else {
                    let x = rest[q - 1];
                    assert(rest.contains(x));
                    lemma_once_subset(t, Some(h.0), x);
                    let i = choose|i: int| 0 <= i < t.len() && t[i] == x;
                    assert(lex_le(h.0, t[i].0));
                }
            }
        }
    }
}

proof fn lemma_once_keeps(es: Seq<RawEntry>, last: Option<Seq<u8>>, x: RawEntry)
    requires
        agreeing_entries(es),
        es.contains(x),
        last != Some(x.0),
    ensures
        once_from(es, last).contains(x),
    decreases es.len(),
{
    let p = choose|p: int| 0 <= p < es.len() && es[p] == x;
    let t = es.drop_first();
    let out = once_from(es, last);
    if es[0].0 == x.0 {
        assert(es[0] == es[p]);
        assert(out[0] == x);
    } else {
        assert(t[p - 1] == x);
        assert(agreeing_entries(t)) by {
            assert forall|i: int, j: int|
                0 <= i < t.len() && 0 <= j < t.len() && (#[trigger] t[i]).0 == (#[trigger] t[j]).0 implies
                t[i] == t[j] by {
                assert(t[i] == es[i + 1] && t[j] == es[j + 1]);
            }
        }
        if last == Some(es[0].0) {
            lemma_once_keeps(t, last, x);
        } else {
            lemma_once_keeps(t, Some(es[0].0), x);
            let rest = once_from(t, Some(es[0].0));
            let q = choose|q: int| 0 <= q < rest.len() && rest[q] == x;
            assert(out[q + 1] == x);
        }
    }
}

/// A merge of sources that come in ascending order does too, with each key once, and has exactly
/// their entries.
pub proof fn law_merge_sorted(srcs: Seq<Seq<RawEntry>>)
    requires
        sources_sorted(srcs),
    ensures
        raw_sorted(joined(srcs)),
        forall|e: RawEntry| #[trigger] joined(srcs).contains(e) == held_by_some(srcs, e),
{
    let all = merged(srcs);
    lemma_merge_rises(srcs);
    lemma_once_sorted(all, None);
    assert(agreeing_entries(all)) by {
        assert forall|i: int, j: int|
            0 <= i < all.len() && 0 <= j < all.len() && (#[trigger] all[i]).0 == (#[trigger] all[j]).0 implies
            all[i] == all[j] by {
            assert(all.contains(all[i]) && all.contains(all[j]));
            law_merge_has_all(srcs, all[i]);
            law_merge_has_all(srcs, all[j]);
            let a = choose|a: int| 0 <= a < srcs.len() && (#[trigger] srcs[a]).contains(all[i]);
            let b = choose|b: int| 0 <= b < srcs.len() && (#[trigger] srcs[b]).contains(all[j]);
            let p = choose|p: int| 0 <= p < srcs[a].len() && srcs[a][p] == all[i];
            let q = choose|q: int| 0 <= q < srcs[b].len() && srcs[b][q] == all[j];
            assert(srcs[a][p] == srcs[b][q]);
        }
    }
    assert forall|e: RawEntry| #[trigger] joined(srcs).contains(e) == held_by_some(srcs, e) by {
        law_merge_has_all(srcs, e);
        if joined(srcs).contains(e) {
            lemma_once_subset(all, None, e);
        }
        if held_by_some(srcs, e) {
            lemma_once_keeps(all, None, e);
        }
    }
}

/// Tells whether an entry is a version of a user key that a reader at a sequence number sees.
pub open spec fn visible(e: RawEntry, key: Seq<u8>, at: u64) -> bool {
    user_of(e.0) == key && seq_of(e.0) <= at
}

/// Tells whether a reader of a user key at a sequence number gets `r` from entries.
pub open spec fn reads(es: Seq<RawEntry>, key: Seq<u8>, at: u64, r: Option<RawEntry>) -> bool {
    match r {
        Some(e) => {
            &&& es.contains(e)
            &&& visible(e, key, at)
            &&& forall|i: int|
                0 <= i < es.len() && visible(#[trigger] es[i], key, at) ==> seq_of(es[i].0)
                    <= seq_of(e.0)
        },
        None => forall|i: int| 0 <= i < es.len() ==> !visible(#[trigger] es[i], key, at),
    }
}

/// Tells whether all keys are those of versions.
pub open spec fn whole_keys(es: Seq<RawEntry>) -> bool {
    forall|i: int| 0 <= i < es.len() ==> is_key((#[trigger] es[i]).0)
}

proof fn lemma_kept_subset(run: Seq<RawEntry>, w: u64, found: bool, i: int)
    requires
        0 <= i < kept(run, w, found).len(),
    ensures
        run.contains(kept(run, w, found)[i]),
    decreases run.len(),
{
    let e = run[0];
    let below = seq_of(e.0) <= w;
    let rest = kept(run.drop_first(), w, found || below);
    let stays = !below || !found || is_tombstone(e.1);
    if stays && i == 0 {
        assert(run[0] == kept(run, w, found)[0]);
    } else {
        let k = if stays {
            i - 1
        } else {
            i
        };
        assert(kept(run, w, found)[i] == rest[k]);
        lemma_kept_subset(run.drop_first(), w, found || below, k);
        let x = rest[k];
        let p = choose|p: int| 0 <= p < run.drop_first().len() && run.drop_first()[p] == x;
        assert(run[p + 1] == x);
    }
}

proof fn lemma_kept_keeps(run: Seq<RawEntry>, w: u64, found: bool, j: int)
    requires
        0 <= j < run.len(),
        seq_of(run[j].0) > w || is_tombstone(run[j].1) || (!found && forall|i: int|
            0 <= i < j ==> seq_of((#[trigger] run[i]).0) > w),
    ensures
        kept(run, w, found).contains(run[j]),
    decreases run.len(),
{
    let e = run[0];
    let below = seq_of(e.0) <= w;
    let rest = kept(run.drop_first(), w, found || below);
    if j == 0 {
        assert(kept(run, w, found)[0] == e);
    } else {
        let t = run.drop_first();
        assert(t[j - 1] == run[j]);
        if seq_of(run[j].0) <= w && !is_tombstone(run[j].1) {
            assert(seq_of(run[0].0) > w);
            assert forall|i: int| 0 <= i < j - 1 implies seq_of((#[trigger] t[i]).0) > w by {
                assert(t[i] == run[i + 1]);
            }
        }
        lemma_kept_keeps(t, w, found || below, j - 1);
        let p = choose|p: int| 0 <= p < rest.len() && rest[p] == run[j];
        if !below || !found || is_tombstone(e.1) {
            assert(kept(run, w, found)[p + 1] == run[j]);
        } else {
            assert(kept(run, w, found)[p] == run[j]);
        }
    }
}

/// Of what stays of a run, what is at or below the watermark and no delete is the first such.
proof fn lemma_kept_only(run: Seq<RawEntry>, w: u64, found: bool, i: int) -> (j: int)
    requires
        0 <= i < kept(run, w, found).len(),
        seq_of(kept(run, w, found)[i].0) <= w,
        !is_tombstone(kept(run, w, found)[i].1),
    ensures
        0 <= j < run.len(),
        run[j] == kept(run, w, found)[i],
        !found,
        forall|q: int| 0 <= q < j ==> seq_of((#[trigger] run[q]).0) > w,
    decreases run.len(),
{
    let e = run[0];
    let t = run.drop_first();
    let below = seq_of(e.0) <= w;
    let rest = kept(t, w, found || below);
    let stays = !below || !found || is_tombstone(e.1);
    if stays && i == 0 {
        0
    } else {
        let k = if stays {
            i - 1
        } else {
            i
        };
        assert(kept(run, w, found)[i] == rest[k]);
        let j = lemma_kept_only(t, w, found || below, k);
        assert forall|q: int| 0 <= q < j + 1 implies seq_of((#[trigger] run[q]).0) > w by {
            if q > 0 {
                assert(t[q - 1] == run[q]);
            }
        }
        j + 1
    }
}

/// What comes of a run that has been seen and of entries after it.
spec fn all_collected(es: Seq<RawEntry>, w: u64, run: Seq<RawEntry>) -> Seq<RawEntry> {
    collected(es, w, run) + last_collected(es, w, run)
}

proof fn lemma_collected_subset(es: Seq<RawEntry>, w: u64, run: Seq<RawEntry>, x: RawEntry)
    requires
        all_collected(es, w, run).contains(x),
    ensures
        run.contains(x) || es.contains(x),
    decreases es.len(),
{
    let all = all_collected(es, w, run);
    let i = choose|i: int| 0 <= i < all.len() && all[i] == x;
    if es.len() == 0 {
        lemma_kept_subset(run, w, false, i);
    } else {
        let t = es.drop_first();
        if goes_on(run, es[0]) {
            let run2 = run.push(es[0]);
            lemma_collected_subset(t, w, run2, x);
            if run2.contains(x) {
                let p = choose|p: int| 0 <= p < run2.len() && run2[p] == x;
                if p == run.len() {
                    assert(es[0] == x);
                } else {
                    assert(run[p] == x);
                }
            } else {
                let p = choose|p: int| 0 <= p < t.len() && t[p] == x;
                assert(es[p + 1] == x);
            }
        } else {
            let k = kept(run, w, false);
            let rest = all_collected(t, w, seq![es[0]]);
            assert(all =~= k + rest);
            if i < k.len() {
                lemma_kept_subset(run, w, false, i);
            } else {
                assert(rest[i - k.len()] == x);
                lemma_collected_subset(t, w, seq![es[0]], x);
                if t.contains(x) {
                    let p = choose|p: int| 0 <= p < t.len() && t[p] == x;
                    assert(es[p + 1] == x);
                } else {
                    assert(es[0] == x);
                }
            }
        }
    }
}

/// Tells whether no version of the user key of an entry that is at or below a sequence number is
/// newer than the entry.
pub open spec fn newest_below(es: Seq<RawEntry>, w: u64, x: RawEntry) -> bool {
    forall|i: int|
        0 <= i < es.len() && visible(#[trigger] es[i], user_of(x.0), w) ==> seq_of(es[i].0)
            <= seq_of(x.0)
}

/// Tells whether an entry stays whatever run it is in: it is above the watermark, or a delete, or
/// no version of its user key among these that is at or below the watermark is newer.
spec fn must_stay(es: Seq<RawEntry>, w: u64, x: RawEntry) -> bool {
    seq_of(x.0) > w || is_tombstone(x.1) || newest_below(es, w, x)
}

proof fn lemma_run_stays(run: Seq<RawEntry>, w: u64, x: RawEntry)
    requires
        run.contains(x),
        raw_sorted(run),
        whole_keys(run),
        forall|i: int|
            0 <= i < run.len() ==> user_of((#[trigger] run[i]).0) == user_of(run[0].0),
        must_stay(run, w, x),
    ensures
        kept(run, w, false).contains(x),
{
    let j = choose|j: int| 0 <= j < run.len() && run[j] == x;
    if seq_of(x.0) <= w && !is_tombstone(x.1) {
        assert forall|i: int| 0 <= i < j implies seq_of((#[trigger] run[i]).0) > w by {
            let e = run[i];
            assert(lex_lt(e.0, run[j].0));
            lemma_newer_first(e.0, x.0);
            if seq_of(e.0) <= w {
                assert(visible(e, user_of(x.0), w)) by {
                    assert(user_of(run[j].0) == user_of(run[0].0));
                }
            }
        }
    }
    lemma_kept_keeps(run, w, false, j);
}

/// A version of a user key comes before or after those of another user key, as the user keys do.
pub proof fn lemma_user_order(x: Seq<u8>, y: Seq<u8>)
    requires
        is_key(x),
        is_key(y),
        user_of(x) != user_of(y),
    ensures
        lex_lt(x, y) == lex_lt(user_of(x), user_of(y)),
        lex_lt(y, x) == lex_lt(user_of(y), user_of(x)),
{
    law_key_bytes_round_trip(x);
    law_key_bytes_round_trip(y);
    law_key_order((user_part(x), seq_part(x)), (user_part(y), seq_part(y)));
    law_key_order((user_part(y), seq_part(y)), (user_part(x), seq_part(x)));
}

/// A key between two versions of a user key is a version of it.
pub proof fn lemma_between(x: Seq<u8>, y: Seq<u8>, z: Seq<u8>)
    requires
        is_key(x),
        is_key(y),
        is_key(z),
        lex_le(x, y),
        lex_le(y, z),
        user_of(x) == user_of(z),
    ensures
        user_of(y) == user_of(x),
{
    if user_of(y) != user_of(x) {
        lemma_user_order(x, y);
        lemma_user_order(y, z);
        lemma_lex_asymmetric(user_of(x), user_of(y));
    }
}

/// Of two keys with the same user key, the smaller has the higher sequence number.
proof fn lemma_newer_first(a: Seq<u8>, b: Seq<u8>)
    requires
        lex_lt(a, b),
        is_key(a),
        is_key(b),
        user_of(a) == user_of(b),
    ensures
        seq_of(a) > seq_of(b),
{
    let x = (user_part(a), seq_part(a));
    let y = (user_part(b), seq_part(b));
    law_key_bytes_round_trip(a);
    law_key_bytes_round_trip(b);
    law_key_order(x, y);
    lemma_lex_irreflexive(x.0);
}

proof fn lemma_collected_keeps(es: Seq<RawEntry>, w: u64, run: Seq<RawEntry>, x: RawEntry)
    requires
        raw_sorted(run + es),
        whole_keys(run + es),
        forall|i: int|
            0 <= i < run.len() ==> user_of((#[trigger] run[i]).0) == user_of(run[0].0),
        (run + es).contains(x),
        must_stay(run + es, w, x),
    ensures
        all_collected(es, w, run).contains(x),
    decreases es.len(),
{
    let both = run + es;
    if es.len() == 0 {
        assert(both =~= run);
        lemma_run_stays(run, w, x);
        assert(all_collected(es, w, run) =~= kept(run, w, false));
    } else {
        let t = es.drop_first();
        if goes_on(run, es[0]) {
            let run2 = run.push(es[0]);
            assert(run2 + t =~= both);
            lemma_collected_keeps(t, w, run2, x);
        } else {
            let run2 = seq![es[0]];
            let k = kept(run, w, false);
            let rest = all_collected(t, w, run2);
            assert(all_collected(es, w, run) =~= k + rest);
            let j = choose|j: int| 0 <= j < both.len() && both[j] == x;
            if j < run.len() {
                assert(run[j] == x);
                assert forall|p: int, q: int| 0 <= p < q < run.len() implies lex_lt(
                    (#[trigger] run[p]).0,
                    (#[trigger] run[q]).0,
                ) by {
                    assert(both[p] == run[p] && both[q] == run[q]);
                }
                assert forall|p: int| 0 <= p < run.len() implies is_key(
                    (#[trigger] run[p]).0,
                ) by {
                    assert(both[p] == run[p]);
                }
                if seq_of(x.0) <= w && !is_tombstone(x.1) {
                    assert forall|i: int|
                        0 <= i < run.len() && visible(#[trigger] run[i], user_of(x.0), w) implies
                        seq_of(run[i].0) <= seq_of(x.0) by {
                        assert(both[i] == run[i]);
                    }
                }
                lemma_run_stays(run, w, x);
                let p = choose|p: int| 0 <= p < k.len() && k[p] == x;
                assert((k + rest)[p] == x);
            } else {
                let n = run.len() as int;
                let after = run2 + t;
                assert forall|p: int| 0 <= p < after.len() implies #[trigger] after[p] == both[n
                    + p] by {}
                assert(after[j - n] == x);
                assert forall|p: int, q: int| 0 <= p < q < after.len() implies lex_lt(
                    (#[trigger] after[p]).0,
                    (#[trigger] after[q]).0,
                ) by {
                    assert(lex_lt(both[n + p].0, both[n + q].0));
                }
                assert forall|p: int| 0 <= p < after.len() implies is_key(
                    (#[trigger] after[p]).0,
                ) by {
                    assert(is_key(both[n + p].0));
                }
                if seq_of(x.0) <= w && !is_tombstone(x.1) {
                    assert forall|i: int|
                        0 <= i < after.len() && visible(
                            #[trigger] after[i],
                            user_of(x.0),
                            w,
                        ) implies seq_of(after[i].0) <= seq_of(x.0) by {
                        assert(visible(both[n + i], user_of(x.0), w));
                    }
                }
                lemma_collected_keeps(t, w, run2, x);
                let p = choose|p: int| 0 <= p < rest.len() && rest[p] == x;
                assert((k + rest)[k.len() + p] == x);
            }
        }
    }
}

/// Dropping garbage changes nothing for a reader at or above the watermark.
pub proof fn law_gc_keeps_reads(
    es: Seq<RawEntry>,
    watermark: u64,
    key: Seq<u8>,
    at: u64,
    r: Option<RawEntry>,
)
    requires
        raw_sorted(es),
        whole_keys(es),
        at >= watermark,
        reads(es, key, at, r),
    ensures
        reads(without_garbage(es, watermark), key, at, r),
{
    let out = without_garbage(es, watermark);
    let none = Seq::<RawEntry>::empty();
    assert(out == all_collected(es, watermark, none));
    assert forall|i: int| 0 <= i < out.len() implies es.contains(#[trigger] out[i]) by {
        assert(out.contains(out[i]));
        lemma_collected_subset(es, watermark, none, out[i]);
    }
    match r {
        Some(e) => {
            assert(none + es =~= es);
            assert(must_stay(es, watermark, e)) by {
                if seq_of(e.0) <= watermark {
                    assert forall|i: int|
                        0 <= i < es.len() && visible(
                            #[trigger] es[i],
                            user_of(e.0),
                            watermark,
                        ) implies seq_of(es[i].0) <= seq_of(e.0) by {
                        assert(visible(es[i], key, at));
                    }
                }
            }
            lemma_collected_keeps(es, watermark, none, e);
            assert forall|i: int|
                0 <= i < out.len() && visible(#[trigger] out[i], key, at) implies seq_of(out[i].0)
                <= seq_of(e.0) by {
                let j = choose|j: int| 0 <= j < es.len() && es[j] == out[i];
                assert(visible(es[j], key, at));
            }
        },
        None => {
            assert forall|i: int| 0 <= i < out.len() implies !visible(
                #[trigger] out[i],
                key,
                at,
            ) by {
                let j = choose|j: int| 0 <= j < es.len() && es[j] == out[i];
                assert(!visible(es[j], key, at));
            }
        },
    }
}

/// What is at or below the watermark and no delete stays only where no newer such version is there.
proof fn lemma_collected_only(
    es: Seq<RawEntry>,
    w: u64,
    run: Seq<RawEntry>,
    x: RawEntry,
    m: int,
)
    requires
        raw_sorted(run + es),
        whole_keys(run + es),
        forall|i: int|
            0 <= i < run.len() ==> user_of((#[trigger] run[i]).0) == user_of(run[0].0),
        all_collected(es, w, run).contains(x),
        seq_of(x.0) <= w,
        !is_tombstone(x.1),
        0 <= m < (run + es).len(),
        visible((run + es)[m], user_of(x.0), w),
    ensures
        seq_of((run + es)[m].0) <= seq_of(x.0),
    decreases es.len(),
{
    let both = run + es;
    let all = all_collected(es, w, run);
    let i = choose|i: int| 0 <= i < all.len() && all[i] == x;
    if es.len() > 0 && goes_on(run, es[0]) {
        let t = es.drop_first();
        assert(run.push(es[0]) + t =~= both);
        lemma_collected_only(t, w, run.push(es[0]), x, m);
    } else {
        let k = kept(run, w, false);
        if es.len() == 0 {
            assert(all =~= k);
        }
        if i < k.len() {
            if es.len() > 0 {
                assert(all =~= k + all_collected(es.drop_first(), w, seq![es[0]]));
            }
            let j = lemma_kept_only(run, w, false, i);
            assert(both[j] == x);
            if m < j {
                assert(both[m] == run[m]);
            } else if m > j {
                lemma_newer_first(both[j].0, both[m].0);
            }
        } else {
            let t = es.drop_first();
            let run2 = seq![es[0]];
            let n = run.len() as int;
            let rest = all_collected(t, w, run2);
            let after = run2 + t;
            assert(all =~= k + rest);
            assert(rest[i - k.len()] == x);
            assert(after =~= es);
            lemma_sorted_split(run, es);
            assert forall|p: int| 0 <= p < after.len() implies is_key((#[trigger] after[p]).0) by {
                assert(both[n + p] == after[p]);
            }
            if m >= n {
                assert(after[m - n] == both[m]);
                lemma_collected_only(t, w, run2, x, m - n);
            } else {
                lemma_collected_subset(t, w, run2, x);
                assert(es.contains(x)) by {
                    if t.contains(x) {
                        let p = choose|p: int| 0 <= p < t.len() && t[p] == x;
                        assert(es[p + 1] == x);
                    } else {
                        assert(es[0] == x);
                    }
                }
                let p = choose|p: int| 0 <= p < es.len() && es[p] == x;
                assert(both[n + p] == x && both[n] == es[0]);
                assert(both[m] == run[m]);
                assert(lex_lt(both[m].0, both[n].0));
                assert(p > 0 ==> lex_lt(both[n].0, both[n + p].0));
                lemma_between(both[m].0, both[n].0, x.0);
            }
        }
    }
}

/// Every version above the watermark and every delete stays, of the others only the newest at or
/// below the watermark, and nothing is added.
pub proof fn law_gc_keeps(es: Seq<RawEntry>, watermark: u64, x: RawEntry)
    requires
        raw_sorted(es),
        whole_keys(es),
    ensures
        without_garbage(es, watermark).contains(x) == (es.contains(x) && (seq_of(x.0) > watermark
            || is_tombstone(x.1) || newest_below(es, watermark, x))),
{
    let none = Seq::<RawEntry>::empty();
    assert(none + es =~= es);
    if es.contains(x) && (seq_of(x.0) > watermark || is_tombstone(x.1) || newest_below(
        es,
        watermark,
        x,
    )) {
        lemma_collected_keeps(es, watermark, none, x);
    }
    if without_garbage(es, watermark).contains(x) {
        lemma_collected_subset(es, watermark, none, x);
        if seq_of(x.0) <= watermark && !is_tombstone(x.1) {
            assert forall|i: int|
                0 <= i < es.len() && visible(#[trigger] es[i], user_of(x.0), watermark) implies seq_of(
                es[i].0,
            ) <= seq_of(x.0) by {
                lemma_collected_only(es, watermark, none, x, i);
            }
        }
    }
}

proof fn lemma_newest_subset(es: Seq<RawEntry>, last: Option<Seq<u8>>, x: RawEntry)
    requires
        newest_only(es, last).contains(x),
    ensures
        es.contains(x),
    decreases es.len(),
{
    let all = newest_only(es, last);
    let i = choose|i: int| 0 <= i < all.len() && all[i] == x;
    if es.len() > 0 {
        let t = es.drop_first();
        let user = user_of(es[0].0);
        let next = if last == Some(user) {
            last
        } else {
            Some(user)
        };
        if last != Some(user) && i == 0 {
            assert(es[0] == x);
        } else {
            if last == Some(user) {
                assert(newest_only(t, next)[i] == x);
            } else {
                assert(newest_only(t, next)[i - 1] == x);
            }
            lemma_newest_subset(t, next, x);
            let p = choose|p: int| 0 <= p < t.len() && t[p] == x;
            assert(es[p + 1] == x);
        }
    }
}

proof fn lemma_newest_keeps(es: Seq<RawEntry>, last: Option<Seq<u8>>, j: int)
    requires
        0 <= j < es.len(),
        j == 0 ==> last != Some(user_of(es[0].0)),
        j > 0 ==> user_of(es[j - 1].0) != user_of(es[j].0),
    ensures
        newest_only(es, last).contains(es[j]),
    decreases es.len(),
{
    let all = newest_only(es, last);
    let user = user_of(es[0].0);
    if j == 0 {
        assert(all[0] == es[0]);
    } else {
        let t = es.drop_first();
        let next = if last == Some(user) {
            last
        } else {
            Some(user)
        };
        assert(t[j - 1] == es[j]);
        lemma_newest_keeps(t, next, j - 1);
        let rest = newest_only(t, next);
        let p = choose|p: int| 0 <= p < rest.len() && rest[p] == es[j];
        if last == Some(user) {
            assert(all[p] == es[j]);
        } else {
            assert(all[p + 1] == es[j]);
        }
    }
}

/// What is kept as the newest comes right after another user key.
proof fn lemma_newest_place(es: Seq<RawEntry>, last: Option<Seq<u8>>, x: RawEntry) -> (j: int)
    requires
        newest_only(es, last).contains(x),
    ensures
        0 <= j < es.len(),
        es[j] == x,
        j == 0 ==> last != Some(user_of(x.0)),
        j > 0 ==> user_of(es[j - 1].0) != user_of(x.0),
    decreases es.len(),
{
    let all = newest_only(es, last);
    let i = choose|i: int| 0 <= i < all.len() && all[i] == x;
    let t = es.drop_first();
    let user = user_of(es[0].0);
    if last != Some(user) && i == 0 {
        0
    } else {
        let next = if last == Some(user) {
            last
        } else {
            Some(user)
        };
        if last == Some(user) {
            assert(newest_only(t, next)[i] == x);
        } else {
            assert(newest_only(t, next)[i - 1] == x);
        }
        let j = lemma_newest_place(t, next, x);
        if j > 0 {
            assert(t[j - 1] == es[j]);
        }
        j + 1
    }
}

/// Of each user key the newest version is kept, and nothing else.
pub proof fn law_newest_keeps(es: Seq<RawEntry>, x: RawEntry)
    requires
        raw_sorted(es),
        whole_keys(es),
    ensures
        newest_only(es, None).contains(x) == (es.contains(x) && newest_below(es, u64::MAX, x)),
{
    if newest_only(es, None).contains(x) {
        let j = lemma_newest_place(es, None, x);
        assert forall|i: int|
            0 <= i < es.len() && visible(#[trigger] es[i], user_of(x.0), u64::MAX) implies seq_of(
            es[i].0,
        ) <= seq_of(x.0) by {
            if i < j {
                if i < j - 1 {
                    assert(lex_lt(es[i].0, es[j - 1].0));
                }
                assert(lex_lt(es[j - 1].0, es[j].0));
                lemma_between(es[i].0, es[j - 1].0, es[j].0);
            } else if i > j {
                lemma_newer_first(es[j].0, es[i].0);
            }
        }
    }
    if es.contains(x) && newest_below(es, u64::MAX, x) {
        let j = choose|j: int| 0 <= j < es.len() && es[j] == x;
        if j > 0 && user_of(es[j - 1].0) == user_of(x.0) {
            lemma_newer_first(es[j - 1].0, es[j].0);
            assert(visible(es[j - 1], user_of(x.0), u64::MAX));
        }
        lemma_newest_keeps(es, None, j);
    }
}

/// Keeping only the newest versions changes nothing for a reader that sees all versions.
pub proof fn law_newest_keeps_reads(es: Seq<RawEntry>, key: Seq<u8>, r: Option<RawEntry>)
    requires
        raw_sorted(es),
        whole_keys(es),
        reads(es, key, u64::MAX, r),
    ensures
        reads(newest_only(es, None), key, u64::MAX, r),
{
    let out = newest_only(es, None);
    assert forall|i: int| 0 <= i < out.len() implies es.contains(#[trigger] out[i]) by {
        assert(out.contains(out[i]));
        lemma_newest_subset(es, None, out[i]);
    }
    match r {
        Some(e) => {
            let j = choose|j: int| 0 <= j < es.len() && es[j] == e;
            if j > 0 && user_of(es[j - 1].0) == user_of(es[j].0) {
                assert(lex_lt(es[j - 1].0, es[j].0));
                lemma_newer_first(es[j - 1].0, es[j].0);
                assert(visible(es[j - 1], key, u64::MAX));
            }
            lemma_newest_keeps(es, None, j);
            assert forall|i: int|
                0 <= i < out.len() && visible(#[trigger] out[i], key, u64::MAX) implies seq_of(
                out[i].0,
            ) <= seq_of(e.0) by {
                let p = choose|p: int| 0 <= p < es.len() && es[p] == out[i];
                assert(visible(es[p], key, u64::MAX));
            }
        },
        None => {
            assert forall|i: int| 0 <= i < out.len() implies !visible(
                #[trigger] out[i],
                key,
                u64::MAX,
            ) by {
                let p = choose|p: int| 0 <= p < es.len() && es[p] == out[i];
                assert(!visible(es[p], key, u64::MAX));
            }
        },
    }
}

/// Tells whether all keys of some entries come before all keys of others.
spec fn all_before(a: Seq<RawEntry>, b: Seq<RawEntry>) -> bool {
    forall|i: int, j: int|
        0 <= i < a.len() && 0 <= j < b.len() ==> lex_lt((#[trigger] a[i]).0, (#[trigger] b[j]).0)
}

proof fn lemma_sorted_join(a: Seq<RawEntry>, b: Seq<RawEntry>)
    requires
        raw_sorted(a),
        raw_sorted(b),
        all_before(a, b),
    ensures
        raw_sorted(a + b),
{
    let c = a + b;
    assert forall|i: int, j: int| 0 <= i < j < c.len() implies lex_lt(
        (#[trigger] c[i]).0,
        (#[trigger] c[j]).0,
    ) by {
        if j < a.len() {
            assert(c[i] == a[i] && c[j] == a[j]);
        } else if i < a.len() {
            assert(c[i] == a[i] && c[j] == b[j - a.len()]);
        } else {
            assert(c[i] == b[i - a.len()] && c[j] == b[j - a.len()]);
        }
    }
}

proof fn lemma_sorted_split(a: Seq<RawEntry>, b: Seq<RawEntry>)
    requires
        raw_sorted(a + b),
    ensures
        raw_sorted(a),
        raw_sorted(b),
        all_before(a, b),
{
    let c = a + b;
    assert forall|i: int, j: int| 0 <= i < j < a.len() implies lex_lt(
        (#[trigger] a[i]).0,
        (#[trigger] a[j]).0,
    ) by {
        assert(c[i] == a[i] && c[j] == a[j]);
    }
    assert forall|i: int, j: int| 0 <= i < j < b.len() implies lex_lt(
        (#[trigger] b[i]).0,
        (#[trigger] b[j]).0,
    ) by {
        assert(c[i + a.len()] == b[i] && c[j + a.len()] == b[j]);
    }
    assert forall|i: int, j: int| 0 <= i < a.len() && 0 <= j < b.len() implies lex_lt(
        (#[trigger] a[i]).0,
        (#[trigger] b[j]).0,
    ) by {
        assert(c[i] == a[i] && c[j + a.len()] == b[j]);
    }
}

proof fn lemma_before_subset(
    a: Seq<RawEntry>,
    b: Seq<RawEntry>,
    c: Seq<RawEntry>,
    d: Seq<RawEntry>,
)
    requires
        all_before(a, b),
        forall|i: int| 0 <= i < c.len() ==> a.contains(#[trigger] c[i]),
        forall|i: int| 0 <= i < d.len() ==> b.contains(#[trigger] d[i]),
    ensures
        all_before(c, d),
{
    assert forall|i: int, j: int| 0 <= i < c.len() && 0 <= j < d.len() implies lex_lt(
        (#[trigger] c[i]).0,
        (#[trigger] d[j]).0,
    ) by {
        assert(a.contains(c[i]) && b.contains(d[j]));
        let p = choose|p: int| 0 <= p < a.len() && a[p] == c[i];
        let q = choose|q: int| 0 <= q < b.len() && b[q] == d[j];
        assert(lex_lt(a[p].0, b[q].0));
    }
}

proof fn lemma_kept_sorted(run: Seq<RawEntry>, w: u64, found: bool)
    requires
        raw_sorted(run),
    ensures
        raw_sorted(kept(run, w, found)),
    decreases run.len(),
{
    if run.len() > 0 {
        let e = run[0];
        let t = run.drop_first();
        let f = found || seq_of(e.0) <= w;
        let rest = kept(t, w, f);
        assert(seq![e] + t =~= run);
        lemma_sorted_split(seq![e], t);
        lemma_kept_sorted(t, w, f);
        assert forall|i: int| 0 <= i < rest.len() implies t.contains(#[trigger] rest[i]) by {
            lemma_kept_subset(t, w, f, i);
        }
        assert(seq![e].contains(seq![e][0]));
        lemma_before_subset(seq![e], t, seq![e], rest);
        lemma_sorted_join(seq![e], rest);
    }
}

proof fn lemma_collected_sorted(es: Seq<RawEntry>, w: u64, run: Seq<RawEntry>)
    requires
        raw_sorted(run + es),
    ensures
        raw_sorted(all_collected(es, w, run)),
    decreases es.len(),
{
    if es.len() == 0 {
        assert(run + es =~= run);
        lemma_kept_sorted(run, w, false);
        assert(all_collected(es, w, run) =~= kept(run, w, false));
    } else {
        let t = es.drop_first();
        if goes_on(run, es[0]) {
            assert(run.push(es[0]) + t =~= run + es);
            lemma_collected_sorted(t, w, run.push(es[0]));
        } else {
            let run2 = seq![es[0]];
            assert(run2 + t =~= es);
            lemma_sorted_split(run, es);
            lemma_collected_sorted(t, w, run2);
            lemma_kept_sorted(run, w, false);
            let k = kept(run, w, false);
            let rest = all_collected(t, w, run2);
            assert(all_collected(es, w, run) =~= k + rest);
            assert forall|i: int| 0 <= i < k.len() implies run.contains(#[trigger] k[i]) by {
                lemma_kept_subset(run, w, false, i);
            }
            assert forall|i: int| 0 <= i < rest.len() implies es.contains(#[trigger] rest[i]) by {
                let x = rest[i];
                assert(rest.contains(x));
                lemma_collected_subset(t, w, run2, x);
                if t.contains(x) {
                    let p = choose|p: int| 0 <= p < t.len() && t[p] == x;
                    assert(es[p + 1] == x);
                } else {
                    assert(es[0] == x);
                }
            }
            lemma_before_subset(run, es, k, rest);
            lemma_sorted_join(k, rest);
        }
    }
}

proof fn lemma_newest_sorted(es: Seq<RawEntry>, last: Option<Seq<u8>>)
    requires
        raw_sorted(es),
    ensures
        raw_sorted(newest_only(es, last)),
    decreases es.len(),
{
    if es.len() > 0 {
        let e = es[0];
        let t = es.drop_first();
        assert(seq![e] + t =~= es);
        lemma_sorted_split(seq![e], t);
        let user = user_of(e.0);
        if last == Some(user) {
            lemma_newest_sorted(t, last);
        } else {
            let rest = newest_only(t, Some(user));
            lemma_newest_sorted(t, Some(user));
            assert forall|i: int| 0 <= i < rest.len() implies t.contains(#[trigger] rest[i]) by {
                assert(rest.contains(rest[i]));
                lemma_newest_subset(t, Some(user), rest[i]);
            }
            assert(seq![e].contains(seq![e][0]));
            lemma_before_subset(seq![e], t, seq![e], rest);
            lemma_sorted_join(seq![e], rest);
        }
    }
}

/// What survives comes in ascending order, as the entries do.
pub proof fn law_surviving_sorted(es: Seq<RawEntry>, watermark: Option<u64>)
    requires
        raw_sorted(es),
    ensures
        raw_sorted(surviving(es, watermark)),
{
    match watermark {
        Some(w) => {
            assert(Seq::<RawEntry>::empty() + es =~= es);
            lemma_collected_sorted(es, w, Seq::empty());
        },
        None => {
            lemma_newest_sorted(es, None);
        },
    }
}

} // verus!
