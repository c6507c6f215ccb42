//! The memtable: writes held in memory, sorted, until they are flushed to a table file.
//!
//! Entries are ordered by user key and, for one user key, newest first. A lookup at a sequence
//! number sees the newest version at or before it.

use crate::codec::{
    bytes_eq, copy_bytes, lemma_lex_irreflexive, lemma_lex_total, lemma_lex_transitive,
};
use crossbeam_skiplist::SkipMap;
use vstd::prelude::*;

verus! {

/// A version of a key: its user key and its sequence number.
pub type KeyView = (Seq<u8>, u64);

/// What a version holds: a value, or nothing where it deletes the key.
pub type ValueView = Option<Seq<u8>>;

/// The versions that a table holds.
pub type Versions = Map<KeyView, ValueView>;

/// The value of a version: a put or a delete.
#[derive(Debug, Clone, PartialEq, Eq)]
pub enum MemtableValue {
    /// A put with its value.
    Put(Vec<u8>),
    /// A delete.
    Delete,
}

impl View for MemtableValue {
    type V = ValueView;

    open spec fn view(&self) -> ValueView {
        match self {
            MemtableValue::Put(v) => Some(v@),
            MemtableValue::Delete => None,
        }
    }
}

impl MemtableValue {
    /// The size of the value in bytes.
    pub fn size(&self) -> (r: usize)
        ensures
            r == (match self@ {
                Some(v) => v.len(),
                None => 0,
            }),
    {
        match self {
            MemtableValue::Put(v) => v.len(),
            MemtableValue::Delete => 0,
        }
    }

    /// Tells whether this is a delete.
    pub fn is_delete(&self) -> (r: bool)
        ensures
            r == (self@ is None),
    {
        match self {
            MemtableValue::Put(_) => false,
            MemtableValue::Delete => true,
        }
    }

    /// Copies the value.
    pub fn copy(&self) -> (r: Self)
        ensures
            r@ == self@,
    {
        match self {
            MemtableValue::Put(v) => MemtableValue::Put(copy_bytes(v)),
            MemtableValue::Delete => MemtableValue::Delete,
        }
    }
}

/// What a lookup finds.
#[derive(Debug, Clone, PartialEq, Eq)]
pub enum LookupResult {
    /// The key, with this value.
    Found(Vec<u8>),
    /// The key, deleted.
    Deleted,
    /// No version of the key.
    NotFound,
}

impl View for LookupResult {
    type V = Option<ValueView>;

    open spec fn view(&self) -> Option<ValueView> {
        match self {
            LookupResult::Found(v) => Some(Some(v@)),
            LookupResult::Deleted => Some(None),
            LookupResult::NotFound => None,
        }
    }
}

/// A user key with a sequence number.
#[derive(Debug, Clone, PartialEq, Eq)]
pub struct InternalKey {
    /// The key that the user gave.
    pub user_key: Vec<u8>,
    /// The sequence number; higher is newer.
    pub seq: u64,
}

impl View for InternalKey {
    type V = KeyView;

    open spec fn view(&self) -> KeyView {
        (self.user_key@, self.seq)
    }
}

/// The order of versions: by user key, then newest first.
pub open spec fn key_lt(a: KeyView, b: KeyView) -> bool {
    crate::codec::lex_lt(a.0, b.0) || (a.0 == b.0 && a.1 > b.1)
}

impl InternalKey {
    /// Makes an internal key.
    pub fn new(user_key: Vec<u8>, seq: u64) -> (r: Self)
        ensures
            r.user_key == user_key,
            r.seq == seq,
    {
        InternalKey { user_key, seq }
    }

    /// The size of the key in bytes, eight of them for the sequence number.
    pub fn size(&self) -> (r: usize)
        requires
            self.user_key.len() + 8 <= usize::MAX,
        ensures
            r == self.user_key.len() + 8,
    {
        self.user_key.len() + 8
    }

    /// Copies the key.
    pub fn copy(&self) -> (r: Self)
        ensures
            r@ == self@,
    {
        InternalKey { user_key: copy_bytes(&self.user_key), seq: self.seq }
    }

    /// Tells whether this version sorts before another.
    pub fn sorts_before(&self, other: &InternalKey) -> (r: bool)
        ensures
            r == key_lt(self@, other@),
    {
        if bytes_eq(&self.user_key, &other.user_key) {
            proof {
                lemma_lex_irreflexive(self.user_key@);
            }
            self.seq > other.seq
        } else {
            crate::codec::bytes_lt(&self.user_key, &other.user_key)
        }
    }
}

/// No version sorts before itself.
pub proof fn lemma_key_irreflexive(a: KeyView)
    ensures
        !key_lt(a, a),
{
    lemma_lex_irreflexive(a.0);
}

/// The order of versions is transitive.
pub proof fn lemma_key_transitive(a: KeyView, b: KeyView, c: KeyView)
    requires
        key_lt(a, b),
        key_lt(b, c),
    ensures
        key_lt(a, c),
{
    if a.0 != b.0 && b.0 != c.0 {
        lemma_lex_transitive(a.0, b.0, c.0);
    }
}

/// No two versions sort before each other.
pub proof fn lemma_key_asymmetric(a: KeyView, b: KeyView)
    requires
        key_lt(a, b),
    ensures
        !key_lt(b, a),
        a != b,
{
    if key_lt(b, a) {
        lemma_key_transitive(a, b, a);
    }
    lemma_key_irreflexive(a);
}

/// Default size at which a memtable is flushed (4 MB).
pub const DEFAULT_MEMTABLE_SIZE: usize = 4_194_304;

/// Settings of a memtable.
#[derive(Debug, Clone)]
pub struct MemtableConfig {
    /// Size in bytes at which the memtable should be flushed.
    pub max_size: usize,
}

impl Default for MemtableConfig {
    fn default() -> (r: Self)
        ensures
            r.max_size == 4 * 1024 * 1024,
    {
        MemtableConfig { max_size: DEFAULT_MEMTABLE_SIZE }
    }
}

/// The key under which the skip list holds a version. The second part counts down as the
/// sequence number counts up, so that newer versions come first.
pub type SlotKey = (Vec<u8>, u64);

/// What the skip list holds for a version.
pub type SlotValue = Option<Vec<u8>>;

/// A concurrent ordered map.
#[verifier::external_type_specification]
#[verifier::external_body]
#[verifier::reject_recursive_types(K)]
#[verifier::reject_recursive_types(V)]
pub struct ExSkipMap<K, V>(SkipMap<K, V>);

/// Slots with what they hold.
pub type Slots = Map<(Seq<u8>, u64), Option<Seq<u8>>>;

/// Tells whether a set is finite and has `n` members.
pub open spec fn counts(s: Set<(Seq<u8>, u64)>, n: nat) -> bool {
    s.finite() && s.len() == n
}

/// What a skip list holds: each user key and counted-down sequence number with its value.
pub uninterp spec fn skip_contents(m: SkipMap<SlotKey, SlotValue>) -> Slots;

/// The order of the skip list's keys: that of tuples and of byte vectors in std.
pub open spec fn slot_lt(a: (Seq<u8>, u64), b: (Seq<u8>, u64)) -> bool {
    crate::codec::lex_lt(a.0, b.0) || (a.0 == b.0 && a.1 < b.1)
}

/// The view of a slot's value.
pub open spec fn slot_value(v: SlotValue) -> ValueView {
    match v {
        Some(x) => Some(x@),
        None => None,
    }
}

/// `SkipMap::new` makes a map that holds nothing.
#[verifier::external_body]
fn skip_new() -> (m: SkipMap<SlotKey, SlotValue>)
    ensures
        skip_contents(m) == Slots::empty(),
{
    SkipMap::new()
}

/// `SkipMap::insert` puts an entry in, in the place of one with the same key where there is one.
#[verifier::external_body]
fn skip_insert(m: &mut SkipMap<SlotKey, SlotValue>, key: SlotKey, value: SlotValue)
    ensures
        skip_contents(*final(m)) == skip_contents(*old(m)).insert(
            (key.0@, key.1),
            slot_value(value),
        ),
{
    m.insert(key, value);
}

/// `SkipMap::len` counts the entries.
#[verifier::external_body]
fn skip_len(m: &SkipMap<SlotKey, SlotValue>) -> (r: usize)
    ensures
        counts(skip_contents(*m).dom(), r as nat),
{
    m.len()
}

/// `SkipMap::is_empty` tells whether there is no entry.
#[verifier::external_body]
fn skip_is_empty(m: &SkipMap<SlotKey, SlotValue>) -> (r: bool)
    ensures
        r == (skip_contents(*m) == Slots::empty()),
{
    m.is_empty()
}

/// Tells whether an entry is the first at or after a key, in the order of the keys.
pub open spec fn is_first_at_or_after(
    c: Slots,
    key: (Seq<u8>, u64),
    r: Option<(SlotKey, SlotValue)>,
) -> bool {
    match r {
        Some((k, v)) => {
            &&& c.contains_key((k.0@, k.1))
            &&& c[(k.0@, k.1)] == slot_value(v)
            &&& !slot_lt((k.0@, k.1), key)
            &&& forall|o: (Seq<u8>, u64)| #[trigger]
                c.contains_key(o) && !slot_lt(o, key) ==> !slot_lt(o, (k.0@, k.1))
        },
        None => forall|o: (Seq<u8>, u64)| #[trigger] c.contains_key(o) ==> slot_lt(o, key),
    }
}

/// `SkipMap::lower_bound` with an included bound gives the first entry at or after a key, in
/// the order of the keys.
#[verifier::external_body]
fn skip_lower_bound(m: &SkipMap<SlotKey, SlotValue>, key: &SlotKey) -> (r: Option<
    (SlotKey, SlotValue),
>)
    ensures
        is_first_at_or_after(skip_contents(*m), (key.0@, key.1), r),
{
    m.lower_bound(std::ops::Bound::Included(key)).map(|e| (e.key().clone(), e.value().clone()))
}

/// `SkipMap::iter` walks all entries in the order of their keys.
#[verifier::external_body]
fn skip_entries(m: &SkipMap<SlotKey, SlotValue>) -> (r: Vec<(SlotKey, SlotValue)>)
    ensures
        forall|i: int, j: int|
            0 <= i < j < r@.len() ==> slot_lt(
                ((#[trigger] r@[i]).0.0@, r@[i].0.1),
                ((#[trigger] r@[j]).0.0@, r@[j].0.1),
            ),
        forall|i: int|
            0 <= i < r@.len() ==> skip_contents(*m).contains_key(
                ((#[trigger] r@[i]).0.0@, r@[i].0.1),
            ) && skip_contents(*m)[(r@[i].0.0@, r@[i].0.1)] == slot_value(r@[i].1),
        forall|o: (Seq<u8>, u64)| #[trigger]
            skip_contents(*m).contains_key(o) ==> exists|i: int|
                0 <= i < r@.len() && o == ((#[trigger] r@[i]).0.0@, r@[i].0.1),
{
    m.iter().map(|e| (e.key().clone(), e.value().clone())).collect()
}

/// A sorted table of versions in memory.
pub struct Memtable {
    map: SkipMap<SlotKey, SlotValue>,
    size: usize,
    max_size: usize,
    next_seq: u64,
    id: u64,
}

impl View for Memtable {
    type V = Versions;

    /// The versions held.
    closed spec fn view(&self) -> Versions {
        Map::new(
            |k: KeyView| skip_contents(self.map).contains_key((k.0, (u64::MAX - k.1) as u64)),
            |k: KeyView| skip_contents(self.map)[(k.0, (u64::MAX - k.1) as u64)],
        )
    }
}

/// The newest version of a key at or before a sequence number, where a table holds one.
pub open spec fn newest_at(m: Versions, key: Seq<u8>, seq: u64) -> Option<u64> {
    if exists|s: u64| s <= seq && #[trigger] m.contains_key((key, s)) {
        Some(
            choose|s: u64|
                s <= seq && #[trigger] m.contains_key((key, s)) && (forall|t: u64|
                    t <= seq && #[trigger] m.contains_key((key, t)) ==> t <= s),
        )
    } else {
        None
    }
}

/// What a lookup of a key at a sequence number finds: the newest version at or before it.
pub open spec fn lookup_at(m: Versions, key: Seq<u8>, seq: u64) -> Option<ValueView> {
    match newest_at(m, key, seq) {
        Some(s) => Some(m[(key, s)]),
        None => None,
    }
}

/// The newest version is the one that no other visible version is newer than.
pub proof fn lemma_newest_at(m: Versions, key: Seq<u8>, seq: u64, s: u64)
    requires
        s <= seq,
        m.contains_key((key, s)),
        forall|t: u64| t <= seq && #[trigger] m.contains_key((key, t)) ==> t <= s,
    ensures
        newest_at(m, key, seq) == Some(s),
        lookup_at(m, key, seq) == Some(m[(key, s)]),
{
}

/// Where some version is visible, there is a newest one.
#[verifier::rlimit(40)]
pub proof fn lemma_newest_exists(m: Versions, key: Seq<u8>, seq: u64, s: u64)
    requires
        s <= seq,
        m.contains_key((key, s)),
    ensures
        newest_at(m, key, seq) is Some,
        newest_at(m, key, seq)->0 <= seq,
        newest_at(m, key, seq)->0 >= s,
        m.contains_key((key, newest_at(m, key, seq)->0)),
        forall|t: u64|
            t <= seq && #[trigger] m.contains_key((key, t)) ==> t <= newest_at(m, key, seq)->0,
    decreases seq - s,
{
    if exists|t: u64| s < t <= seq && #[trigger] m.contains_key((key, t)) {
        let t = choose|t: u64| s < t <= seq && #[trigger] m.contains_key((key, t));
        lemma_newest_exists(m, key, seq, t);
    } else {
        lemma_newest_at(m, key, seq, s);
    }
}

/// What `newest_at` gives, whichever way it comes out.
pub proof fn lemma_newest_cases(m: Versions, key: Seq<u8>, seq: u64)
    ensures
        match newest_at(m, key, seq) {
            Some(s) => s <= seq && m.contains_key((key, s)) && (forall|t: u64|
                t <= seq && #[trigger] m.contains_key((key, t)) ==> t <= s),
            None => forall|t: u64| t <= seq ==> !#[trigger] m.contains_key((key, t)),
        },
{
    if exists|s: u64| s <= seq && #[trigger] m.contains_key((key, s)) {
        let s = choose|s: u64| s <= seq && #[trigger] m.contains_key((key, s));
        lemma_newest_exists(m, key, seq, s);
    }
}

/// Tells whether a table holds a version of a key after a sequence number.
pub open spec fn written_after(m: Versions, key: Seq<u8>, ts: u64) -> bool {
    exists|s: u64| s > ts && #[trigger] m.contains_key((key, s))
}

/// Versions in order, each with its value.
pub type Entries = Seq<(KeyView, ValueView)>;

/// The views of entries.
pub open spec fn entries_view(s: Seq<(InternalKey, MemtableValue)>) -> Entries {
    s.map_values(|e: (InternalKey, MemtableValue)| (e.0@, e.1@))
}

/// Tells whether entries come in the order of versions.
pub open spec fn entries_sorted(s: Entries) -> bool {
    forall|i: int, j: int| 0 <= i < j < s.len() ==> key_lt((#[trigger] s[i]).0, (#[trigger] s[j]).0)
}

/// Tells whether entries list exactly what a table holds.
pub open spec fn entries_list(s: Entries, m: Versions) -> bool {
    &&& forall|i: int|
        0 <= i < s.len() ==> m.contains_key((#[trigger] s[i]).0) && m[s[i].0] == s[i].1
    &&& forall|k: KeyView| #[trigger]
        m.contains_key(k) ==> exists|i: int| 0 <= i < s.len() && (#[trigger] s[i]).0 == k
}

impl Memtable {
    /// The identity of the memtable.
    pub closed spec fn spec_id(&self) -> u64 {
        self.id
    }

    /// The next sequence number that the memtable gives out.
    pub closed spec fn spec_next_seq(&self) -> u64 {
        self.next_seq
    }

    /// The bytes counted so far.
    pub closed spec fn spec_size(&self) -> usize {
        self.size
    }

    /// The size at which to flush.
    pub closed spec fn spec_max_size(&self) -> usize {
        self.max_size
    }

    /// Makes an empty memtable.
    pub fn new(id: u64, config: MemtableConfig) -> (r: Self)
        ensures
            r@ == Versions::empty(),
            r.spec_id() == id,
            r.spec_next_seq() == 1,
            r.spec_size() == 0,
            r.spec_max_size() == config.max_size,
    {
        let r = Memtable {
            map: skip_new(),
            size: 0,
            max_size: config.max_size,
            next_seq: 1,
            id,
        };
        assert(r@ =~= Versions::empty());
        r
    }

    /// Makes an empty memtable of the default size.
    pub fn with_id(id: u64) -> (r: Self)
        ensures
            r@ == Versions::empty(),
            r.spec_id() == id,
            r.spec_next_seq() == 1,
            r.spec_size() == 0,
            r.spec_max_size() == DEFAULT_MEMTABLE_SIZE,
    {
        Memtable::new(id, MemtableConfig::default())
    }

    /// The identity of the memtable.
    pub fn id(&self) -> (r: u64)
        ensures
            r == self.spec_id(),
    {
        self.id
    }

    fn insert(&mut self, key: Vec<u8>, value: SlotValue, seq: u64)
        ensures
            final(self)@ == old(self)@.insert((key@, seq), slot_value(value)),
            final(self).spec_id() == old(self).spec_id(),
            final(self).spec_next_seq() == old(self).spec_next_seq(),
            final(self).spec_max_size() == old(self).spec_max_size(),
            final(self).spec_size() == size_after(
                old(self).spec_size(),
                key@.len(),
                slot_value(value),
            ),
    {
        let value_len: usize = match &value {
            Some(v) => v.len(),
            None => 0,
        };
        self.size = self.size.saturating_add(key.len()).saturating_add(8).saturating_add(value_len);
        let ghost before = skip_contents(self.map);
        let ghost kv = key@;
        let ghost vv = slot_value(value);
        skip_insert(&mut self.map, (key, u64::MAX - seq), value);
        proof {
            let m = self@;
            let n = old(self)@.insert((kv, seq), vv);
            assert forall|k: KeyView| m.contains_key(k) == n.contains_key(k) by {
                if k.0 == kv && u64::MAX - k.1 == u64::MAX - seq {
                    assert(k == (kv, seq));
                }
            }
            assert(m =~= n);
        }
    }

    fn raise_next_seq(&mut self, seq: u64)
        requires
            seq < u64::MAX,
        ensures
            final(self)@ == old(self)@,
            final(self).spec_id() == old(self).spec_id(),
            final(self).spec_max_size() == old(self).spec_max_size(),
            final(self).spec_size() == old(self).spec_size(),
            final(self).spec_next_seq() == seq_after(old(self).spec_next_seq(), seq),
    {
        if seq >= self.next_seq {
            self.next_seq = seq + 1;
        }
    }

    /// Puts a key under the next sequence number, which is returned.
    pub fn put(&mut self, key: Vec<u8>, value: Vec<u8>) -> (seq: u64)
        requires
            old(self).spec_next_seq() < u64::MAX,
        ensures
            seq == old(self).spec_next_seq(),
            final(self)@ == old(self)@.insert((key@, seq), Some(value@)),
            final(self).spec_next_seq() == seq + 1,
            final(self).spec_id() == old(self).spec_id(),
            final(self).spec_max_size() == old(self).spec_max_size(),
            final(self).spec_size() == size_after(
                old(self).spec_size(),
                key@.len(),
                Some(value@),
            ),
    {
        let seq = self.next_seq;
        self.next_seq = seq + 1;
        self.insert(key, Some(value), seq);
        seq
    }

    /// Puts a key under a given sequence number, as when a log is replayed.
    pub fn put_with_seq(&mut self, key: Vec<u8>, value: Vec<u8>, seq: u64)
        requires
            seq < u64::MAX,
        ensures
            final(self)@ == old(self)@.insert((key@, seq), Some(value@)),
            final(self).spec_next_seq() == seq_after(old(self).spec_next_seq(), seq),
            final(self).spec_id() == old(self).spec_id(),
            final(self).spec_max_size() == old(self).spec_max_size(),
            final(self).spec_size() == size_after(
                old(self).spec_size(),
                key@.len(),
                Some(value@),
            ),
    {
        self.insert(key, Some(value), seq);
        self.raise_next_seq(seq);
    }

    /// Deletes a key under the next sequence number, which is returned.
    pub fn delete(&mut self, key: Vec<u8>) -> (seq: u64)
        requires
            old(self).spec_next_seq() < u64::MAX,
        ensures
            seq == old(self).spec_next_seq(),
            final(self)@ == old(self)@.insert((key@, seq), None),
            final(self).spec_next_seq() == seq + 1,
            final(self).spec_id() == old(self).spec_id(),
            final(self).spec_max_size() == old(self).spec_max_size(),
            final(self).spec_size() == size_after(old(self).spec_size(), key@.len(), None),
    {
        let seq = self.next_seq;
        self.next_seq = seq + 1;
        self.insert(key, None, seq);
        seq
    }

    /// Deletes a key under a given sequence number, as when a log is replayed.
    pub fn delete_with_seq(&mut self, key: Vec<u8>, seq: u64)
        requires
            seq < u64::MAX,
        ensures
            final(self)@ == old(self)@.insert((key@, seq), None),
            final(self).spec_next_seq() == seq_after(old(self).spec_next_seq(), seq),
            final(self).spec_id() == old(self).spec_id(),
            final(self).spec_max_size() == old(self).spec_max_size(),
            final(self).spec_size() == size_after(old(self).spec_size(), key@.len(), None),
    {
        self.insert(key, None, seq);
        self.raise_next_seq(seq);
    }

    /// Looks a key up at a sequence number.
    pub fn lookup(&self, key: &[u8], read_seq: u64) -> (r: LookupResult)
        ensures
            r@ == lookup_at(self@, key@, read_seq),
    {
        let from = (copy_bytes(key), u64::MAX - read_seq);
        let ghost c = skip_contents(self.map);
        match skip_lower_bound(&self.map, &from) {
            Some((k, v)) => {
                if bytes_eq(&k.0, key) {
                    let ghost s = (u64::MAX - k.1) as u64;
                    proof {
                        lemma_lex_irreflexive(key@);
                        assert(self@.contains_key((key@, s)));
                        assert forall|t: u64|
                            t <= read_seq && #[trigger] self@.contains_key((key@, t)) implies t
                            <= s by {
                            let o = (key@, (u64::MAX - t) as u64);
                            assert(c.contains_key(o));
                            assert(!slot_lt(o, (from.0@, from.1)));
                        }
                        lemma_newest_at(self@, key@, read_seq, s);
                    }
                    match v {
                        Some(x) => LookupResult::Found(x),
                        None => LookupResult::Deleted,
                    }
                } else {
                    proof {
                        assert forall|t: u64| t <= read_seq implies !#[trigger] self@.contains_key(
                            (key@, t),
                        ) by {
                            let o = (key@, (u64::MAX - t) as u64);
                            if c.contains_key(o) {
                                lemma_lex_irreflexive(key@);
                                assert(!slot_lt(o, (from.0@, from.1)));
                                assert(!slot_lt(o, (k.0@, k.1)));
                                lemma_lex_total(k.0@, key@);
                            }
                        }
                        lemma_newest_cases(self@, key@, read_seq);
                    }
                    LookupResult::NotFound
                }
            },
            None => {
                proof {
                    assert forall|t: u64| t <= read_seq implies !#[trigger] self@.contains_key(
                        (key@, t),
                    ) by {
                        let o = (key@, (u64::MAX - t) as u64);
                        if c.contains_key(o) {
                            lemma_lex_irreflexive(key@);
                            assert(slot_lt(o, (from.0@, from.1)));
                        }
                    }
                    lemma_newest_cases(self@, key@, read_seq);
                }
                LookupResult::NotFound
            },
        }
    }

    /// The newest value of a key at or before a sequence number; nothing where the key has no
    /// such version or it is a delete.
    pub fn get(&self, key: &[u8], read_seq: u64) -> (r: Option<Vec<u8>>)
        ensures
            opt_view(r) == flatten(lookup_at(self@, key@, read_seq)),
    {
        match self.lookup(key, read_seq) {
            LookupResult::Found(v) => Some(v),
            LookupResult::Deleted => None,
            LookupResult::NotFound => None,
        }
    }

    /// The newest value of a key.
    pub fn get_latest(&self, key: &[u8]) -> (r: Option<Vec<u8>>)
        ensures
            opt_view(r) == flatten(lookup_at(self@, key@, u64::MAX)),
    {
        self.get(key, u64::MAX)
    }

    /// The size of the memtable in bytes, as counted at each write.
    pub fn approximate_size(&self) -> (r: usize)
        ensures
            r == self.spec_size(),
    {
        self.size
    }

    /// Tells whether the memtable has reached the size at which to flush.
    pub fn should_flush(&self) -> (r: bool)
        ensures
            r == (self.spec_size() >= self.spec_max_size()),
    {
        self.size >= self.max_size
    }

    /// Counts the versions.
    pub fn len(&self) -> (r: usize)
        ensures
            self@.dom().finite(),
            r == self@.dom().len(),
    {
        let r = skip_len(&self.map);
        proof {
            let c = skip_contents(self.map).dom();
            let f = |k: (Seq<u8>, u64)| (k.0, (u64::MAX - k.1) as u64);
            assert(self@.dom() =~= c.map(f)) by {
                assert forall|k: KeyView| self@.dom().contains(k) implies c.map(f).contains(k) by {
                    let o = (k.0, (u64::MAX - k.1) as u64);
                    assert(c.contains(o) && f(o) == k);
                }
            }
            vstd::set_lib::lemma_map_size(c, self@.dom(), f);
        }
        r
    }

    /// Tells whether there is no version.
    pub fn is_empty(&self) -> (r: bool)
        ensures
            r == (self@ == Versions::empty()),
    {
        let r = skip_is_empty(&self.map);
        proof {
            let c = skip_contents(self.map);
            if r {
                assert(self@ =~= Versions::empty());
            } else if self@ == Versions::empty() {
                assert forall|o: (Seq<u8>, u64)| !c.contains_key(o) by {
                    let k = (o.0, (u64::MAX - o.1) as u64);
                    assert(self@.contains_key(k) == c.contains_key(o));
                }
                assert(c =~= Slots::empty());
            }
        }
        r
    }

    /// The next sequence number that the memtable gives out.
    pub fn next_seq(&self) -> (r: u64)
        ensures
            r == self.spec_next_seq(),
    {
        self.next_seq
    }

    /// Tells whether a key has a version after a sequence number.
    pub fn has_write_after(&self, key: &[u8], ts: u64) -> (r: bool)
        ensures
            r == written_after(self@, key@, ts),
    {
        let from: (Vec<u8>, u64) = (copy_bytes(key), 0);
        let ghost c = skip_contents(self.map);
        match skip_lower_bound(&self.map, &from) {
            Some((k, _)) => {
                if bytes_eq(&k.0, key) {
                    let seq = u64::MAX - k.1;
                    proof {
                        lemma_lex_irreflexive(key@);
                        assert(self@.contains_key((key@, seq)));
                        assert forall|s: u64| #[trigger] self@.contains_key((key@, s)) implies s
                            <= seq by {
                            let o = (key@, (u64::MAX - s) as u64);
                            assert(c.contains_key(o));
                            assert(!slot_lt(o, (from.0@, from.1)));
                        }
                    }
                    seq > ts
                } else {
                    proof {
                        assert forall|s: u64| !#[trigger] self@.contains_key((key@, s)) by {
                            let o = (key@, (u64::MAX - s) as u64);
                            if c.contains_key(o) {
                                lemma_lex_irreflexive(key@);
                                assert(!slot_lt(o, (from.0@, from.1)));
                                assert(!slot_lt(o, (k.0@, k.1)));
                                lemma_lex_total(k.0@, key@);
                            }
                        }
                    }
                    false
                }
            },
            None => {
                proof {
                    assert forall|s: u64| !#[trigger] self@.contains_key((key@, s)) by {
                        let o = (key@, (u64::MAX - s) as u64);
                        if c.contains_key(o) {
                            lemma_lex_irreflexive(key@);
                            assert(slot_lt(o, (from.0@, from.1)));
                        }
                    }
                }
                false
            },
        }
    }

    /// All versions in order.
    pub fn iter(&self) -> (r: Vec<(InternalKey, MemtableValue)>)
        ensures
            entries_sorted(entries_view(r@)),
            entries_list(entries_view(r@), self@),
    {
        let slots = skip_entries(&self.map);
        let ghost c = skip_contents(self.map);
        let ghost all = slots@;
        let mut r: Vec<(InternalKey, MemtableValue)> = Vec::new();
        let mut i: usize = 0;
        while i < slots.len()
            invariant
                i <= slots.len(),
                slots@ == all,
                r@.len() == i,
                forall|k: int|
                    0 <= k < i ==> (#[trigger] r@[k]).0@ == (
                        all[k].0.0@,
                        (u64::MAX - all[k].0.1) as u64,
                    ) && r@[k].1@ == slot_value(all[k].1),
            decreases slots.len() - i,
        {
            let (k, v) = &slots[i];
            let value = match v {
                Some(x) => MemtableValue::Put(copy_bytes(x)),
                None => MemtableValue::Delete,
            };
            r.push((InternalKey { user_key: copy_bytes(&k.0), seq: u64::MAX - k.1 }, value));
            i += 1;
        }
        proof {
            let e = entries_view(r@);
            assert forall|k: KeyView| #[trigger] self@.contains_key(k) implies exists|i: int|
                0 <= i < e.len() && (#[trigger] e[i]).0 == k by {
                let o = (k.0, (u64::MAX - k.1) as u64);
                assert(c.contains_key(o));
                let i = choose|i: int|
                    0 <= i < all.len() && o == ((#[trigger] all[i]).0.0@, all[i].0.1);
                assert(e[i].0 == k);
            }
        }
        r
    }

    /// All versions, in order, of the keys from `start` to `end`, both included.
    pub fn range(&self, start: &[u8], end: &[u8]) -> (r: Vec<(InternalKey, MemtableValue)>)
        ensures
            entries_sorted(entries_view(r@)),
            entries_list(
                entries_view(r@),
                self@.restrict(Set::new(|k: KeyView| in_closed_range(k.0, start@, end@))),
            ),
    {
        let all = self.iter();
        let ghost e = entries_view(all@);
        let ghost sel = self@.restrict(Set::new(|k: KeyView| in_closed_range(k.0, start@, end@)));
        let mut r: Vec<(InternalKey, MemtableValue)> = Vec::new();
        let ghost mut from: Seq<int> = Seq::empty();
        let mut i: usize = 0;
        while i < all.len()
            invariant
                i <= all.len(),
                e == entries_view(all@),
                from.len() == r@.len(),
                forall|k: int|
                    0 <= k < r@.len() ==> 0 <= #[trigger] from[k] < i && entries_view(r@)[k]
                        == e[from[k]] && in_closed_range(e[from[k]].0.0, start@, end@),
                forall|a: int, b: int| 0 <= a < b < from.len() ==> from[a] < from[b],
                forall|k: int|
                    0 <= k < i && in_closed_range((#[trigger] e[k]).0.0, start@, end@)
                        ==> from.contains(k),
            decreases all.len() - i,
        {
            let (k, v) = &all[i];
            let ghost old_from = from;
            if crate::codec::bytes_le(start, &k.user_key) && crate::codec::bytes_le(
                &k.user_key,
                end,
            ) {
                r.push((k.copy(), v.copy()));
                proof {
                    from = from.push(i as int);
                    assert(from[from.len() - 1] == i);
                    assert forall|x: int|
                        0 <= x < i + 1 && in_closed_range((#[trigger] e[x]).0.0, start@, end@)
                        implies from.contains(x) by {
                        if x < i {
                            let y = choose|y: int| 0 <= y < old_from.len() && old_from[y] == x;
                            assert(from[y] == x);
                        }
                    }
                }
            }
            i += 1;
        }
        proof {
            let f = entries_view(r@);
            assert forall|a: int, b: int| 0 <= a < b < f.len() implies key_lt(
                (#[trigger] f[a]).0,
                (#[trigger] f[b]).0,
            ) by {
                assert(f[a] == e[from[a]] && f[b] == e[from[b]]);
            }
            assert forall|k: int| 0 <= k < f.len() implies sel.contains_key((#[trigger] f[k]).0)
                && sel[f[k].0] == f[k].1 by {
                assert(f[k] == e[from[k]]);
            }
            assert forall|k: KeyView| #[trigger] sel.contains_key(k) implies exists|i: int|
                0 <= i < f.len() && (#[trigger] f[i]).0 == k by {
                assert(self@.contains_key(k));
                let x = choose|x: int| 0 <= x < e.len() && (#[trigger] e[x]).0 == k;
                assert(from.contains(x));
                let y = choose|y: int| 0 <= y < from.len() && from[y] == x;
                assert(f[y] == e[from[y]]);
            }
        }
        r
    }
}

/// Tells whether a key lies between two others, both included.
pub open spec fn in_closed_range(k: Seq<u8>, start: Seq<u8>, end: Seq<u8>) -> bool {
    crate::codec::lex_le(start, k) && crate::codec::lex_le(k, end)
}

/// The next sequence number after a write that brought its own.
pub open spec fn seq_after(next: u64, seq: u64) -> u64 {
    if seq >= next {
        (seq + 1) as u64
    } else {
        next
    }
}

/// After a write that brought its own sequence number the next one was used neither by it nor
/// before, and no number is passed over for nothing.
pub proof fn law_next_seq_unused(next: u64, seq: u64)
    requires
        seq < u64::MAX,
    ensures
        seq_after(next, seq) > seq,
        seq_after(next, seq) >= next,
        seq_after(next, seq) == next || seq_after(next, seq) == seq + 1,
{
}

/// The counted size after a write: the key, eight bytes for the sequence number and the value
/// more, or the largest number where that is more than a number holds.
pub open spec fn size_after(size: usize, key_len: nat, value: ValueView) -> usize {
    let n = size + key_len + 8 + (match value {
        Some(v) => v.len() as int,
        None => 0,
    });
    if n <= usize::MAX {
        n as usize
    } else {
        usize::MAX
    }
}

/// The view of an optional value.
pub open spec fn opt_view(v: Option<Vec<u8>>) -> Option<Seq<u8>> {
    match v {
        Some(x) => Some(x@),
        None => None,
    }
}

/// What a reader of values sees of a lookup: a delete and no version look the same.
pub open spec fn flatten(v: Option<ValueView>) -> ValueView {
    match v {
        Some(x) => x,
        None => None,
    }
}

/// A memtable that takes no more writes and waits to be flushed.
pub struct ImmutableMemtable {
    inner: Memtable,
}

impl View for ImmutableMemtable {
    type V = Versions;

    closed spec fn view(&self) -> Versions {
        self.inner@
    }
}

impl ImmutableMemtable {
    /// The identity of the memtable.
    pub closed spec fn spec_id(&self) -> u64 {
        self.inner.spec_id()
    }

    /// The bytes counted so far.
    pub closed spec fn spec_size(&self) -> usize {
        self.inner.spec_size()
    }

    /// Takes a memtable that is written no more.
    pub fn new(memtable: Memtable) -> (r: Self)
        ensures
            r@ == memtable@,
            r.spec_id() == memtable.spec_id(),
            r.spec_size() == memtable.spec_size(),
    {
        ImmutableMemtable { inner: memtable }
    }

    /// The newest value of a key at or before a sequence number.
    pub fn get(&self, key: &[u8], read_seq: u64) -> (r: Option<Vec<u8>>)
        ensures
            opt_view(r) == flatten(lookup_at(self@, key@, read_seq)),
    {
        self.inner.get(key, read_seq)
    }

    /// Looks a key up at a sequence number.
    pub fn lookup(&self, key: &[u8], read_seq: u64) -> (r: LookupResult)
        ensures
            r@ == lookup_at(self@, key@, read_seq),
    {
        self.inner.lookup(key, read_seq)
    }

    /// Tells whether a key has a version after a sequence number.
    pub fn has_write_after(&self, key: &[u8], ts: u64) -> (r: bool)
        ensures
            r == written_after(self@, key@, ts),
    {
        self.inner.has_write_after(key, ts)
    }

    /// All versions in order.
    pub fn iter(&self) -> (r: Vec<(InternalKey, MemtableValue)>)
        ensures
            entries_sorted(entries_view(r@)),
            entries_list(entries_view(r@), self@),
    {
        self.inner.iter()
    }

    /// The identity of the memtable.
    pub fn id(&self) -> (r: u64)
        ensures
            r == self.spec_id(),
    {
        self.inner.id()
    }

    /// The size of the memtable in bytes, as counted at each write.
    pub fn approximate_size(&self) -> (r: usize)
        ensures
            r == self.spec_size(),
    {
        self.inner.approximate_size()
    }
}

/// A version just written is what a lookup at its sequence number finds, and what any later one
/// finds until a newer version is visible.
pub proof fn law_read_after_write(m: Versions, key: Seq<u8>, seq: u64, value: ValueView, at: u64)
    requires
        seq <= at,
        forall|t: u64| seq < t <= at ==> !#[trigger] m.contains_key((key, t)),
    ensures
        lookup_at(m.insert((key, seq), value), key, at) == Some(value),
{
    let n = m.insert((key, seq), value);
    assert forall|t: u64| t <= at && #[trigger] n.contains_key((key, t)) implies t <= seq by {
        if t > seq {
            assert(!m.contains_key((key, t)));
        }
    }
    lemma_newest_at(n, key, at, seq);
}

/// A write leaves every lookup of another key as it was, and every lookup of its own key at an
/// earlier sequence number: a snapshot does not change.
pub proof fn law_snapshot_unchanged(
    m: Versions,
    key: Seq<u8>,
    seq: u64,
    value: ValueView,
    other: Seq<u8>,
    at: u64,
)
    requires
        other != key || at < seq,
    ensures
        lookup_at(m.insert((key, seq), value), other, at) == lookup_at(m, other, at),
{
    let n = m.insert((key, seq), value);
    assert forall|t: u64| t <= at implies m.contains_key((other, t)) == #[trigger] n.contains_key(
        (other, t),
    ) by {}
    lemma_newest_cases(m, other, at);
    lemma_newest_cases(n, other, at);
    match newest_at(m, other, at) {
        Some(s) => {
            assert(n.contains_key((other, s)));
            assert forall|t: u64| t <= at && #[trigger] n.contains_key((other, t)) implies t
                <= s by {
                assert(m.contains_key((other, t)));
            }
            lemma_newest_at(n, other, at, s);
        },
        None => {
            if newest_at(n, other, at) is Some {
                assert(m.contains_key((other, newest_at(n, other, at)->0)));
            }
        },
    }
}

/// The versions of a table, in order.
pub open spec fn entries_of(m: Versions) -> Entries {
    choose|s: Entries| entries_sorted(s) && #[trigger] entries_list(s, m)
}

/// However the versions of a table are listed in order, the list is the same.
pub proof fn lemma_entries_unique(a: Entries, b: Entries, m: Versions)
    requires
        entries_sorted(a),
        entries_sorted(b),
        entries_list(a, m),
        entries_list(b, m),
    ensures
        a == b,
{
    lemma_entries_prefix(a, b, m, a.len());
    if b.len() > a.len() {
        lemma_entries_prefix(b, a, m, b.len());
    }
    assert(a =~= b);
}

proof fn lemma_entries_prefix(a: Entries, b: Entries, m: Versions, n: nat)
    requires
        entries_sorted(a),
        entries_sorted(b),
        entries_list(a, m),
        entries_list(b, m),
        n <= a.len(),
    ensures
        n <= b.len(),
        forall|i: int| 0 <= i < n ==> #[trigger] a[i] == b[i],
    decreases n,
{
    if n > 0 {
        lemma_entries_prefix(a, b, m, (n - 1) as nat);
        let k = n - 1;
        let x = a[k];
        assert(m.contains_key(x.0));
        let j = choose|j: int| 0 <= j < b.len() && (#[trigger] b[j]).0 == x.0;
        if j < k {
            assert(a[j] == b[j]);
            assert(key_lt(a[j].0, a[k].0));
            lemma_key_irreflexive(x.0);
        }
        let y = b[k];
        assert(m.contains_key(y.0));
        let p = choose|p: int| 0 <= p < a.len() && (#[trigger] a[p]).0 == y.0;
        if p < k {
            assert(a[p] == b[p]);
            assert(key_lt(b[p].0, b[k].0));
            lemma_key_irreflexive(y.0);
        }
        if j > k {
            assert(key_lt(b[k].0, b[j].0));
            if p > k {
                assert(key_lt(a[k].0, a[p].0));
                lemma_key_asymmetric(x.0, y.0);
            } else {
                lemma_key_irreflexive(x.0);
            }
        }
        assert(a[k].1 == m[x.0] && b[j].1 == m[x.0]);
    }
}

/// A list of a table's versions in order is that of the table.
pub proof fn lemma_entries_of(s: Entries, m: Versions)
    requires
        entries_sorted(s),
        entries_list(s, m),
    ensures
        entries_of(m) == s,
{
    lemma_entries_unique(entries_of(m), s, m);
}

/// A range of keys holds both its ends, and with both ends at one key that key alone.
pub proof fn law_closed_range(start: Seq<u8>, end: Seq<u8>, k: Seq<u8>)
    ensures
        in_closed_range(k, start, start) <==> k == start,
        crate::codec::lex_le(start, end) ==> in_closed_range(start, start, end) && in_closed_range(
            end,
            start,
            end,
        ),
        crate::codec::lex_lt(k, start) || crate::codec::lex_lt(end, k) ==> !in_closed_range(
            k,
            start,
            end,
        ),
{
    crate::codec::lemma_lex_irreflexive(start);
    if crate::codec::lex_lt(start, k) {
        crate::codec::lemma_lex_asymmetric(start, k);
    }
    if crate::codec::lex_lt(k, start) {
        crate::codec::lemma_lex_asymmetric(k, start);
    }
    if crate::codec::lex_lt(end, k) {
        crate::codec::lemma_lex_asymmetric(end, k);
        crate::codec::lemma_lex_irreflexive(end);
    }
}

/// What a lookup finds is a version that is there, no newer than asked for, and no version between
/// the two is there; where it finds nothing there is none that old.
pub proof fn law_lookup_finds_newest(m: Versions, key: Seq<u8>, at: u64)
    ensures
        match lookup_at(m, key, at) {
            Some(v) => exists|s: u64|
                s <= at && #[trigger] m.contains_key((key, s)) && m[(key, s)] == v && forall|t: u64|
                    s < t <= at ==> !#[trigger] m.contains_key((key, t)),
            None => forall|t: u64| t <= at ==> !#[trigger] m.contains_key((key, t)),
        },
{
    lemma_newest_cases(m, key, at);
    if let Some(s) = newest_at(m, key, at) {
        assert(m.contains_key((key, s)));
    }
}

} // verus!
