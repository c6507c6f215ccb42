//! The reference against which a database is held: what each key should read.

use crate::codec::{bytes_eq, bytes_lt, copy_bytes, lemma_lex_asymmetric, lemma_lex_irreflexive};
use crate::codec::{lemma_lex_total, lemma_lex_transitive, lex_le, lex_lt};
use crate::memtable::{opt_view, ValueView};
use crate::text::{decimal, push_count, text_of};
use vstd::prelude::*;

verus! {

/// A key and what it should read, `None` where it was deleted.
pub type ModelEntry = (Seq<u8>, ValueView);

/// The kind of operation.
#[derive(Clone, Copy, Debug, PartialEq, Eq, Structural)]
pub enum OpKind {
    Put,
    Delete,
    Get,
}

/// A recorded operation in the model.
#[derive(Clone, Debug)]
pub struct ModelOp {
    /// Operation sequence number.
    pub seq: u64,
    /// The operation type.
    pub kind: OpKind,
    /// The key involved.
    pub key: Vec<u8>,
    /// The value of a put.
    pub value: Option<Vec<u8>>,
}

/// A recorded operation as a mathematical value.
pub struct ModelOpView {
    pub seq: u64,
    pub kind: OpKind,
    pub key: Seq<u8>,
    pub value: ValueView,
}

impl View for ModelOp {
    type V = ModelOpView;

    open spec fn view(&self) -> ModelOpView {
        ModelOpView { seq: self.seq, kind: self.kind, key: self.key@, value: opt_view(self.value) }
    }
}

/// Operations as mathematical values.
pub open spec fn ops_view(s: Seq<ModelOp>) -> Seq<ModelOpView> {
    s.map_values(|o: ModelOp| o@)
}

/// The reference model.
#[derive(Clone, Debug)]
pub struct Model {
    state: Vec<(Vec<u8>, Option<Vec<u8>>)>,
    history: Vec<ModelOp>,
    op_count: u64,
}

/// The reference model as a mathematical value.
pub struct ModelView {
    /// Each key that was written, ascending, with what it should read.
    pub entries: Seq<ModelEntry>,
    /// The operations so far.
    pub history: Seq<ModelOpView>,
    /// The number of the next operation.
    pub op_count: u64,
}

/// Stored pairs as mathematical values.
pub open spec fn pairs_view(s: Seq<(Vec<u8>, Option<Vec<u8>>)>) -> Seq<ModelEntry> {
    s.map_values(|p: (Vec<u8>, Option<Vec<u8>>)| (p.0@, opt_view(p.1)))
}

/// Byte strings as mathematical values.
pub open spec fn byte_strings(s: Seq<Vec<u8>>) -> Seq<Seq<u8>> {
    s.map_values(|v: Vec<u8>| v@)
}

/// Tells whether the keys ascend.
pub open spec fn keys_ascend(e: Seq<ModelEntry>) -> bool {
    forall|i: int, j: int| 0 <= i < j < e.len() ==> lex_lt((#[trigger] e[i]).0, (#[trigger] e[j]).0)
}

/// The keys of a list of entries.
pub open spec fn keys_of(e: Seq<ModelEntry>) -> Seq<Seq<u8>> {
    e.map_values(|p: ModelEntry| p.0)
}

/// The number of entries at the front whose keys are less than a key.
pub open spec fn place_of(e: Seq<ModelEntry>, key: Seq<u8>) -> nat
    decreases e.len(),
{
    if e.len() == 0 || !lex_lt(e[0].0, key) {
        0
    } else {
        1 + place_of(e.drop_first(), key)
    }
}

/// What a list of entries holds for a key.
pub open spec fn entry_for(e: Seq<ModelEntry>, key: Seq<u8>) -> Option<ValueView> {
    let i = place_of(e, key);
    if i < e.len() && e[i as int].0 == key {
        Some(e[i as int].1)
    } else {
        None
    }
}

/// The list after a key was written.
pub open spec fn with_write(e: Seq<ModelEntry>, key: Seq<u8>, value: ValueView) -> Seq<ModelEntry> {
    let i = place_of(e, key);
    if i < e.len() && e[i as int].0 == key {
        e.update(i as int, (key, value))
    } else {
        e.insert(i as int, (key, value))
    }
}

/// What a key should read, where deleted and never written are the same.
pub open spec fn value_for(e: Seq<ModelEntry>, key: Seq<u8>) -> ValueView {
    match entry_for(e, key) {
        Some(v) => v,
        None => None,
    }
}

/// The entries that have a value.
pub open spec fn live_entries(e: Seq<ModelEntry>) -> Seq<ModelEntry> {
    e.filter(|p: ModelEntry| p.1 is Some)
}

/// The entries that have a value and whose keys are in the range from `start` up to `end`.
pub open spec fn entries_between(e: Seq<ModelEntry>, start: Seq<u8>, end: Seq<u8>) -> Seq<
    ModelEntry,
> {
    e.filter(|p: ModelEntry| p.1 is Some && lex_le(start, p.0) && lex_lt(p.0, end))
}

pub proof fn lemma_place(e: Seq<ModelEntry>, key: Seq<u8>)
    requires
        keys_ascend(e),
    ensures
        place_of(e, key) <= e.len(),
        forall|i: int| 0 <= i < place_of(e, key) ==> lex_lt((#[trigger] e[i]).0, key),
        forall|i: int|
            place_of(e, key) <= i < e.len() ==> !lex_lt((#[trigger] e[i]).0, key) && (e[i].0 == key
                || lex_lt(key, e[i].0)),
        forall|i: int| place_of(e, key) < i < e.len() ==> lex_lt(key, (#[trigger] e[i]).0),
    decreases e.len(),
{
    if e.len() > 0 && lex_lt(e[0].0, key) {
        let t = e.drop_first();
        assert forall|i: int, j: int| 0 <= i < j < t.len() implies lex_lt(
            (#[trigger] t[i]).0,
            (#[trigger] t[j]).0,
        ) by {
            assert(t[i] == e[i + 1] && t[j] == e[j + 1]);
        }
        lemma_place(t, key);
        assert forall|i: int| 0 <= i < place_of(e, key) implies lex_lt((#[trigger] e[i]).0, key) by {
            if i > 0 {
                assert(e[i] == t[i - 1]);
            }
        }
        assert forall|i: int| place_of(e, key) <= i < e.len() implies !lex_lt(
            (#[trigger] e[i]).0,
            key,
        ) && (e[i].0 == key || lex_lt(key, e[i].0)) by {
            assert(e[i] == t[i - 1]);
        }
        assert forall|i: int| place_of(e, key) < i < e.len() implies lex_lt(
            key,
            (#[trigger] e[i]).0,
        ) by {
            assert(e[i] == t[i - 1]);
        }
    } else {
        assert forall|i: int| 0 <= i < e.len() implies !lex_lt((#[trigger] e[i]).0, key) && (e[i].0
            == key || lex_lt(key, e[i].0)) && (i > 0 ==> lex_lt(key, e[i].0)) by {
            lemma_lex_total(e[0].0, key);
            lemma_lex_total(e[i].0, key);
            if i > 0 {
                assert(lex_lt(e[0].0, e[i].0));
                if e[0].0 != key {
                    lemma_lex_transitive(key, e[0].0, e[i].0);
                }
                lemma_lex_asymmetric(key, e[i].0);
            }
        }
    }
}

/// Where an entry stands, reading its key gives its value.
pub proof fn lemma_entry_at(e: Seq<ModelEntry>, i: int)
    requires
        keys_ascend(e),
        0 <= i < e.len(),
    ensures
        entry_for(e, e[i].0) == Some(e[i].1),
{
    lemma_place(e, e[i].0);
    let p = place_of(e, e[i].0);
    lemma_lex_irreflexive(e[i].0);
    if i < p {
        assert(false);
    }
    if p < i {
        assert(lex_lt(e[i].0, e[i].0));
    }
}

/// A model lists each key once, and ascending, whatever is written.
pub proof fn law_write_keeps_order(e: Seq<ModelEntry>, key: Seq<u8>, value: ValueView)
    requires
        keys_ascend(e),
    ensures
        keys_ascend(with_write(e, key, value)),
{
    lemma_place(e, key);
    let p = place_of(e, key) as int;
    let w = with_write(e, key, value);
    if p < e.len() && e[p].0 == key {
        assert forall|i: int, j: int| 0 <= i < j < w.len() implies lex_lt(
            (#[trigger] w[i]).0,
            (#[trigger] w[j]).0,
        ) by {
            assert(w[i].0 == e[i].0 && w[j].0 == e[j].0);
        }
    } else {
        assert forall|i: int, j: int| 0 <= i < j < w.len() implies lex_lt(
            (#[trigger] w[i]).0,
            (#[trigger] w[j]).0,
        ) by {
            if i < p {
                assert(w[i] == e[i]);
            } else if i > p {
                assert(w[i] == e[i - 1]);
            }
            if j < p {
                assert(w[j] == e[j]);
            } else if j > p {
                assert(w[j] == e[j - 1]);
            }
        }
    }
}

/// A key reads what was last written to it, and no other key is affected.
pub proof fn law_model_reads_writes(
    e: Seq<ModelEntry>,
    key: Seq<u8>,
    value: ValueView,
    other: Seq<u8>,
)
    requires
        keys_ascend(e),
    ensures
        entry_for(with_write(e, key, value), other) == if other == key {
            Some(value)
        } else {
            entry_for(e, other)
        },
{
    let w = with_write(e, key, value);
    law_write_keeps_order(e, key, value);
    lemma_place(e, key);
    lemma_place(e, other);
    lemma_place(w, other);
    let p = place_of(e, key) as int;
    let q = place_of(w, other) as int;
    let o = place_of(e, other) as int;
    assert(w[p] == (key, value));
    if other == key {
        lemma_entry_at(w, p);
    } else {
        if o < e.len() && e[o].0 == other {
            let i = if o < p || (p < e.len() && e[p].0 == key) {
                o
            } else {
                o + 1
            };
            assert(w[i] == e[o]);
            lemma_entry_at(w, i);
        } else if q < w.len() && w[q].0 == other {
            let i = if q < p || (p < e.len() && e[p].0 == key) {
                q
            } else {
                q - 1
            };
            assert(w[q] == e[i]);
            lemma_entry_at(e, i);
        }
    }
}

/// Copies a value.
pub fn copy_value(v: &Option<Vec<u8>>) -> (r: Option<Vec<u8>>)
    ensures
        opt_view(r) == opt_view(*v),
{
    match v {
        Some(b) => Some(copy_bytes(b.as_slice())),
        None => None,
    }
}

/// Compares two values.
pub fn same_value(a: &Option<Vec<u8>>, b: &Option<Vec<u8>>) -> (r: bool)
    ensures
        r == (opt_view(*a) == opt_view(*b)),
{
    match (a, b) {
        (Some(x), Some(y)) => bytes_eq(x.as_slice(), y.as_slice()),
        (None, None) => true,
        _ => false,
    }
}

fn copy_pairs(s: &Vec<(Vec<u8>, Option<Vec<u8>>)>) -> (r: Vec<(Vec<u8>, Option<Vec<u8>>)>)
    ensures
        pairs_view(r@) == pairs_view(s@),
{
    let mut r: Vec<(Vec<u8>, Option<Vec<u8>>)> = Vec::new();
    let mut i: usize = 0;
    while i < s.len()
        invariant
            i <= s.len(),
            pairs_view(r@) == pairs_view(s@).take(i as int),
        decreases s.len() - i,
    {
        let ghost before = r@;
        r.push((copy_bytes(s[i].0.as_slice()), copy_value(&s[i].1)));
        assert(pairs_view(r@) =~= pairs_view(before).push(pairs_view(s@)[i as int]));
        assert(pairs_view(s@).take(i + 1) =~= pairs_view(s@).take(i as int).push(
            pairs_view(s@)[i as int],
        ));
        i += 1;
    }
    assert(pairs_view(s@).take(i as int) =~= pairs_view(s@));
    r
}

fn find(s: &Vec<(Vec<u8>, Option<Vec<u8>>)>, key: &[u8]) -> (r: usize)
    requires
        keys_ascend(pairs_view(s@)),
    ensures
        r == place_of(pairs_view(s@), key@),
        r <= s.len(),
{
    let ghost e = pairs_view(s@);
    let mut lo: usize = 0;
    let mut hi: usize = s.len();
    proof {
        lemma_place(e, key@);
    }
    while lo < hi
        invariant
            lo <= hi <= s.len(),
            e == pairs_view(s@),
            keys_ascend(e),
            lo <= place_of(e, key@) <= hi,
        decreases hi - lo,
    {
        let mid: usize = lo + (hi - lo) / 2;
        proof {
            lemma_place(e, key@);
            assert(e[mid as int].0 == s@[mid as int].0@);
        }
        if bytes_lt(s[mid].0.as_slice(), key) {
            lo = mid + 1;
        } else {
            hi = mid;
        }
    }
    lo
}

/// Writes a key in a list of pairs that ascends by key.
pub fn set_entry(
    state: &mut Vec<(Vec<u8>, Option<Vec<u8>>)>,
    key: &[u8],
    value: Option<Vec<u8>>,
)
    requires
        keys_ascend(pairs_view(old(state)@)),
    ensures
        pairs_view(final(state)@) == with_write(pairs_view(old(state)@), key@, opt_view(value)),
        keys_ascend(pairs_view(final(state)@)),
{
    let ghost before = pairs_view(state@);
    let ghost v = opt_view(value);
    let i = find(state, key);
    proof {
        law_write_keeps_order(before, key@, v);
        lemma_place(before, key@);
    }
    if i < state.len() && bytes_eq(state[i].0.as_slice(), key) {
        state.set(i, (copy_bytes(key), value));
        assert(pairs_view(state@) =~= before.update(i as int, (key@, v)));
    } else {
        state.insert(i, (copy_bytes(key), value));
        assert(pairs_view(state@) =~= before.insert(i as int, (key@, v)));
    }
}

impl View for Model {
    type V = ModelView;

    closed spec fn view(&self) -> ModelView {
        ModelView {
            entries: pairs_view(self.state@),
            history: ops_view(self.history@),
            op_count: self.op_count,
        }
    }
}

impl Default for Model {
    fn default() -> (r: Self)
        ensures
            r.wf(),
            r@.entries == Seq::<ModelEntry>::empty(),
            r@.history == Seq::<ModelOpView>::empty(),
            r@.op_count == 0,
    {
        Model::new()
    }
}

/// The model after a write.
pub open spec fn model_after(m: ModelView, kind: OpKind, key: Seq<u8>, value: ValueView) -> ModelView {
    ModelView {
        entries: with_write(m.entries, key, value),
        history: m.history.push(ModelOpView { seq: m.op_count, kind, key, value }),
        op_count: (m.op_count + 1) as u64,
    }
}

impl Model {
    /// Tells whether the keys are listed ascending.
    pub closed spec fn wf(&self) -> bool {
        keys_ascend(pairs_view(self.state@))
    }

    /// Creates a new empty model.
    pub fn new() -> (r: Self)
        ensures
            r.wf(),
            r@.entries == Seq::<ModelEntry>::empty(),
            r@.history == Seq::<ModelOpView>::empty(),
            r@.op_count == 0,
    {
        let r = Model { state: Vec::new(), history: Vec::new(), op_count: 0 };
        assert(r@.entries =~= Seq::<ModelEntry>::empty());
        assert(r@.history =~= Seq::<ModelOpView>::empty());
        r
    }

    fn write(&mut self, kind: OpKind, key: &[u8], value: Option<Vec<u8>>)
        requires
            old(self).wf(),
            old(self)@.op_count < u64::MAX,
        ensures
            final(self).wf(),
            final(self)@ == model_after(old(self)@, kind, key@, opt_view(value)),
    {
        let ghost before = self@;
        let ghost v = opt_view(value);
        let op = ModelOp {
            seq: self.op_count,
            kind,
            key: copy_bytes(key),
            value: copy_value(&value),
        };
        self.history.push(op);
        assert(ops_view(self.history@) =~= before.history.push(op@));
        set_entry(&mut self.state, key, value);
        self.op_count += 1;
    }

    /// Records a put operation.
    pub fn put(&mut self, key: &[u8], value: &[u8])
        requires
            old(self).wf(),
            old(self)@.op_count < u64::MAX,
        ensures
            final(self).wf(),
            final(self)@ == model_after(old(self)@, OpKind::Put, key@, Some(value@)),
    {
        self.write(OpKind::Put, key, Some(copy_bytes(value)))
    }

    /// Records a delete operation.
    pub fn delete(&mut self, key: &[u8])
        requires
            old(self).wf(),
            old(self)@.op_count < u64::MAX,
        ensures
            final(self).wf(),
            final(self)@ == model_after(old(self)@, OpKind::Delete, key@, None),
    {
        self.write(OpKind::Delete, key, None)
    }

    /// Gives the expected value for a key: `None` where it was never written, `Some(None)` where
    /// it was deleted.
    pub fn get(&self, key: &[u8]) -> (r: Option<Option<&Vec<u8>>>)
        requires
            self.wf(),
        ensures
            match r {
                Some(Some(v)) => entry_for(self@.entries, key@) == Some(Some(v@)),
                Some(None) => entry_for(self@.entries, key@) == Some(None::<Seq<u8>>),
                None => entry_for(self@.entries, key@) is None,
            },
    {
        let i = find(&self.state, key);
        if i < self.state.len() && bytes_eq(self.state[i].0.as_slice(), key) {
            assert(self@.entries[i as int] == (self.state@[i as int].0@, opt_view(
                self.state@[i as int].1,
            )));
            match &self.state[i].1 {
                Some(v) => Some(Some(v)),
                None => Some(None),
            }
        } else {
            None
        }
    }

    /// Gives the expected value for a key, where deleted and never written are the same.
    pub fn get_value(&self, key: &[u8]) -> (r: Option<&Vec<u8>>)
        requires
            self.wf(),
        ensures
            match r {
                Some(v) => value_for(self@.entries, key@) == Some(v@),
                None => value_for(self@.entries, key@) is None,
            },
    {
        match self.get(key) {
            Some(v) => v,
            None => None,
        }
    }

    /// Lists the keys that have a value, ascending.
    pub fn live_keys(&self) -> (r: Vec<Vec<u8>>)
        ensures
            byte_strings(r@) == keys_of(live_entries(self@.entries)),
    {
        let ghost e = self@.entries;
        let ghost p = |x: ModelEntry| x.1 is Some;
        let mut r: Vec<Vec<u8>> = Vec::new();
        let mut i: usize = 0;
        assert(e.take(0).filter(p) =~= Seq::<ModelEntry>::empty()) by {
            reveal(Seq::filter);
        }
        while i < self.state.len()
            invariant
                i <= self.state.len(),
                e == pairs_view(self.state@),
                p == |x: ModelEntry| x.1 is Some,
                byte_strings(r@) == keys_of(e.take(i as int).filter(p)),
            decreases self.state.len() - i,
        {
            proof {
                lemma_filter_step(e, i as int, p);
            }
            let ghost before = r@;
            if self.state[i].1.is_some() {
                r.push(copy_bytes(self.state[i].0.as_slice()));
                assert(byte_strings(r@) =~= byte_strings(before).push(e[i as int].0));
                assert(keys_of(e.take(i + 1).filter(p)) =~= keys_of(
                    e.take(i as int).filter(p),
                ).push(e[i as int].0));
            }
            i += 1;
        }
        assert(e.take(i as int) =~= e);
        r
    }

    /// Lists the keys that were written, ascending.
    pub fn all_keys(&self) -> (r: Vec<Vec<u8>>)
        ensures
            byte_strings(r@) == keys_of(self@.entries),
    {
        let ghost e = self@.entries;
        let mut r: Vec<Vec<u8>> = Vec::new();
        let mut i: usize = 0;
        while i < self.state.len()
            invariant
                i <= self.state.len(),
                e == pairs_view(self.state@),
                byte_strings(r@) == keys_of(e).take(i as int),
            decreases self.state.len() - i,
        {
            let ghost before = r@;
            r.push(copy_bytes(self.state[i].0.as_slice()));
            assert(byte_strings(r@) =~= byte_strings(before).push(e[i as int].0));
            assert(keys_of(e).take(i + 1) =~= keys_of(e).take(i as int).push(e[i as int].0));
            i += 1;
        }
        assert(keys_of(e).take(i as int) =~= keys_of(e));
        r
    }

    /// Counts the keys that have a value.
    pub fn live_count(&self) -> (r: usize)
        ensures
            r == live_entries(self@.entries).len(),
    {
        let ghost e = self@.entries;
        let ghost p = |x: ModelEntry| x.1 is Some;
        let mut r: usize = 0;
        let mut i: usize = 0;
        assert(e.take(0).filter(p) =~= Seq::<ModelEntry>::empty()) by {
            reveal(Seq::filter);
        }
        while i < self.state.len()
            invariant
                i <= self.state.len(),
                r <= i,
                e == pairs_view(self.state@),
                p == |x: ModelEntry| x.1 is Some,
                r == e.take(i as int).filter(p).len(),
            decreases self.state.len() - i,
        {
            proof {
                lemma_filter_step(e, i as int, p);
            }
            if self.state[i].1.is_some() {
                r += 1;
            }
            i += 1;
        }
        assert(e.take(i as int) =~= e);
        r
    }

    /// Returns the total operation count.
    pub fn op_count(&self) -> (r: u64)
        ensures
            r == self@.op_count,
    {
        self.op_count
    }

    /// Returns the operation history.
    pub fn history(&self) -> (r: &[ModelOp])
        ensures
            ops_view(r@) == self@.history,
    {
        self.history.as_slice()
    }

    /// Clears the state, not the history.
    pub fn clear(&mut self)
        ensures
            final(self).wf(),
            final(self)@ == (ModelView { entries: Seq::<ModelEntry>::empty(), ..old(self)@ }),
    {
        self.state = Vec::new();
        assert(pairs_view(self.state@) =~= Seq::<ModelEntry>::empty());
    }

    /// Creates a snapshot of the current state.
    pub fn snapshot(&self) -> (r: ModelSnapshot)
        requires
            self.wf(),
        ensures
            r.wf(),
            r@ == (self@.entries, self@.op_count),
    {
        ModelSnapshot { state: copy_pairs(&self.state), op_count: self.op_count }
    }

    /// Restores the state of a snapshot; the history stays.
    pub fn restore(&mut self, snapshot: &ModelSnapshot)
        requires
            snapshot.wf(),
        ensures
            final(self).wf(),
            final(self)@ == (ModelView {
                entries: snapshot@.0,
                op_count: snapshot@.1,
                ..old(self)@
            }),
    {
        self.state = copy_pairs(&snapshot.state);
        self.op_count = snapshot.op_count;
    }

    /// The pairs of key and value, ascending by key.
    pub fn iter(&self) -> (r: &[(Vec<u8>, Option<Vec<u8>>)])
        ensures
            pairs_view(r@) == self@.entries,
    {
        self.state.as_slice()
    }

    /// Lists the pairs with a value whose keys are in the range from `start` up to `end`.
    pub fn scan(&self, start: &[u8], end: &[u8]) -> (r: Vec<(Vec<u8>, Vec<u8>)>)
        requires
            lex_le(start@, end@),
        ensures
            found_view(r@) == entries_between(self@.entries, start@, end@),
    {
        let ghost e = self@.entries;
        let ghost p = |x: ModelEntry| x.1 is Some && lex_le(start@, x.0) && lex_lt(x.0, end@);
        let mut r: Vec<(Vec<u8>, Vec<u8>)> = Vec::new();
        let mut i: usize = 0;
        assert(e.take(0).filter(p) =~= Seq::<ModelEntry>::empty()) by {
            reveal(Seq::filter);
        }
        assert(found_view(r@) =~= Seq::<ModelEntry>::empty());
        while i < self.state.len()
            invariant
                i <= self.state.len(),
                e == pairs_view(self.state@),
                p == |x: ModelEntry|
                    x.1 is Some && lex_le(start@, x.0) && lex_lt(x.0, end@),
                found_view(r@) == e.take(i as int).filter(p),
            decreases self.state.len() - i,
        {
            proof {
                lemma_filter_step(e, i as int, p);
                lemma_lex_total(start@, e[i as int].0);
                if lex_lt(start@, e[i as int].0) {
                    lemma_lex_asymmetric(start@, e[i as int].0);
                }
                lemma_lex_irreflexive(start@);
            }
            let ghost before = r@;
            let key = self.state[i].0.as_slice();
            if !bytes_lt(key, start) && bytes_lt(key, end) {
                if let Some(v) = &self.state[i].1 {
                    r.push((copy_bytes(key), copy_bytes(v.as_slice())));
                    assert(found_view(r@) =~= found_view(before).push(e[i as int]));
                }
            }
            i += 1;
        }
        assert(e.take(i as int) =~= e);
        r
    }
}

/// Pairs with a value as entries.
pub open spec fn found_view(s: Seq<(Vec<u8>, Vec<u8>)>) -> Seq<ModelEntry> {
    s.map_values(|p: (Vec<u8>, Vec<u8>)| (p.0@, Some(p.1@)))
}

/// Filtering one item more.
pub proof fn lemma_filter_step<A>(s: Seq<A>, i: int, p: spec_fn(A) -> bool)
    requires
        0 <= i < s.len(),
    ensures
        s.take(i + 1).filter(p) == if p(s[i]) {
            s.take(i).filter(p).push(s[i])
        } else {
            s.take(i).filter(p)
        },
{
    assert(s.take(i + 1).drop_last() =~= s.take(i));
    assert(s.take(i + 1).last() == s[i]);
    reveal(Seq::filter);
}

/// A snapshot of the state of a model.
#[derive(Clone, Debug)]
pub struct ModelSnapshot {
    state: Vec<(Vec<u8>, Option<Vec<u8>>)>,
    op_count: u64,
}

impl View for ModelSnapshot {
    type V = (Seq<ModelEntry>, u64);

    closed spec fn view(&self) -> (Seq<ModelEntry>, u64) {
        (pairs_view(self.state@), self.op_count)
    }
}

impl ModelSnapshot {
    /// Tells whether the keys are listed ascending.
    pub closed spec fn wf(&self) -> bool {
        keys_ascend(pairs_view(self.state@))
    }

    /// Gives the expected value for a key.
    pub fn get(&self, key: &[u8]) -> (r: Option<&Vec<u8>>)
        requires
            self.wf(),
        ensures
            match r {
                Some(v) => value_for(self@.0, key@) == Some(v@),
                None => value_for(self@.0, key@) is None,
            },
    {
        let i = find(&self.state, key);
        if i < self.state.len() && bytes_eq(self.state[i].0.as_slice(), key) {
            assert(self@.0[i as int] == (self.state@[i as int].0@, opt_view(
                self.state@[i as int].1,
            )));
            match &self.state[i].1 {
                Some(v) => Some(v),
                None => None,
            }
        } else {
            None
        }
    }

    /// Lists the pairs that have a value, ascending by key.
    pub fn iter_live(&self) -> (r: Vec<(Vec<u8>, Vec<u8>)>)
        ensures
            found_view(r@) == live_entries(self@.0),
    {
        let ghost e = self@.0;
        let ghost p = |x: ModelEntry| x.1 is Some;
        let mut r: Vec<(Vec<u8>, Vec<u8>)> = Vec::new();
        let mut i: usize = 0;
        assert(e.take(0).filter(p) =~= Seq::<ModelEntry>::empty()) by {
            reveal(Seq::filter);
        }
        assert(found_view(r@) =~= Seq::<ModelEntry>::empty());
        while i < self.state.len()
            invariant
                i <= self.state.len(),
                e == pairs_view(self.state@),
                p == |x: ModelEntry| x.1 is Some,
                found_view(r@) == e.take(i as int).filter(p),
            decreases self.state.len() - i,
        {
            proof {
                lemma_filter_step(e, i as int, p);
            }
            let ghost before = r@;
            if let Some(v) = &self.state[i].1 {
                r.push((copy_bytes(self.state[i].0.as_slice()), copy_bytes(v.as_slice())));
                assert(found_view(r@) =~= found_view(before).push(e[i as int]));
            }
            i += 1;
        }
        assert(e.take(i as int) =~= e);
        r
    }
}

/// Copies a list of byte strings.
pub fn copy_keys(s: &Vec<Vec<u8>>) -> (r: Vec<Vec<u8>>)
    ensures
        byte_strings(r@) == byte_strings(s@),
{
    let mut r: Vec<Vec<u8>> = Vec::new();
    let mut i: usize = 0;
    while i < s.len()
        invariant
            i <= s.len(),
            byte_strings(r@) == byte_strings(s@).take(i as int),
        decreases s.len() - i,
    {
        let ghost before = r@;
        r.push(copy_bytes(s[i].as_slice()));
        assert(byte_strings(r@) =~= byte_strings(before).push(s@[i as int]@));
        assert(byte_strings(s@).take(i + 1) =~= byte_strings(s@).take(i as int).push(
            s@[i as int]@,
        ));
        i += 1;
    }
    assert(byte_strings(s@).take(i as int) =~= byte_strings(s@));
    r
}

/// Values as mathematical values.
pub open spec fn values_view(s: Seq<Option<Vec<u8>>>) -> Seq<ValueView> {
    s.map_values(|v: Option<Vec<u8>>| opt_view(v))
}

/// Tells whether a value is what a reader may answer for a key.
pub open spec fn answers<F: Fn(&[u8]) -> Option<Vec<u8>>>(
    get: F,
    key: Seq<u8>,
    value: ValueView,
) -> bool {
    exists|k: &[u8], v: Option<Vec<u8>>|
        k@ == key && opt_view(v) == value && #[trigger] call_ensures(get, (k,), v)
}

/// Tells whether a reader may be asked for every key.
pub open spec fn answers_all<F: Fn(&[u8]) -> Option<Vec<u8>>>(get: F) -> bool {
    forall|k: &[u8]| #[trigger] call_requires(get, (k,))
}

/// Tells whether values are what a reader may answer for keys, one for each.
pub open spec fn read_by<F: Fn(&[u8]) -> Option<Vec<u8>>>(
    get: F,
    keys: Seq<Seq<u8>>,
    values: Seq<ValueView>,
) -> bool {
    &&& values.len() == keys.len()
    &&& forall|i: int| 0 <= i < keys.len() ==> answers(get, keys[i], #[trigger] values[i])
}

/// Reads each key.
pub fn read_keys<F: Fn(&[u8]) -> Option<Vec<u8>>>(keys: &Vec<Vec<u8>>, get: &F) -> (r: Vec<
    Option<Vec<u8>>,
>)
    requires
        answers_all(*get),
    ensures
        read_by(*get, byte_strings(keys@), values_view(r@)),
{
    let mut r: Vec<Option<Vec<u8>>> = Vec::new();
    let mut i: usize = 0;
    while i < keys.len()
        invariant
            i <= keys.len(),
            r.len() == i,
            answers_all(*get),
            forall|k: int|
                0 <= k < i ==> answers(
                    *get,
                    byte_strings(keys@)[k],
                    #[trigger] values_view(r@)[k],
                ),
        decreases keys.len() - i,
    {
        let ghost before = r@;
        let k = keys[i].as_slice();
        let v = get(k);
        assert(answers(*get, byte_strings(keys@)[i as int], opt_view(v)));
        r.push(v);
        assert(values_view(r@) =~= values_view(before).push(opt_view(v)));
        i += 1;
    }
    r
}

/// A key, what it should read and what it reads.
pub type Observed = (Seq<u8>, ValueView, ValueView);

/// What each entry should read and reads.
pub open spec fn observed(e: Seq<ModelEntry>, actual: Seq<ValueView>) -> Seq<Observed> {
    Seq::new(e.len(), |i: int| (e[i].0, e[i].1, actual[i]))
}

/// Tells whether a key reads what it should.
pub open spec fn agrees(o: Observed) -> bool {
    o.1 == o.2
}

/// The keys of observations.
pub open spec fn observed_keys(s: Seq<Observed>) -> Seq<Seq<u8>> {
    s.map_values(|o: Observed| o.0)
}

/// A single mismatch between model and database.
#[derive(Debug)]
pub struct Mismatch {
    pub key: Vec<u8>,
    pub expected: Option<Vec<u8>>,
    pub actual: Option<Vec<u8>>,
}

/// Mismatches as observations.
pub open spec fn mismatches_view(s: Seq<Mismatch>) -> Seq<Observed> {
    s.map_values(|m: Mismatch| (m.key@, opt_view(m.expected), opt_view(m.actual)))
}

/// Result of comparing a model to a database.
#[derive(Debug)]
pub struct ComparisonResult {
    /// Number of keys that read what they should.
    pub matching: usize,
    /// Keys that read another value.
    pub mismatches: Vec<Mismatch>,
    /// Keys that read nothing and should read something.
    pub missing_from_actual: Vec<Vec<u8>>,
    /// Keys that read something and should read nothing.
    pub unexpected_in_actual: Vec<Vec<u8>>,
}

/// The number of keys that read what they should.
pub open spec fn matching_count(s: Seq<Observed>) -> nat {
    s.filter(|o: Observed| agrees(o)).len()
}

/// The observations of a value other than the expected one.
pub open spec fn wrong_values(s: Seq<Observed>) -> Seq<Observed> {
    s.filter(|o: Observed| !agrees(o) && o.2 is Some)
}

/// The observations of nothing where a value is expected.
pub open spec fn missing_values(s: Seq<Observed>) -> Seq<Observed> {
    s.filter(|o: Observed| o.1 is Some && o.2 is None)
}

/// The observations of a value where none is expected.
pub open spec fn unexpected_values(s: Seq<Observed>) -> Seq<Observed> {
    s.filter(|o: Observed| o.1 is None && o.2 is Some)
}

/// The text of a comparison.
pub open spec fn comparison_text(c: ComparisonResult) -> Seq<char> {
    if c.mismatches.len() == 0 && c.missing_from_actual.len() == 0
        && c.unexpected_in_actual.len() == 0 {
        "OK: "@ + decimal(c.matching as nat) + " keys match"@
    } else {
        "MISMATCH: "@ + decimal(c.matching as nat) + " matching, "@ + decimal(
            c.mismatches.len() as nat,
        ) + " mismatches, "@ + decimal(c.missing_from_actual.len() as nat) + " missing, "@
            + decimal(c.unexpected_in_actual.len() as nat) + " unexpected"@
    }
}

impl ComparisonResult {
    /// Tells whether the comparison is the one of what was observed.
    pub open spec fn compares(&self, s: Seq<Observed>) -> bool {
        &&& self.matching == matching_count(s)
        &&& mismatches_view(self.mismatches@) == wrong_values(s)
        &&& byte_strings(self.missing_from_actual@) == observed_keys(missing_values(s))
        &&& byte_strings(self.unexpected_in_actual@) == observed_keys(unexpected_values(s))
    }

    /// Returns true if every key reads what it should.
    pub fn is_ok(&self) -> (r: bool)
        ensures
            r == (self.mismatches.len() == 0 && self.missing_from_actual.len() == 0
                && self.unexpected_in_actual.len() == 0),
    {
        self.mismatches.len() == 0 && self.missing_from_actual.len() == 0
            && self.unexpected_in_actual.len() == 0
    }

    /// Returns a summary string.
    pub fn summary(&self) -> (r: String)
        ensures
            r@ == comparison_text(*self),
    {
        if self.is_ok() {
            let mut r = text_of("OK: ");
            push_count(&mut r, self.matching);
            r.push_str(" keys match");
            r
        } else {
            let mut r = text_of("MISMATCH: ");
            push_count(&mut r, self.matching);
            r.push_str(" matching, ");
            push_count(&mut r, self.mismatches.len());
            r.push_str(" mismatches, ");
            push_count(&mut r, self.missing_from_actual.len());
            r.push_str(" missing, ");
            push_count(&mut r, self.unexpected_in_actual.len());
            r.push_str(" unexpected");
            r
        }
    }
}

proof fn lemma_filter_none<A>(s: Seq<A>, p: spec_fn(A) -> bool)
    ensures
        s.take(0).filter(p) == Seq::<A>::empty(),
{
    reveal(Seq::filter);
    assert(s.take(0).filter(p) =~= Seq::<A>::empty());
}

/// Compares what a model expects with the values read, one for each key that was written.
pub fn compare_values(model: &Model, actual: &Vec<Option<Vec<u8>>>) -> (r: ComparisonResult)
    requires
        actual.len() == model@.entries.len(),
    ensures
        r.compares(observed(model@.entries, values_view(actual@))),
{
    let ghost s = observed(model@.entries, values_view(actual@));
    let ghost p0 = |o: Observed| agrees(o);
    let ghost p1 = |o: Observed| !agrees(o) && o.2 is Some;
    let ghost p2 = |o: Observed| o.1 is Some && o.2 is None;
    let ghost p3 = |o: Observed| o.1 is None && o.2 is Some;
    let pairs = model.iter();
    let mut r = ComparisonResult {
        matching: 0,
        mismatches: Vec::new(),
        missing_from_actual: Vec::new(),
        unexpected_in_actual: Vec::new(),
    };
    proof {
        lemma_filter_none(s, p0);
        lemma_filter_none(s, p1);
        lemma_filter_none(s, p2);
        lemma_filter_none(s, p3);
        assert(mismatches_view(r.mismatches@) =~= Seq::<Observed>::empty());
        assert(byte_strings(r.missing_from_actual@) =~= observed_keys(Seq::<Observed>::empty()));
    }
    let mut i: usize = 0;
    while i < pairs.len()
        invariant
            i <= pairs.len(),
            pairs.len() == actual.len(),
            pairs_view(pairs@) == model@.entries,
            s == observed(model@.entries, values_view(actual@)),
            p0 == |o: Observed| agrees(o),
            p1 == |o: Observed| !agrees(o) && o.2 is Some,
            p2 == |o: Observed| o.1 is Some && o.2 is None,
            p3 == |o: Observed| o.1 is None && o.2 is Some,
            r.matching <= i,
            r.matching == s.take(i as int).filter(p0).len(),
            mismatches_view(r.mismatches@) == s.take(i as int).filter(p1),
            byte_strings(r.missing_from_actual@) == observed_keys(s.take(i as int).filter(p2)),
            byte_strings(r.unexpected_in_actual@) == observed_keys(s.take(i as int).filter(p3)),
        decreases pairs.len() - i,
    {
        let ghost o = s[i as int];
        proof {
            lemma_filter_step(s, i as int, p0);
            lemma_filter_step(s, i as int, p1);
            lemma_filter_step(s, i as int, p2);
            lemma_filter_step(s, i as int, p3);
            assert(o == (pairs@[i as int].0@, opt_view(pairs@[i as int].1), opt_view(
                actual@[i as int],
            )));
        }
        let key = &pairs[i].0;
        if same_value(&pairs[i].1, &actual[i]) {
            r.matching += 1;
        } else {
            let ghost m0 = r.mismatches@;
            let ghost q0 = r.missing_from_actual@;
            let ghost u0 = r.unexpected_in_actual@;
            match &actual[i] {
                None => {
                    r.missing_from_actual.push(copy_bytes(key.as_slice()));
                    assert(byte_strings(r.missing_from_actual@) =~= byte_strings(q0).push(o.0));
                    assert(observed_keys(s.take(i as int).filter(p2)).push(o.0) =~= observed_keys(
                        s.take(i as int).filter(p2).push(o),
                    ));
                },
                Some(act) => {
                    if pairs[i].1.is_none() {
                        r.unexpected_in_actual.push(copy_bytes(key.as_slice()));
                        assert(byte_strings(r.unexpected_in_actual@) =~= byte_strings(u0).push(
                            o.0,
                        ));
                        assert(observed_keys(s.take(i as int).filter(p3)).push(o.0)
                            =~= observed_keys(s.take(i as int).filter(p3).push(o)));
                    }
                    r.mismatches.push(
                        Mismatch {
                            key: copy_bytes(key.as_slice()),
                            expected: copy_value(&pairs[i].1),
                            actual: Some(copy_bytes(act.as_slice())),
                        },
                    );
                    assert(mismatches_view(r.mismatches@) =~= mismatches_view(m0).push(o));
                },
            }
        }
        i += 1;
    }
    assert(s.take(i as int) =~= s);
    r
}

/// Compares a model with what a reader of the database answers.
pub fn compare_model<F: Fn(&[u8]) -> Option<Vec<u8>>>(model: &Model, get_actual: F) -> (r:
    ComparisonResult)
    requires
        answers_all(get_actual),
    ensures
        exists|actual: Seq<ValueView>|
            read_by(get_actual, keys_of(model@.entries), actual) && r.compares(
                #[trigger] observed(model@.entries, actual),
            ),
{
    let keys = model.all_keys();
    let actual = read_keys(&keys, &get_actual);
    let r = compare_values(model, &actual);
    assert(read_by(get_actual, keys_of(model@.entries), values_view(actual@)));
    r
}

/// A comparison is fine exactly where every key reads what the model says.
pub proof fn law_comparison_ok(c: ComparisonResult, s: Seq<Observed>)
    requires
        c.compares(s),
    ensures
        (c.mismatches.len() == 0 && c.missing_from_actual.len() == 0
            && c.unexpected_in_actual.len() == 0) <==> forall|i: int|
            0 <= i < s.len() ==> (#[trigger] s[i]).1 == s[i].2,
{
    let p1 = |o: Observed| !agrees(o) && o.2 is Some;
    let p2 = |o: Observed| o.1 is Some && o.2 is None;
    let p3 = |o: Observed| o.1 is None && o.2 is Some;
    assert(mismatches_view(c.mismatches@).len() == c.mismatches.len());
    assert(byte_strings(c.missing_from_actual@).len() == c.missing_from_actual.len());
    assert(byte_strings(c.unexpected_in_actual@).len() == c.unexpected_in_actual.len());
    lemma_filter_empty(s, p1);
    lemma_filter_empty(s, p2);
    lemma_filter_empty(s, p3);
    if wrong_values(s).len() == 0 && missing_values(s).len() == 0 {
        assert forall|i: int| 0 <= i < s.len() implies agrees(#[trigger] s[i]) by {
            assert(!p1(s[i]) && !p2(s[i]));
        }
    }
    if forall|i: int| 0 <= i < s.len() ==> agrees(#[trigger] s[i]) {
        assert forall|i: int| 0 <= i < s.len() implies !p1(#[trigger] s[i]) && !p2(s[i]) && !p3(
            s[i],
        ) by {
            assert(agrees(s[i]));
        }
    }
}

/// Filtering leaves nothing exactly where no item passes.
pub proof fn lemma_filter_empty<A>(s: Seq<A>, p: spec_fn(A) -> bool)
    ensures
        s.filter(p).len() == 0 <==> forall|i: int| 0 <= i < s.len() ==> !p(#[trigger] s[i]),
    decreases s.len(),
{
    reveal(Seq::filter);
    if s.len() > 0 {
        lemma_filter_empty(s.drop_last(), p);
        if s.filter(p).len() == 0 {
            assert forall|i: int| 0 <= i < s.len() implies !p(#[trigger] s[i]) by {
                if i < s.len() - 1 {
                    assert(s[i] == s.drop_last()[i]);
                }
            }
        } else if s.drop_last().filter(p).len() > 0 {
            let i = choose|i: int| 0 <= i < s.drop_last().len() && p(#[trigger] s.drop_last()[i]);
            assert(s[i] == s.drop_last()[i]);
        } else {
            assert(p(s[s.len() - 1]));
        }
    }
}

/// What passes a filter: the items that pass the test, and no others.
pub proof fn lemma_filter_has<A>(s: Seq<A>, p: spec_fn(A) -> bool, x: A)
    ensures
        s.filter(p).contains(x) <==> s.contains(x) && p(x),
    decreases s.len(),
{
    reveal(Seq::filter);
    if s.len() > 0 {
        let t = s.drop_last();
        lemma_filter_has(t, p, x);
        assert(s =~= t.push(s.last()));
        lemma_push_has(t, s.last(), x);
        lemma_push_has(t.filter(p), s.last(), x);
    }
}

proof fn lemma_push_has<A>(s: Seq<A>, y: A, x: A)
    ensures
        s.push(y).contains(x) <==> s.contains(x) || x == y,
{
    let t = s.push(y);
    assert(t[s.len() as int] == y);
    if s.contains(x) {
        let i = choose|i: int| 0 <= i < s.len() && s[i] == x;
        assert(t[i] == x);
    }
    if t.contains(x) {
        let i = choose|i: int| 0 <= i < t.len() && t[i] == x;
        if i < s.len() {
            assert(s[i] == x);
        }
    }
}

/// Filtering a list with one item more.
pub proof fn lemma_filter_push<A>(s: Seq<A>, x: A, p: spec_fn(A) -> bool)
    ensures
        s.push(x).filter(p) == if p(x) {
            s.filter(p).push(x)
        } else {
            s.filter(p)
        },
{
    reveal(Seq::filter);
    assert(s.push(x).drop_last() =~= s);
}

proof fn lemma_filter_ascends(e: Seq<ModelEntry>, p: spec_fn(ModelEntry) -> bool)
    requires
        keys_ascend(e),
    ensures
        keys_ascend(e.filter(p)),
    decreases e.len(),
{
    reveal(Seq::filter);
    if e.len() > 0 {
        let t = e.drop_last();
        assert forall|i: int, j: int| 0 <= i < j < t.len() implies lex_lt(
            (#[trigger] t[i]).0,
            (#[trigger] t[j]).0,
        ) by {
            assert(t[i] == e[i] && t[j] == e[j]);
        }
        lemma_filter_ascends(t, p);
        let f = t.filter(p);
        let g = e.filter(p);
        assert forall|i: int, j: int| 0 <= i < j < g.len() implies lex_lt(
            (#[trigger] g[i]).0,
            (#[trigger] g[j]).0,
        ) by {
            assert(g[i] == f[i]);
            if j < f.len() {
                assert(g[j] == f[j]);
            } else {
                lemma_filter_has(t, p, f[i]);
                assert(f.contains(f[i]));
                let k = choose|k: int| 0 <= k < t.len() && t[k] == f[i];
                assert(e[k] == t[k] && e[e.len() - 1] == g[j]);
            }
        }
    }
}

/// What a key should read is the value of its entry; a key without an entry reads nothing.
pub proof fn law_entry_read(e: Seq<ModelEntry>, key: Seq<u8>)
    requires
        keys_ascend(e),
    ensures
        forall|i: int| 0 <= i < e.len() && (#[trigger] e[i]).0 == key ==> entry_for(e, key) == Some(
            e[i].1,
        ) && value_for(e, key) == e[i].1,
        (forall|i: int| 0 <= i < e.len() ==> (#[trigger] e[i]).0 != key) ==> entry_for(e, key)
            is None && value_for(e, key) is None,
{
    assert forall|i: int| 0 <= i < e.len() && (#[trigger] e[i]).0 == key implies entry_for(e, key)
        == Some(e[i].1) by {
        lemma_entry_at(e, i);
    }
}

/// A scan of a model gives exactly the keys of the range that have a value, each with what it
/// should read, ascending.
pub proof fn law_scan_lists_range(
    e: Seq<ModelEntry>,
    start: Seq<u8>,
    end: Seq<u8>,
    key: Seq<u8>,
    value: ValueView,
)
    requires
        keys_ascend(e),
    ensures
        entries_between(e, start, end).contains((key, value)) <==> value is Some && value
            == value_for(e, key) && !lex_lt(key, start) && lex_lt(key, end),
        keys_ascend(entries_between(e, start, end)),
{
    let p = |x: ModelEntry| x.1 is Some && lex_le(start, x.0) && lex_lt(x.0, end);
    lemma_filter_has(e, p, (key, value));
    lemma_filter_ascends(e, p);
    law_entry_read(e, key);
    crate::codec::lemma_lex_total(start, key);
    if lex_lt(start, key) {
        lemma_lex_asymmetric(start, key);
    }
    lemma_lex_irreflexive(key);
    if e.contains((key, value)) {
        let i = choose|i: int| 0 <= i < e.len() && e[i] == (key, value);
        assert(e[i].0 == key);
    } else if value is Some && value == value_for(e, key) {
        let i = choose|i: int| 0 <= i < e.len() && (#[trigger] e[i]).0 == key;
        assert(e[i] == (key, value));
    }
}

/// The live entries are exactly the keys that read something, each with what it reads, ascending.
pub proof fn law_live_lists_values(e: Seq<ModelEntry>, key: Seq<u8>, value: ValueView)
    requires
        keys_ascend(e),
    ensures
        live_entries(e).contains((key, value)) <==> value is Some && value == value_for(e, key),
        keys_ascend(live_entries(e)),
{
    let p = |x: ModelEntry| x.1 is Some;
    lemma_filter_has(e, p, (key, value));
    lemma_filter_ascends(e, p);
    law_entry_read(e, key);
    if e.contains((key, value)) {
        let i = choose|i: int| 0 <= i < e.len() && e[i] == (key, value);
        assert(e[i].0 == key);
    } else if value is Some && value == value_for(e, key) {
        let i = choose|i: int| 0 <= i < e.len() && (#[trigger] e[i]).0 == key;
        assert(e[i] == (key, value));
    }
}

/// Tells whether a model holds what its history says: each key reads the value of the last
/// operation on it, and a key without an operation has no entry.
pub open spec fn history_told(m: ModelView) -> bool {
    &&& keys_ascend(m.entries)
    &&& m.op_count == m.history.len()
    &&& forall|i: int| 0 <= i < m.history.len() ==> (#[trigger] m.history[i]).seq == i
    &&& forall|i: int|
        0 <= i < m.history.len() && (forall|j: int|
            i < j < m.history.len() ==> (#[trigger] m.history[j]).key != m.history[i].key)
            ==> entry_for(m.entries, (#[trigger] m.history[i]).key) == Some(m.history[i].value)
    &&& forall|key: Seq<u8>|
        (forall|i: int| 0 <= i < m.history.len() ==> (#[trigger] m.history[i]).key != key)
            ==> #[trigger] entry_for(m.entries, key) is None
}

/// A model keeps to its history: whatever is put or deleted, each key reads what the last
/// operation on it said.
pub proof fn law_model_keeps_history(m: ModelView, kind: OpKind, key: Seq<u8>, value: ValueView)
    requires
        history_told(m),
        m.op_count < u64::MAX,
    ensures
        history_told(model_after(m, kind, key, value)),
        model_after(m, kind, key, value).history == m.history + seq![
            ModelOpView { seq: m.op_count, kind, key, value },
        ],
{
    let n = model_after(m, kind, key, value);
    let op = ModelOpView { seq: m.op_count, kind, key, value };
    let last = m.history.len() as int;
    assert(m.history.push(op) =~= m.history + seq![op]);
    assert(n.history[last] == op);
    law_write_keeps_order(m.entries, key, value);
    law_model_reads_writes(m.entries, key, value, key);
    assert forall|i: int| 0 <= i < n.history.len() implies (#[trigger] n.history[i]).seq == i by {
        if i < last {
            assert(n.history[i] == m.history[i]);
        }
    }
    assert forall|i: int|
        0 <= i < n.history.len() && (forall|j: int|
            i < j < n.history.len() ==> (#[trigger] n.history[j]).key
                != n.history[i].key) implies entry_for(n.entries, (#[trigger] n.history[i]).key)
        == Some(n.history[i].value) by {
        if i < last {
            assert(n.history[i] == m.history[i]);
            assert(n.history[last].key != n.history[i].key);
            assert forall|j: int| i < j < last implies (#[trigger] m.history[j]).key
                != m.history[i].key by {
                assert(n.history[j] == m.history[j]);
            }
            law_model_reads_writes(m.entries, key, value, m.history[i].key);
        }
    }
    assert forall|k: Seq<u8>|
        (forall|i: int| 0 <= i < n.history.len() ==> (#[trigger] n.history[i]).key
            != k) implies #[trigger] entry_for(n.entries, k) is None by {
        assert(n.history[last].key != k);
        assert forall|i: int| 0 <= i < m.history.len() implies (#[trigger] m.history[i]).key
            != k by {
            assert(n.history[i] == m.history[i]);
        }
        law_model_reads_writes(m.entries, key, value, k);
    }
}

/// Every key is told in a comparison: it matches, or it is missing, or it reads another value.
/// The counts add up, and each list names exactly the keys that it is for.
pub proof fn law_comparison_tells_each(c: ComparisonResult, s: Seq<Observed>, o: Observed)
    requires
        c.compares(s),
    ensures
        c.matching + c.mismatches.len() + c.missing_from_actual.len() == s.len(),
        mismatches_view(c.mismatches@).contains(o) <==> s.contains(o) && o.2 is Some && o.1 != o.2,
        s.contains(o) && o.1 is Some && o.2 is None ==> byte_strings(
            c.missing_from_actual@,
        ).contains(o.0),
        byte_strings(c.missing_from_actual@).contains(o.0) ==> exists|i: int|
            0 <= i < s.len() && (#[trigger] s[i]).0 == o.0 && s[i].1 is Some && s[i].2 is None,
        s.contains(o) && o.1 is None && o.2 is Some ==> byte_strings(
            c.unexpected_in_actual@,
        ).contains(o.0),
        byte_strings(c.unexpected_in_actual@).contains(o.0) ==> exists|i: int|
            0 <= i < s.len() && (#[trigger] s[i]).0 == o.0 && s[i].1 is None && s[i].2 is Some,
{
    assert(mismatches_view(c.mismatches@).len() == c.mismatches.len());
    assert(byte_strings(c.missing_from_actual@).len() == c.missing_from_actual.len());
    let p1 = |x: Observed| !agrees(x) && x.2 is Some;
    let p2 = |x: Observed| x.1 is Some && x.2 is None;
    let p3 = |x: Observed| x.1 is None && x.2 is Some;
    lemma_observed_split(s);
    lemma_filter_has(s, p1, o);
    lemma_filter_keys(s, p2, o.0);
    lemma_filter_keys(s, p3, o.0);
    if s.contains(o) {
        let i = choose|i: int| 0 <= i < s.len() && s[i] == o;
        assert(s[i].0 == o.0);
    }
}

proof fn lemma_observed_split(s: Seq<Observed>)
    ensures
        matching_count(s) + wrong_values(s).len() + missing_values(s).len() == s.len(),
    decreases s.len(),
{
    reveal(Seq::filter);
    if s.len() > 0 {
        lemma_observed_split(s.drop_last());
    }
}

/// The keys of the observations that pass a test.
pub proof fn lemma_filter_keys(s: Seq<Observed>, p: spec_fn(Observed) -> bool, key: Seq<u8>)
    ensures
        observed_keys(s.filter(p)).contains(key) <==> exists|i: int|
            0 <= i < s.len() && (#[trigger] s[i]).0 == key && p(s[i]),
{
    let f = s.filter(p);
    let ks = observed_keys(f);
    if ks.contains(key) {
        let i = choose|i: int| 0 <= i < ks.len() && ks[i] == key;
        assert(f.contains(f[i]));
        lemma_filter_has(s, p, f[i]);
        let j = choose|j: int| 0 <= j < s.len() && s[j] == f[i];
        assert(s[j].0 == key && p(s[j]));
    }
    if exists|i: int| 0 <= i < s.len() && (#[trigger] s[i]).0 == key && p(s[i]) {
        let i = choose|i: int| 0 <= i < s.len() && (#[trigger] s[i]).0 == key && p(s[i]);
        assert(s.contains(s[i]));
        lemma_filter_has(s, p, s[i]);
        let j = choose|j: int| 0 <= j < f.len() && f[j] == s[i];
        assert(ks[j] == key);
    }
}

} // verus!
