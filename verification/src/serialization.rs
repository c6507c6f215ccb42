//! Serializability of transaction histories: the graph of dependencies between committed
//! transactions, and its cycles.

use crate::codec::{bytes_eq, copy_bytes};
use crate::invariants::{failing, passing, InvariantResult};
use crate::memtable::{opt_view, ValueView};
use crate::model::{copy_value, lemma_filter_step, pairs_view};
use crate::order::{greater_at_end, law_sorted_in_order, lemma_greater_at_end, put_in_order};
use crate::order::{in_order, stable_sorted};
use crate::text::{decimal, push_decimal, text_of};
use std::collections::HashSet;
use vstd::prelude::*;

verus! {

/// A recorded transaction operation.
#[derive(Clone, Debug)]
pub enum TxnOperation {
    /// Read a key and got a value, or none.
    Read { key: Vec<u8>, value: Option<Vec<u8>> },
    /// Wrote a key with a value, or deleted it.
    Write { key: Vec<u8>, value: Option<Vec<u8>> },
}

/// An operation as a mathematical value.
pub enum TxnOpView {
    Read { key: Seq<u8>, value: ValueView },
    Write { key: Seq<u8>, value: ValueView },
}

impl View for TxnOperation {
    type V = TxnOpView;

    open spec fn view(&self) -> TxnOpView {
        match self {
            TxnOperation::Read { key, value } => TxnOpView::Read {
                key: key@,
                value: opt_view(*value),
            },
            TxnOperation::Write { key, value } => TxnOpView::Write {
                key: key@,
                value: opt_view(*value),
            },
        }
    }
}

/// Operations as mathematical values.
pub open spec fn txn_ops_view(s: Seq<TxnOperation>) -> Seq<TxnOpView> {
    s.map_values(|o: TxnOperation| o@)
}

/// A completed transaction.
#[derive(Clone, Debug)]
pub struct CompletedTransaction {
    /// Transaction ID.
    pub txn_id: u64,
    /// Begin timestamp.
    pub begin_ts: u64,
    /// Commit timestamp, 0 if aborted.
    pub commit_ts: u64,
    /// Whether the transaction committed.
    pub committed: bool,
    /// Operations performed.
    pub operations: Vec<TxnOperation>,
}

/// A transaction as a mathematical value.
pub struct TxnView {
    pub txn_id: u64,
    pub begin_ts: u64,
    pub commit_ts: u64,
    pub committed: bool,
    pub operations: Seq<TxnOpView>,
}

impl View for CompletedTransaction {
    type V = TxnView;

    open spec fn view(&self) -> TxnView {
        TxnView {
            txn_id: self.txn_id,
            begin_ts: self.begin_ts,
            commit_ts: self.commit_ts,
            committed: self.committed,
            operations: txn_ops_view(self.operations@),
        }
    }
}

/// Transactions as mathematical values.
pub open spec fn txns_view(s: Seq<CompletedTransaction>) -> Seq<TxnView> {
    s.map_values(|t: CompletedTransaction| t@)
}

/// Dependency type between transactions.
#[derive(Clone, Copy, Debug, PartialEq, Eq, Structural)]
pub enum DependencyType {
    /// The second overwrote a value written by the first.
    WriteWrite,
    /// The second read a value written by the first.
    WriteRead,
    /// The second wrote a value that the first read.
    ReadWrite,
}

/// An edge in the serialization graph.
#[derive(Clone, Debug)]
pub struct DependencyEdge {
    /// Source transaction.
    pub from: u64,
    /// Target transaction.
    pub to: u64,
    /// Type of dependency.
    pub dep_type: DependencyType,
    /// Key involved.
    pub key: Vec<u8>,
}

/// An edge as a mathematical value.
pub struct EdgeView {
    pub from: u64,
    pub to: u64,
    pub dep_type: DependencyType,
    pub key: Seq<u8>,
}

impl View for DependencyEdge {
    type V = EdgeView;

    open spec fn view(&self) -> EdgeView {
        EdgeView { from: self.from, to: self.to, dep_type: self.dep_type, key: self.key@ }
    }
}

/// Edges as mathematical values.
pub open spec fn edges_view(s: Seq<DependencyEdge>) -> Seq<EdgeView> {
    s.map_values(|e: DependencyEdge| e@)
}

/// Copies edges.
pub fn copy_edges(s: &Vec<DependencyEdge>) -> (r: Vec<DependencyEdge>)
    ensures
        edges_view(r@) == edges_view(s@),
{
    let mut r: Vec<DependencyEdge> = Vec::new();
    let mut i: usize = 0;
    while i < s.len()
        invariant
            i <= s.len(),
            edges_view(r@) == edges_view(s@).take(i as int),
        decreases s.len() - i,
    {
        let ghost before = r@;
        let e = &s[i];
        r.push(
            DependencyEdge {
                from: e.from,
                to: e.to,
                dep_type: e.dep_type,
                key: copy_bytes(e.key.as_slice()),
            },
        );
        assert(edges_view(r@) =~= edges_view(before).push(s@[i as int]@));
        assert(edges_view(s@).take(i + 1) =~= edges_view(s@).take(i as int).push(s@[i as int]@));
        i += 1;
    }
    assert(edges_view(s@).take(i as int) =~= edges_view(s@));
    r
}

/// A key and a value.
pub type Access = (Seq<u8>, ValueView);

/// Tells whether a key is in a set of accesses.
pub open spec fn accesses(s: Seq<Access>, key: Seq<u8>) -> bool {
    exists|i: int| 0 <= i < s.len() && (#[trigger] s[i]).0 == key
}

/// The accesses with one more, which replaces an earlier one of the same key.
pub open spec fn with_access(s: Seq<Access>, key: Seq<u8>, value: ValueView) -> Seq<Access> {
    if accesses(s, key) {
        Seq::new(
            s.len(),
            |i: int|
                if s[i].0 == key {
                    (key, value)
                } else {
                    s[i]
                },
        )
    } else {
        s.push((key, value))
    }
}

/// The keys that operations write, each once in the order of its first write, with the value
/// of its last.
pub open spec fn write_set(ops: Seq<TxnOpView>) -> Seq<Access>
    decreases ops.len(),
{
    if ops.len() == 0 {
        Seq::empty()
    } else {
        match ops.last() {
            TxnOpView::Write { key, value } => with_access(write_set(ops.drop_last()), key, value),
            TxnOpView::Read { .. } => write_set(ops.drop_last()),
        }
    }
}

/// The keys that operations read, each once in the order of its first read, with the value of
/// its last.
pub open spec fn read_set(ops: Seq<TxnOpView>) -> Seq<Access>
    decreases ops.len(),
{
    if ops.len() == 0 {
        Seq::empty()
    } else {
        match ops.last() {
            TxnOpView::Read { key, value } => with_access(read_set(ops.drop_last()), key, value),
            TxnOpView::Write { .. } => read_set(ops.drop_last()),
        }
    }
}

fn find_access(s: &Vec<(Vec<u8>, Option<Vec<u8>>)>, key: &[u8]) -> (r: Option<usize>)
    ensures
        match r {
            Some(i) => i < s.len() && s@[i as int].0@ == key@ && accesses(pairs_view(s@), key@),
            None => !accesses(pairs_view(s@), key@),
        },
{
    let ghost v = pairs_view(s@);
    let mut i: usize = 0;
    while i < s.len()
        invariant
            i <= s.len(),
            v == pairs_view(s@),
            forall|k: int| 0 <= k < i ==> (#[trigger] v[k]).0 != key@,
        decreases s.len() - i,
    {
        assert(v[i as int].0 == s@[i as int].0@);
        if bytes_eq(s[i].0.as_slice(), key) {
            return Some(i);
        }
        i += 1;
    }
    None
}

/// Tells whether no key is listed twice.
pub open spec fn keys_once(s: Seq<Access>) -> bool {
    forall|i: int, j: int| 0 <= i < j < s.len() ==> (#[trigger] s[i]).0 != (#[trigger] s[j]).0
}

fn note_access(s: &mut Vec<(Vec<u8>, Option<Vec<u8>>)>, key: &Vec<u8>, value: &Option<Vec<u8>>)
    requires
        keys_once(pairs_view(old(s)@)),
    ensures
        pairs_view(final(s)@) == with_access(pairs_view(old(s)@), key@, opt_view(*value)),
        keys_once(pairs_view(final(s)@)),
{
    let ghost v = pairs_view(s@);
    let ghost want = with_access(v, key@, opt_view(*value));
    match find_access(s, key.as_slice()) {
        Some(i) => {
            s.set(i, (copy_bytes(key.as_slice()), copy_value(value)));
            assert(v[i as int].0 == key@);
            assert(pairs_view(s@) =~= v.update(i as int, (key@, opt_view(*value))));
            assert(pairs_view(s@) =~= want);
        },
        None => {
            s.push((copy_bytes(key.as_slice()), copy_value(value)));
            assert(pairs_view(s@) =~= v.push((key@, opt_view(*value))));
            assert forall|i: int, j: int| 0 <= i < j < want.len() implies (#[trigger] want[i]).0
                != (#[trigger] want[j]).0 by {
                assert(want[i] == v[i]);
                if j < v.len() {
                    assert(want[j] == v[j]);
                }
            }
        },
    }
}

/// The keys of accesses that others access too, as edges.
pub open spec fn shared_edges(
    a: Seq<Access>,
    b: Seq<Access>,
    from: u64,
    to: u64,
    dep_type: DependencyType,
) -> Seq<EdgeView>
    decreases a.len(),
{
    if a.len() == 0 {
        Seq::empty()
    } else {
        let rest = shared_edges(a.drop_last(), b, from, to, dep_type);
        if accesses(b, a.last().0) {
            rest.push(EdgeView { from, to, dep_type, key: a.last().0 })
        } else {
            rest
        }
    }
}

/// The edges between two transactions, the first of which committed first: the second
/// overwrote the first, read the first, overwrote what the first had read, or read what the
/// first then overwrote.
pub open spec fn edges_between(t1: TxnView, t2: TxnView) -> Seq<EdgeView> {
    let w1 = write_set(t1.operations);
    let w2 = write_set(t2.operations);
    let r1 = read_set(t1.operations);
    let r2 = read_set(t2.operations);
    let none = Seq::<EdgeView>::empty();
    let ww = shared_edges(w1, w2, t1.txn_id, t2.txn_id, DependencyType::WriteWrite);
    let wr = if t2.begin_ts >= t1.commit_ts {
        shared_edges(w1, r2, t1.txn_id, t2.txn_id, DependencyType::WriteRead)
    } else {
        none
    };
    let rw = if t1.begin_ts < t2.commit_ts {
        shared_edges(r1, w2, t1.txn_id, t2.txn_id, DependencyType::ReadWrite)
    } else {
        none
    };
    let back = if t2.begin_ts < t1.commit_ts {
        shared_edges(r2, w1, t2.txn_id, t1.txn_id, DependencyType::ReadWrite)
    } else {
        none
    };
    ww + wr + rw + back
}

/// The edges between transaction `i` and those after it up to `j`.
pub open spec fn edges_after(c: Seq<TxnView>, i: int, j: int) -> Seq<EdgeView>
    decreases j - i,
{
    if j <= i + 1 {
        Seq::empty()
    } else {
        edges_after(c, i, j - 1) + edges_between(c[i], c[j - 1])
    }
}

/// The edges between the first `n` transactions and all after each of them.
pub open spec fn edges_of_first(c: Seq<TxnView>, n: nat) -> Seq<EdgeView>
    decreases n,
{
    if n == 0 {
        Seq::empty()
    } else {
        edges_of_first(c, (n - 1) as nat) + edges_after(c, n - 1, c.len() as int)
    }
}

/// The commit timestamp of a transaction.
pub open spec fn commit_of() -> spec_fn(TxnView) -> u64 {
    |t: TxnView| t.commit_ts
}

/// The committed transactions in order of commit.
pub open spec fn in_commit_order(txns: Seq<TxnView>) -> Seq<TxnView> {
    stable_sorted(txns.filter(|t: TxnView| t.committed), commit_of())
}

/// The dependency graph of transactions.
pub open spec fn graph_of(txns: Seq<TxnView>) -> Seq<EdgeView> {
    edges_of_first(in_commit_order(txns), in_commit_order(txns).len())
}

/// Tells whether an edge leads from one transaction to another.
pub open spec fn edge(edges: Seq<EdgeView>, a: u64, b: u64) -> bool {
    exists|i: int| 0 <= i < edges.len() && (#[trigger] edges[i]).from == a && edges[i].to == b
}

/// Tells whether each transaction of a list leads to the next.
pub open spec fn walk(edges: Seq<EdgeView>, w: Seq<u64>) -> bool {
    forall|i: int| 0 < i < w.len() ==> edge(edges, w[i - 1], #[trigger] w[i])
}

/// Tells whether a walk comes back to where it started.
pub open spec fn closed_walk(edges: Seq<EdgeView>, w: Seq<u64>) -> bool {
    w.len() >= 2 && w.first() == w.last() && walk(edges, w)
}

/// Tells whether the graph has a cycle.
pub open spec fn has_cycle(edges: Seq<EdgeView>) -> bool {
    exists|w: Seq<u64>| closed_walk(edges, w)
}

/// Tells whether a list is a cycle: it comes back to where it started, and passes each other
/// transaction once.
pub open spec fn simple_cycle(edges: Seq<EdgeView>, w: Seq<u64>) -> bool {
    closed_walk(edges, w) && w.drop_last().no_duplicates()
}

/// Tells whether a walk ends where it was before.
#[verifier::opaque]
spec fn lasso(edges: Seq<EdgeView>, w: Seq<u64>) -> bool {
    &&& walk(edges, w)
    &&& exists|i: int| 0 <= i < w.len() - 1 && #[trigger] w[i] == w.last()
}

fn copy_part(path: &Vec<u64>, from: usize, to: usize) -> (r: Vec<u64>)
    requires
        from <= to <= path@.len(),
    ensures
        r@ == path@.subrange(from as int, to as int),
{
    let mut r: Vec<u64> = Vec::new();
    let mut k: usize = from;
    while k < to
        invariant
            from <= k <= to <= path@.len(),
            r@ == path@.subrange(from as int, k as int),
        decreases to - k,
    {
        r.push(path[k]);
        k += 1;
        assert(r@ =~= path@.subrange(from as int, k as int));
    }
    r
}

proof fn lemma_lasso(edges: Seq<EdgeView>, w: Seq<u64>) -> (i: int)
    requires
        lasso(edges, w),
    ensures
        0 <= i < w.len() - 1,
        w[i] == w.last(),
{
    reveal(lasso);
    choose|i: int| 0 <= i < w.len() - 1 && #[trigger] w[i] == w.last()
}

proof fn lemma_cut(edges: Seq<EdgeView>, path: Seq<u64>, i: int, j: int)
    requires
        lasso(edges, path),
        0 <= i < j < path.len(),
        path[i] == path[j],
        path.take(j).no_duplicates(),
    ensures
        simple_cycle(edges, path.subrange(i, j + 1)),
{
    reveal(lasso);
    let w = path.subrange(i, j + 1);
    assert forall|k: int| 0 < k < w.len() implies edge(edges, w[k - 1], #[trigger] w[k]) by {
        assert(edge(edges, path[i + k - 1], path[i + k]));
    }
    let t = path.take(j);
    let d = w.drop_last();
    assert forall|a: int, b: int| 0 <= a < d.len() && 0 <= b < d.len() && a != b implies d[a]
        != d[b] by {
        assert(t[i + a] != t[i + b]);
    }
}

proof fn lemma_no_repeat(path: Seq<u64>, j: int)
    requires
        0 <= j < path.len(),
        path.take(j).no_duplicates(),
        forall|k: int| 0 <= k < j ==> path[k] != path[j],
    ensures
        path.take(j + 1).no_duplicates(),
{
    let t = path.take(j + 1);
    assert forall|a: int, b: int| 0 <= a < t.len() && 0 <= b < t.len() && a != b implies t[a]
        != t[b] by {
        if a < j && b < j {
            assert(path.take(j)[a] != path.take(j)[b]);
        }
    }
}

/// Finds the first transaction of a list that was there before, and where it was.
fn first_repeat(path: &Vec<u64>, Ghost(first): Ghost<int>) -> (r: (usize, usize))
    requires
        0 <= first < path@.len() - 1,
        path@[first] == path@.last(),
    ensures
        r.0 < r.1 < path@.len(),
        path@[r.0 as int] == path@[r.1 as int],
        path@.take(r.1 as int).no_duplicates(),
{
    let ghost p = path@;
    let n = path.len();
    let mut j: usize = 0;
    loop
        invariant
            p == path@,
            n == p.len(),
            0 <= first < p.len() - 1,
            p[first] == p.last(),
            j < p.len(),
            p.take(j as int).no_duplicates(),
        decreases p.len() - j,
    {
        let mut i: usize = 0;
        while i < j && path[i] != path[j]
            invariant
                i <= j < p.len(),
                p == path@,
                forall|k: int| 0 <= k < i ==> p[k] != p[j as int],
            decreases j - i,
        {
            i += 1;
        }
        if i < j {
            return (i, j);
        }
        proof {
            lemma_no_repeat(p, j as int);
            assert(j != p.len() - 1);
        }
        j += 1;
    }
}

/// Cuts the cycle out of a walk that ends where it was before.
fn cut_cycle(path: &Vec<u64>, edges: Ghost<Seq<EdgeView>>) -> (r: Vec<u64>)
    requires
        lasso(edges@, path@),
    ensures
        simple_cycle(edges@, r@),
{
    let ghost first = lemma_lasso(edges@, path@);
    let (i, j) = first_repeat(path, Ghost(first));
    proof {
        lemma_cut(edges@, path@, i as int, j as int);
    }
    let n = path.len();
    assert(j < n);
    copy_part(path, i, j + 1)
}

/// Tells whether a list holds each of a set of transactions once, each behind all that it
/// leads to.
pub open spec fn leads_back(edges: Seq<EdgeView>, done: Seq<u64>, all: Set<u64>) -> bool {
    &&& forall|x: u64| all.contains(x) <==> done.contains(x)
    &&& done.no_duplicates()
    &&& forall|k: int, b: u64|
        0 <= k < done.len() && #[trigger] edge(edges, done[k], b) ==> done.take(k).contains(b)
}

/// Tells whether a set of transactions can be so listed.
pub open spec fn settled(edges: Seq<EdgeView>, all: Set<u64>) -> bool {
    exists|done: Seq<u64>| leads_back(edges, done, all)
}

proof fn lemma_done_descends(edges: Seq<EdgeView>, done: Seq<u64>, all: Set<u64>, w: Seq<u64>, k: int)
    requires
        leads_back(edges, done, all),
        walk(edges, w),
        0 <= k < w.len(),
        all.contains(w[0]),
    ensures
        done.contains(w[k]),
        k > 0 ==> done.index_of(w[k]) < done.index_of(w[0]),
    decreases k,
{
    if k > 0 {
        lemma_done_descends(edges, done, all, w, k - 1);
        let p = done.index_of(w[k - 1]);
        assert(done[p] == w[k - 1]);
        assert(edge(edges, w[k - 1], w[k]));
        assert(edge(edges, done[p], w[k]));
        assert(done.take(p).contains(w[k]));
        let q = choose|q: int| 0 <= q < p && done.take(p)[q] == w[k];
        assert(done[q] == w[k]);
        let r = done.index_of(w[k]);
        assert(done[r] == w[k]);
        assert(r == q);
    }
}

/// A graph all of whose sources are so listed has no cycle.
proof fn lemma_settled_acyclic(edges: Seq<EdgeView>, all: Set<u64>)
    requires
        settled(edges, all),
        forall|i: int| 0 <= i < edges.len() ==> all.contains((#[trigger] edges[i]).from),
    ensures
        !has_cycle(edges),
{
    if has_cycle(edges) {
        let w = choose|w: Seq<u64>| closed_walk(edges, w);
        let done = choose|done: Seq<u64>| leads_back(edges, done, all);
        assert(edge(edges, w[0], w[1]));
        lemma_done_descends(edges, done, all, w, w.len() - 1);
    }
}

/// The transactions that edges join.
pub open spec fn joined(edges: Seq<EdgeView>) -> Set<u64> {
    edges.map_values(|e: EdgeView| e.from).to_set() + edges.map_values(
        |e: EdgeView| e.to,
    ).to_set()
}

proof fn lemma_joined(edges: Seq<EdgeView>)
    ensures
        joined(edges).finite(),
        forall|i: int|
            0 <= i < edges.len() ==> joined(edges).contains((#[trigger] edges[i]).from)
                && joined(edges).contains(edges[i].to),
        forall|a: u64, b: u64| #[trigger] edge(edges, a, b) ==> joined(edges).contains(b),
{
    let f = edges.map_values(|e: EdgeView| e.from);
    let t = edges.map_values(|e: EdgeView| e.to);
    vstd::seq_lib::seq_to_set_is_finite(f);
    vstd::seq_lib::seq_to_set_is_finite(t);
    assert forall|i: int| 0 <= i < edges.len() implies joined(edges).contains(
        (#[trigger] edges[i]).from,
    ) && joined(edges).contains(edges[i].to) by {
        assert(f[i] == edges[i].from);
        assert(t[i] == edges[i].to);
        assert(f.contains(edges[i].from));
        assert(t.contains(edges[i].to));
    }
}

/// Lists where the edges from a transaction lead, in the order of the edges.
fn successors(edges: &Vec<DependencyEdge>, node: u64) -> (r: Vec<u64>)
    ensures
        forall|b: u64| r@.contains(b) <==> edge(edges_view(edges@), node, b),
{
    let ghost v = edges_view(edges@);
    let mut r: Vec<u64> = Vec::new();
    let mut i: usize = 0;
    while i < edges.len()
        invariant
            i <= edges.len(),
            v == edges_view(edges@),
            forall|k: int|
                0 <= k < r.len() ==> edge(v, node, #[trigger] r@[k]),
            forall|k: int|
                0 <= k < i && (#[trigger] v[k]).from == node ==> r@.contains(v[k].to),
        decreases edges.len() - i,
    {
        assert(v[i as int] == edges@[i as int]@);
        if edges[i].from == node {
            let ghost before = r@;
            let to = edges[i].to;
            assert(edge(v, node, to));
            r.push(to);
            assert forall|k: int| 0 <= k < i + 1 && (#[trigger] v[k]).from == node implies r@.contains(
                v[k].to,
            ) by {
                if k < i {
                    assert(before.contains(v[k].to));
                    let q = choose|q: int| 0 <= q < before.len() && before[q] == v[k].to;
                    assert(r@[q] == v[k].to);
                } else {
                    assert(r@[before.len() as int] == to);
                }
            }
        }
        i += 1;
    }
    assert forall|b: u64| r@.contains(b) <==> edge(v, node, b) by {
        if edge(v, node, b) {
            let k = choose|k: int|
                0 <= k < v.len() && (#[trigger] v[k]).from == node && v[k].to == b;
            assert(r@.contains(v[k].to));
        }
        if r@.contains(b) {
            let k = choose|k: int| 0 <= k < r@.len() && r@[k] == b;
            assert(edge(v, node, r@[k]));
        }
    }
    r
}

proof fn lemma_settle_one_more(edges: Seq<EdgeView>, all: Set<u64>, node: u64)
    requires
        settled(edges, all),
        !all.contains(node),
        forall|b: u64| #[trigger] edge(edges, node, b) ==> all.contains(b),
    ensures
        settled(edges, all.insert(node)),
{
    let done = choose|done: Seq<u64>| leads_back(edges, done, all);
    let next = done.push(node);
    assert(!done.contains(node));
    assert forall|x: u64| all.insert(node).contains(x) <==> next.contains(x) by {
        if done.contains(x) {
            let k = choose|k: int| 0 <= k < done.len() && done[k] == x;
            assert(next[k] == x);
        }
        if x == node {
            assert(next[done.len() as int] == x);
        }
        if next.contains(x) && x != node {
            let k = choose|k: int| 0 <= k < next.len() && next[k] == x;
            assert(done[k] == x);
        }
    }
    assert forall|k: int, b: u64|
        0 <= k < next.len() && #[trigger] edge(edges, next[k], b) implies next.take(k).contains(
        b,
    ) by {
        if k < done.len() {
            assert(edge(edges, done[k], b));
            assert(next.take(k) =~= done.take(k));
        } else {
            assert(next.take(k) =~= done);
        }
    }
    assert(leads_back(edges, next, all.insert(node)));
}

proof fn lemma_fewer_left(all: Set<u64>, before: Set<u64>, after: Set<u64>, node: u64)
    requires
        all.finite(),
        all.contains(node),
        !before.contains(node),
        before.insert(node).subset_of(after),
    ensures
        all.difference(after).len() < all.difference(before).len(),
{
    let a = all.difference(after);
    let b = all.difference(before);
    assert(b.contains(node));
    assert(!a.contains(node));
    assert(a.subset_of(b.remove(node)));
    vstd::set_lib::lemma_len_subset(a, b.remove(node));
}

impl SerializationChecker {
    /// Follows the edges from a transaction that was not visited, at the end of a walk. Gives
    /// `true` where the walk comes back to itself, and the walk then ends there.
    fn has_cycle_dfs(
        node: u64,
        edges: &Vec<DependencyEdge>,
        visited: &mut HashSet<u64>,
        rec_stack: &mut HashSet<u64>,
        path: &mut Vec<u64>,
    ) -> (r: bool)
        requires
            joined(edges_view(edges@)).contains(node),
            !old(visited)@.contains(node),
            old(rec_stack)@ == old(path)@.to_set(),
            old(rec_stack)@.subset_of(old(visited)@),
            walk(edges_view(edges@), old(path)@.push(node)),
            settled(edges_view(edges@), old(visited)@.difference(old(rec_stack)@)),
        ensures
            r ==> lasso(edges_view(edges@), final(path)@),
            !r ==> {
                &&& final(path)@ == old(path)@
                &&& final(rec_stack)@ == old(rec_stack)@
                &&& old(visited)@.insert(node).subset_of(final(visited)@)
                &&& settled(
                    edges_view(edges@),
                    final(visited)@.difference(final(rec_stack)@),
                )
            },
        decreases joined(edges_view(edges@)).difference(old(visited)@).len(),
    {
        broadcast use vstd::std_specs::hash::group_hash_axioms;

        let ghost ev = edges_view(edges@);
        let ghost visited0 = visited@;
        let ghost rec0 = rec_stack@;
        let ghost path0 = path@;
        visited.insert(node);
        rec_stack.insert(node);
        path.push(node);
        proof {
            lemma_joined(ev);
            assert(rec_stack@ =~= path@.to_set()) by {
                assert forall|x: u64| rec0.insert(node).contains(x) <==> path@.to_set().contains(
                    x,
                ) by {
                    if path0.contains(x) {
                        let k = choose|k: int| 0 <= k < path0.len() && path0[k] == x;
                        assert(path@[k] == x);
                    }
                    if x == node {
                        assert(path@[path0.len() as int] == x);
                    }
                    if path@.contains(x) && x != node {
                        let k = choose|k: int| 0 <= k < path@.len() && path@[k] == x;
                        assert(path0[k] == x);
                    }
                }
            }
            assert(visited@.difference(rec_stack@) =~= visited0.difference(rec0));
        }
        let neighbors = successors(edges, node);
        let mut i: usize = 0;
        while i < neighbors.len()
            invariant
                i <= neighbors.len(),
                ev == edges_view(edges@),
                joined(ev).contains(node),
                joined(ev).finite(),
                forall|a: u64, b: u64| #[trigger] edge(ev, a, b) ==> joined(ev).contains(b),
                !visited0.contains(node),
                visited0 == old(visited)@,
                forall|b: u64| neighbors@.contains(b) <==> edge(ev, node, b),
                path@ == path0.push(node),
                rec_stack@ == rec0.insert(node),
                rec_stack@ == path@.to_set(),
                rec_stack@.subset_of(visited@),
                visited0.insert(node).subset_of(visited@),
                walk(ev, path@),
                settled(ev, visited@.difference(rec_stack@)),
                forall|k: int|
                    0 <= k < i ==> visited@.contains(#[trigger] neighbors@[k])
                        && !rec_stack@.contains(neighbors@[k]),
            decreases neighbors.len() - i,
        {
            let neighbor = neighbors[i];
            assert(neighbors@.contains(neighbor));
            assert(edge(ev, node, neighbor));
            let ghost next = path@.push(neighbor);
            assert(walk(ev, next)) by {
                assert forall|k: int| 0 < k < next.len() implies edge(
                    ev,
                    next[k - 1],
                    #[trigger] next[k],
                ) by {
                    if k < path@.len() {
                        assert(edge(ev, path@[k - 1], path@[k]));
                    }
                }
            }
            if !visited.contains(&neighbor) {
                let ghost visited1 = visited@;
                proof {
                    lemma_fewer_left(joined(ev), visited0, visited@, node);
                }
                if SerializationChecker::has_cycle_dfs(neighbor, edges, visited, rec_stack, path) {
                    return true;
                }
                assert forall|k: int| 0 <= k < i + 1 implies visited@.contains(
                    #[trigger] neighbors@[k],
                ) && !rec_stack@.contains(neighbors@[k]) by {
                    if k < i {
                        assert(visited1.contains(neighbors@[k]));
                    }
                }
            } else if rec_stack.contains(&neighbor) {
                let ghost before = path@;
                path.push(neighbor);
                proof {
                    assert(before.to_set().contains(neighbor));
                    let k = choose|k: int| 0 <= k < before.len() && before[k] == neighbor;
                    assert(path@[k] == path@.last());
                    reveal(lasso);
                }
                return true;
            }
            i += 1;
        }
        let ghost black = visited@.difference(rec_stack@);
        proof {
            assert forall|b: u64| #[trigger] edge(ev, node, b) implies black.contains(b) by {
                assert(neighbors@.contains(b));
                let k = choose|k: int| 0 <= k < neighbors@.len() && neighbors@[k] == b;
                assert(visited@.contains(neighbors@[k]));
            }
            lemma_settle_one_more(ev, black, node);
            assert(!path0.contains(node));
            assert(!rec0.contains(node));
        }
        path.pop();
        rec_stack.remove(&node);
        proof {
            assert(path@ =~= path0);
            assert(rec_stack@ =~= rec0);
            assert(visited@.difference(rec_stack@) =~= black.insert(node));
        }
        false
    }
}

/// Serialization checker for transactions.
#[derive(Debug)]
pub struct SerializationChecker {
    transactions: Vec<CompletedTransaction>,
    edges: Vec<DependencyEdge>,
}

/// A serialization violation with cycle information.
#[derive(Clone, Debug)]
pub struct SerializationViolation {
    /// Transaction IDs forming the cycle, the first of them again at the end.
    pub cycle: Vec<u64>,
    /// All dependency edges for debugging.
    pub edges: Vec<DependencyEdge>,
}

/// The text of a walk through transactions.
pub open spec fn walk_text(ids: Seq<u64>) -> Seq<char>
    decreases ids.len(),
{
    if ids.len() == 0 {
        Seq::empty()
    } else if ids.len() == 1 {
        "T"@ + decimal(ids[0] as nat)
    } else {
        walk_text(ids.drop_last()) + " -> "@ + "T"@ + decimal(ids.last() as nat)
    }
}

/// Appends the text of a walk through transactions.
pub fn push_walk(s: &mut String, ids: &Vec<u64>)
    ensures
        final(s)@ == old(s)@ + walk_text(ids@),
{
    let ghost before = s@;
    let mut i: usize = 0;
    assert(ids@.take(0) =~= Seq::<u64>::empty());
    assert(s@ =~= before + walk_text(ids@.take(0)));
    while i < ids.len()
        invariant
            i <= ids.len(),
            s@ == before + walk_text(ids@.take(i as int)),
        decreases ids.len() - i,
    {
        let ghost here = s@;
        if i > 0 {
            s.push_str(" -> ");
        }
        s.push_str("T");
        push_decimal(s, ids[i]);
        assert(ids@.take(i + 1).drop_last() =~= ids@.take(i as int));
        assert(ids@.take(i + 1).last() == ids@[i as int]);
        i += 1;
        assert(s@ =~= before + walk_text(ids@.take(i as int)));
    }
    assert(ids@.take(i as int) =~= ids@);
}

/// The text of a violation.
pub open spec fn violation_text(cycle: Seq<u64>) -> Seq<char> {
    "Non-serializable schedule detected. Cycle: "@ + walk_text(cycle)
}

impl SerializationViolation {
    /// Returns a description of the violation.
    pub fn describe(&self) -> (r: String)
        ensures
            r@ == violation_text(self.cycle@),
    {
        let mut r = text_of("Non-serializable schedule detected. Cycle: ");
        push_walk(&mut r, &self.cycle);
        r
    }
}

/// Borrowed transactions as mathematical values.
pub open spec fn txn_refs_view(s: Seq<&CompletedTransaction>) -> Seq<TxnView> {
    s.map_values(|t: &CompletedTransaction| t@)
}

fn insert_txn<'a>(v: &mut Vec<&'a CompletedTransaction>, item: &'a CompletedTransaction)
    ensures
        txn_refs_view(final(v)@) == put_in_order(txn_refs_view(old(v)@), commit_of(), item@),
        final(v)@.len() == old(v)@.len() + 1,
{
    let ghost s = txn_refs_view(v@);
    let ghost k = item.commit_ts;
    let mut p: usize = v.len();
    assert(s.take(p as int) =~= s);
    while p > 0 && v[p - 1].commit_ts > item.commit_ts
        invariant
            p <= v.len(),
            s == txn_refs_view(v@),
            k == item.commit_ts,
            v@ == old(v)@,
            greater_at_end(s, commit_of(), k) == s.len() - p + greater_at_end(
                s.take(p as int),
                commit_of(),
                k,
            ),
        decreases p,
    {
        assert(s.take(p as int).drop_last() =~= s.take(p - 1));
        assert(s.take(p as int).last() == s[p - 1]);
        assert(s[p - 1].commit_ts == v@[p - 1].commit_ts);
        p -= 1;
    }
    proof {
        lemma_greater_at_end(s, commit_of(), k);
        if p > 0 {
            assert(s.take(p as int).last() == s[p - 1]);
            assert(s[p - 1].commit_ts == v@[p - 1].commit_ts);
        }
    }
    v.insert(p, item);
    assert(txn_refs_view(v@) =~= s.insert(p as int, item@));
}

fn push_shared(
    edges: &mut Vec<DependencyEdge>,
    a: &Vec<(Vec<u8>, Option<Vec<u8>>)>,
    b: &Vec<(Vec<u8>, Option<Vec<u8>>)>,
    from: u64,
    to: u64,
    dep_type: DependencyType,
)
    ensures
        edges_view(final(edges)@) == edges_view(old(edges)@) + shared_edges(
            pairs_view(a@),
            pairs_view(b@),
            from,
            to,
            dep_type,
        ),
{
    let ghost before = edges_view(edges@);
    let ghost av = pairs_view(a@);
    let ghost bv = pairs_view(b@);
    let mut i: usize = 0;
    assert(av.take(0) =~= Seq::<Access>::empty());
    assert(edges_view(edges@) =~= before + shared_edges(av.take(0), bv, from, to, dep_type));
    while i < a.len()
        invariant
            i <= a.len(),
            av == pairs_view(a@),
            bv == pairs_view(b@),
            edges_view(edges@) == before + shared_edges(
                av.take(i as int),
                bv,
                from,
                to,
                dep_type,
            ),
        decreases a.len() - i,
    {
        let ghost here = edges@;
        assert(av.take(i + 1).drop_last() =~= av.take(i as int));
        assert(av.take(i + 1).last() == av[i as int]);
        assert(av[i as int].0 == a@[i as int].0@);
        let key = a[i].0.as_slice();
        if find_access(b, key).is_some() {
            let e = DependencyEdge { from, to, dep_type, key: copy_bytes(key) };
            edges.push(e);
            assert(edges_view(edges@) =~= edges_view(here).push(e@));
        }
        i += 1;
        assert(edges_view(edges@) =~= before + shared_edges(
            av.take(i as int),
            bv,
            from,
            to,
            dep_type,
        ));
    }
    assert(av.take(i as int) =~= av);
}

fn push_edges_between(
    edges: &mut Vec<DependencyEdge>,
    t1: &CompletedTransaction,
    t2: &CompletedTransaction,
)
    ensures
        edges_view(final(edges)@) == edges_view(old(edges)@) + edges_between(t1@, t2@),
{
    let ghost before = edges_view(edges@);
    let t1_writes = SerializationChecker::get_write_set(t1);
    let t2_writes = SerializationChecker::get_write_set(t2);
    let t1_reads = SerializationChecker::get_read_set(t1);
    let t2_reads = SerializationChecker::get_read_set(t2);
    push_shared(
        edges,
        &t1_writes,
        &t2_writes,
        t1.txn_id,
        t2.txn_id,
        DependencyType::WriteWrite,
    );
    if t2.begin_ts >= t1.commit_ts {
        push_shared(
            edges,
            &t1_writes,
            &t2_reads,
            t1.txn_id,
            t2.txn_id,
            DependencyType::WriteRead,
        );
    }
    if t1.begin_ts < t2.commit_ts {
        push_shared(
            edges,
            &t1_reads,
            &t2_writes,
            t1.txn_id,
            t2.txn_id,
            DependencyType::ReadWrite,
        );
    }
    if t2.begin_ts < t1.commit_ts {
        push_shared(
            edges,
            &t2_reads,
            &t1_writes,
            t2.txn_id,
            t1.txn_id,
            DependencyType::ReadWrite,
        );
    }
    assert(edges_view(edges@) =~= before + edges_between(t1@, t2@));
}

impl Default for SerializationChecker {
    fn default() -> (r: Self)
        ensures
            r.spec_transactions() == Seq::<TxnView>::empty(),
            r.spec_edges() == Seq::<EdgeView>::empty(),
    {
        SerializationChecker::new()
    }
}

impl SerializationChecker {
    /// The transactions recorded.
    pub closed spec fn spec_transactions(&self) -> Seq<TxnView> {
        txns_view(self.transactions@)
    }

    /// The edges of the graph built last.
    pub closed spec fn spec_edges(&self) -> Seq<EdgeView> {
        edges_view(self.edges@)
    }

    /// Creates a new serialization checker.
    pub fn new() -> (r: Self)
        ensures
            r.spec_transactions() == Seq::<TxnView>::empty(),
            r.spec_edges() == Seq::<EdgeView>::empty(),
    {
        let r = SerializationChecker { transactions: Vec::new(), edges: Vec::new() };
        assert(r.spec_transactions() =~= Seq::<TxnView>::empty());
        assert(r.spec_edges() =~= Seq::<EdgeView>::empty());
        r
    }

    /// Records a completed transaction.
    pub fn record_transaction(&mut self, txn: CompletedTransaction)
        ensures
            final(self).spec_transactions() == old(self).spec_transactions().push(txn@),
            final(self).spec_edges() == old(self).spec_edges(),
    {
        let ghost before = self.transactions@;
        self.transactions.push(txn);
        assert(txns_view(self.transactions@) =~= txns_view(before).push(txn@));
    }

    /// Builds the dependency graph from recorded transactions.
    pub fn build_dependency_graph(&mut self)
        ensures
            final(self).spec_transactions() == old(self).spec_transactions(),
            final(self).spec_edges() == graph_of(old(self).spec_transactions()),
    {
        let ghost all = self.spec_transactions();
        let ghost p = |t: TxnView| t.committed;
        let ghost c = in_commit_order(all);
        let mut edges: Vec<DependencyEdge> = Vec::new();
        {
            let mut committed: Vec<&CompletedTransaction> = Vec::new();
            let mut i: usize = 0;
            proof {
                assert(all.take(0).filter(p) =~= Seq::<TxnView>::empty()) by {
                    reveal(Seq::filter);
                }
                assert(txn_refs_view(committed@) =~= Seq::<TxnView>::empty());
            }
            while i < self.transactions.len()
                invariant
                    i <= self.transactions.len(),
                    all == txns_view(self.transactions@),
                    p == |t: TxnView| t.committed,
                    txn_refs_view(committed@) == stable_sorted(
                        all.take(i as int).filter(p),
                        commit_of(),
                    ),
                decreases self.transactions.len() - i,
            {
                proof {
                    lemma_filter_step(all, i as int, p);
                    assert(all[i as int] == self.transactions@[i as int]@);
                }
                if self.transactions[i].committed {
                    insert_txn(&mut committed, &self.transactions[i]);
                    let ghost f = all.take(i as int).filter(p);
                    assert(f.push(all[i as int]).drop_last() =~= f);
                }
                i += 1;
            }
            assert(all.take(i as int) =~= all);
            assert(txn_refs_view(committed@) == c);
            let n = committed.len();
            assert(c.len() == n);
            let mut a: usize = 0;
            assert(edges_view(edges@) =~= Seq::<EdgeView>::empty());
            while a < n
                invariant
                    a <= n,
                    n == committed.len(),
                    c == txn_refs_view(committed@),
                    c.len() == n,
                    edges_view(edges@) == edges_of_first(c, a as nat),
                decreases n - a,
            {
                let ghost base = edges_view(edges@);
                let mut b: usize = a + 1;
                assert(edges_view(edges@) =~= base + edges_after(c, a as int, b as int));
                while b < n
                    invariant
                        a < b <= n,
                        n == committed.len(),
                        c == txn_refs_view(committed@),
                        edges_view(edges@) == base + edges_after(c, a as int, b as int),
                    decreases n - b,
                {
                    let ghost here = edges_view(edges@);
                    let t1 = committed[a];
                    let t2 = committed[b];
                    push_edges_between(&mut edges, t1, t2);
                    assert(c[a as int] == t1@ && c[b as int] == t2@);
                    b += 1;
                    assert(edges_view(edges@) =~= base + edges_after(c, a as int, b as int));
                }
                a += 1;
            }
        }
        self.edges = edges;
    }

    /// Gives the keys that a transaction wrote, each with the value of its last write.
    pub fn get_write_set(txn: &CompletedTransaction) -> (r: Vec<(Vec<u8>, Option<Vec<u8>>)>)
        ensures
            pairs_view(r@) == write_set(txn@.operations),
            keys_once(pairs_view(r@)),
    {
        let ghost ops = txn@.operations;
        let mut r: Vec<(Vec<u8>, Option<Vec<u8>>)> = Vec::new();
        let mut i: usize = 0;
        assert(ops.take(0) =~= Seq::<TxnOpView>::empty());
        assert(pairs_view(r@) =~= Seq::<Access>::empty());
        while i < txn.operations.len()
            invariant
                i <= txn.operations.len(),
                ops == txn_ops_view(txn.operations@),
                pairs_view(r@) == write_set(ops.take(i as int)),
                keys_once(pairs_view(r@)),
            decreases txn.operations.len() - i,
        {
            assert(ops.take(i + 1).drop_last() =~= ops.take(i as int));
            assert(ops.take(i + 1).last() == txn.operations@[i as int]@);
            if let TxnOperation::Write { key, value } = &txn.operations[i] {
                note_access(&mut r, key, value);
            }
            i += 1;
        }
        assert(ops.take(i as int) =~= ops);
        r
    }

    /// Gives the keys that a transaction read, each with the value of its last read.
    pub fn get_read_set(txn: &CompletedTransaction) -> (r: Vec<(Vec<u8>, Option<Vec<u8>>)>)
        ensures
            pairs_view(r@) == read_set(txn@.operations),
            keys_once(pairs_view(r@)),
    {
        let ghost ops = txn@.operations;
        let mut r: Vec<(Vec<u8>, Option<Vec<u8>>)> = Vec::new();
        let mut i: usize = 0;
        assert(ops.take(0) =~= Seq::<TxnOpView>::empty());
        assert(pairs_view(r@) =~= Seq::<Access>::empty());
        while i < txn.operations.len()
            invariant
                i <= txn.operations.len(),
                ops == txn_ops_view(txn.operations@),
                pairs_view(r@) == read_set(ops.take(i as int)),
                keys_once(pairs_view(r@)),
            decreases txn.operations.len() - i,
        {
            assert(ops.take(i + 1).drop_last() =~= ops.take(i as int));
            assert(ops.take(i + 1).last() == txn.operations@[i as int]@);
            if let TxnOperation::Read { key, value } = &txn.operations[i] {
                note_access(&mut r, key, value);
            }
            i += 1;
        }
        assert(ops.take(i as int) =~= ops);
        r
    }

    fn visit(
        node: u64,
        edges: &Vec<DependencyEdge>,
        visited: &mut HashSet<u64>,
    ) -> (r: Option<Vec<u64>>)
        requires
            joined(edges_view(edges@)).contains(node),
            settled(edges_view(edges@), old(visited)@),
        ensures
            match r {
                Some(w) => simple_cycle(edges_view(edges@), w@),
                None => {
                    &&& old(visited)@.insert(node).subset_of(final(visited)@)
                    &&& settled(edges_view(edges@), final(visited)@)
                },
            },
    {
        broadcast use vstd::std_specs::hash::group_hash_axioms;

        if visited.contains(&node) {
            return None;
        }
        let mut rec_stack: HashSet<u64> = HashSet::new();
        let mut path: Vec<u64> = Vec::new();
        proof {
            assert(path@.to_set() =~= Set::<u64>::empty());
            assert(visited@.difference(Set::<u64>::empty()) =~= visited@);
        }
        if SerializationChecker::has_cycle_dfs(node, edges, visited, &mut rec_stack, &mut path) {
            Some(cut_cycle(&path, Ghost(edges_view(edges@))))
        } else {
            assert(visited@.difference(rec_stack@) =~= visited@);
            None
        }
    }

    /// Checks for cycles in the dependency graph built last.
    pub fn check_serializability(&self) -> (r: Result<(), SerializationViolation>)
        ensures
            match r {
                Ok(_) => !has_cycle(self.spec_edges()),
                Err(v) => {
                    &&& has_cycle(self.spec_edges())
                    &&& simple_cycle(self.spec_edges(), v.cycle@)
                    &&& edges_view(v.edges@) == self.spec_edges()
                },
            },
    {
        let ghost ev = self.spec_edges();
        let mut visited: HashSet<u64> = HashSet::new();
        proof {
            lemma_joined(ev);
            assert(leads_back(ev, Seq::<u64>::empty(), Set::<u64>::empty()));
        }
        let mut i: usize = 0;
        while i < self.edges.len()
            invariant
                i <= self.edges.len(),
                ev == edges_view(self.edges@),
                forall|k: int|
                    0 <= k < ev.len() ==> joined(ev).contains((#[trigger] ev[k]).from)
                        && joined(ev).contains(ev[k].to),
                settled(ev, visited@),
                forall|k: int| 0 <= k < i ==> visited@.contains((#[trigger] ev[k]).from),
            decreases self.edges.len() - i,
        {
            assert(ev[i as int] == self.edges@[i as int]@);
            let ghost v0 = visited@;
            if let Some(cycle) = SerializationChecker::visit(
                self.edges[i].from,
                &self.edges,
                &mut visited,
            ) {
                assert(closed_walk(ev, cycle@));
                return Err(SerializationViolation { cycle, edges: copy_edges(&self.edges) });
            }
            let ghost v1 = visited@;
            if let Some(cycle) = SerializationChecker::visit(
                self.edges[i].to,
                &self.edges,
                &mut visited,
            ) {
                assert(closed_walk(ev, cycle@));
                return Err(SerializationViolation { cycle, edges: copy_edges(&self.edges) });
            }
            assert forall|k: int| 0 <= k < i + 1 implies visited@.contains(
                (#[trigger] ev[k]).from,
            ) by {
                assert(v1.contains(ev[k].from));
            }
            i += 1;
        }
        proof {
            lemma_settled_acyclic(ev, visited@);
        }
        Ok(())
    }

    /// Returns the number of recorded transactions.
    pub fn transaction_count(&self) -> (r: usize)
        ensures
            r == self.spec_transactions().len(),
    {
        self.transactions.len()
    }

    /// Returns the number of dependency edges.
    pub fn edge_count(&self) -> (r: usize)
        ensures
            r == self.spec_edges().len(),
    {
        self.edges.len()
    }

    /// Clears all recorded data.
    pub fn clear(&mut self)
        ensures
            final(self).spec_transactions() == Seq::<TxnView>::empty(),
            final(self).spec_edges() == Seq::<EdgeView>::empty(),
    {
        self.transactions = Vec::new();
        self.edges = Vec::new();
        assert(self.spec_transactions() =~= Seq::<TxnView>::empty());
        assert(self.spec_edges() =~= Seq::<EdgeView>::empty());
    }
}

/// Runs a serialization check as an invariant check.
pub fn check_serializability(checker: &SerializationChecker) -> (r: InvariantResult)
    ensures
        !has_cycle(checker.spec_edges()) ==> r@ == passing("serializability"@),
        has_cycle(checker.spec_edges()) ==> exists|w: Seq<u64>|
            #[trigger] simple_cycle(checker.spec_edges(), w) && r@ == failing(
                "serializability"@,
                violation_text(w),
                Seq::empty(),
            ),
{
    match checker.check_serializability() {
        Ok(_) => InvariantResult::pass("serializability"),
        Err(violation) => {
            let details = violation.describe();
            InvariantResult::fail("serializability", details.as_str())
        },
    }
}

proof fn lemma_edge_sum(a: Seq<EdgeView>, b: Seq<EdgeView>, x: u64, y: u64)
    ensures
        edge(a + b, x, y) <==> edge(a, x, y) || edge(b, x, y),
{
    if edge(a, x, y) {
        let i = choose|i: int| 0 <= i < a.len() && (#[trigger] a[i]).from == x && a[i].to == y;
        assert((a + b)[i] == a[i]);
    }
    if edge(b, x, y) {
        let i = choose|i: int| 0 <= i < b.len() && (#[trigger] b[i]).from == x && b[i].to == y;
        assert((a + b)[a.len() + i] == b[i]);
    }
    if edge(a + b, x, y) {
        let i = choose|i: int|
            0 <= i < (a + b).len() && (#[trigger] (a + b)[i]).from == x && (a + b)[i].to == y;
        if i < a.len() {
            assert((a + b)[i] == a[i]);
        } else {
            assert((a + b)[i] == b[i - a.len()]);
        }
    }
}

proof fn lemma_shared_edge(
    a: Seq<Access>,
    b: Seq<Access>,
    from: u64,
    to: u64,
    dep_type: DependencyType,
    key: Seq<u8>,
)
    requires
        accesses(a, key),
        accesses(b, key),
    ensures
        edge(shared_edges(a, b, from, to, dep_type), from, to),
    decreases a.len(),
{
    let s = shared_edges(a, b, from, to, dep_type);
    if accesses(b, a.last().0) {
        assert(s[s.len() - 1].from == from && s[s.len() - 1].to == to);
    } else {
        let i = choose|i: int| 0 <= i < a.len() && (#[trigger] a[i]).0 == key;
        assert(a.drop_last()[i].0 == key);
        lemma_shared_edge(a.drop_last(), b, from, to, dep_type, key);
    }
}

proof fn lemma_shared_only(
    a: Seq<Access>,
    b: Seq<Access>,
    from: u64,
    to: u64,
    dep_type: DependencyType,
    x: u64,
    y: u64,
)
    requires
        edge(shared_edges(a, b, from, to, dep_type), x, y),
    ensures
        x == from,
        y == to,
    decreases a.len(),
{
    let s = shared_edges(a, b, from, to, dep_type);
    let i = choose|i: int| 0 <= i < s.len() && (#[trigger] s[i]).from == x && s[i].to == y;
    let rest = shared_edges(a.drop_last(), b, from, to, dep_type);
    if i < rest.len() {
        assert(s[i] == rest[i]);
        assert(edge(rest, x, y));
        lemma_shared_only(a.drop_last(), b, from, to, dep_type, x, y);
    }
}

/// The four groups of edges between two transactions.
proof fn lemma_between(t1: TxnView, t2: TxnView, x: u64, y: u64)
    ensures
        edge(edges_between(t1, t2), x, y) <==> {
            let w1 = write_set(t1.operations);
            let w2 = write_set(t2.operations);
            let r1 = read_set(t1.operations);
            let r2 = read_set(t2.operations);
            ||| edge(shared_edges(w1, w2, t1.txn_id, t2.txn_id, DependencyType::WriteWrite), x, y)
            ||| t2.begin_ts >= t1.commit_ts && edge(
                shared_edges(w1, r2, t1.txn_id, t2.txn_id, DependencyType::WriteRead),
                x,
                y,
            )
            ||| t1.begin_ts < t2.commit_ts && edge(
                shared_edges(r1, w2, t1.txn_id, t2.txn_id, DependencyType::ReadWrite),
                x,
                y,
            )
            ||| t2.begin_ts < t1.commit_ts && edge(
                shared_edges(r2, w1, t2.txn_id, t1.txn_id, DependencyType::ReadWrite),
                x,
                y,
            )
        },
{
    let w1 = write_set(t1.operations);
    let w2 = write_set(t2.operations);
    let r1 = read_set(t1.operations);
    let r2 = read_set(t2.operations);
    let none = Seq::<EdgeView>::empty();
    let ww = shared_edges(w1, w2, t1.txn_id, t2.txn_id, DependencyType::WriteWrite);
    let wr = if t2.begin_ts >= t1.commit_ts {
        shared_edges(w1, r2, t1.txn_id, t2.txn_id, DependencyType::WriteRead)
    } else {
        none
    };
    let rw = if t1.begin_ts < t2.commit_ts {
        shared_edges(r1, w2, t1.txn_id, t2.txn_id, DependencyType::ReadWrite)
    } else {
        none
    };
    let back = if t2.begin_ts < t1.commit_ts {
        shared_edges(r2, w1, t2.txn_id, t1.txn_id, DependencyType::ReadWrite)
    } else {
        none
    };
    lemma_edge_sum(ww, wr, x, y);
    lemma_edge_sum(ww + wr, rw, x, y);
    lemma_edge_sum(ww + wr + rw, back, x, y);
}

proof fn lemma_edge_after(c: Seq<TxnView>, i: int, j: int, n: int, x: u64, y: u64)
    requires
        i < j < n,
        edge(edges_between(c[i], c[j]), x, y),
    ensures
        edge(edges_after(c, i, n), x, y),
    decreases n - i,
{
    lemma_edge_sum(edges_after(c, i, n - 1), edges_between(c[i], c[n - 1]), x, y);
    if j < n - 1 {
        lemma_edge_after(c, i, j, n - 1, x, y);
    }
}

proof fn lemma_edge_first(c: Seq<TxnView>, i: int, j: int, n: nat, x: u64, y: u64)
    requires
        0 <= i < j < c.len(),
        i < n,
        edge(edges_between(c[i], c[j]), x, y),
    ensures
        edge(edges_of_first(c, n), x, y),
    decreases n,
{
    lemma_edge_sum(
        edges_of_first(c, (n - 1) as nat),
        edges_after(c, n - 1, c.len() as int),
        x,
        y,
    );
    if i < n - 1 {
        lemma_edge_first(c, i, j, (n - 1) as nat, x, y);
    } else {
        lemma_edge_after(c, i, j, c.len() as int, x, y);
    }
}

/// Tells whether one transaction read a key that another wrote, from a snapshot taken before
/// the other committed.
pub open spec fn missed_write(reader: TxnView, writer: TxnView, key: Seq<u8>) -> bool {
    &&& reads_key(reader.operations, key)
    &&& writes_key(writer.operations, key)
    &&& reader.begin_ts < writer.commit_ts
}

/// Write skew is found: where two committed transactions each read what the other wrote and
/// neither saw the other's write, the graph has a cycle.
pub proof fn law_write_skew_found(
    txns: Seq<TxnView>,
    i: int,
    j: int,
    key1: Seq<u8>,
    key2: Seq<u8>,
)
    requires
        0 <= i < j < in_commit_order(txns).len(),
        missed_write(in_commit_order(txns)[i], in_commit_order(txns)[j], key1),
        missed_write(in_commit_order(txns)[j], in_commit_order(txns)[i], key2),
    ensures
        has_cycle(graph_of(txns)),
{
    let c = in_commit_order(txns);
    let g = graph_of(txns);
    let a = c[i].txn_id;
    let b = c[j].txn_id;
    let dep = DependencyType::ReadWrite;
    law_read_set(c[i].operations, key1);
    law_write_set(c[j].operations, key1);
    law_read_set(c[j].operations, key2);
    law_write_set(c[i].operations, key2);
    lemma_shared_edge(
        read_set(c[i].operations),
        write_set(c[j].operations),
        a,
        b,
        dep,
        key1,
    );
    lemma_shared_edge(
        read_set(c[j].operations),
        write_set(c[i].operations),
        b,
        a,
        dep,
        key2,
    );
    lemma_between(c[i], c[j], a, b);
    lemma_between(c[i], c[j], b, a);
    lemma_edge_first(c, i, j, c.len(), a, b);
    lemma_edge_first(c, i, j, c.len(), b, a);
    let w = seq![a, b, a];
    assert(edge(g, w[0], w[1]) && edge(g, w[1], w[2]));
    assert(closed_walk(g, w));
}

/// Tells whether an edge leads forward in a list of transactions.
pub open spec fn forward(c: Seq<TxnView>, x: u64, y: u64) -> bool {
    exists|i: int, j: int|
        0 <= i < j < c.len() && (#[trigger] c[i]).txn_id == x && (#[trigger] c[j]).txn_id == y
}

/// Tells whether each transaction began no earlier than all before it committed.
pub open spec fn one_after_another(c: Seq<TxnView>) -> bool {
    forall|i: int, j: int|
        0 <= i < j < c.len() ==> (#[trigger] c[j]).begin_ts >= (#[trigger] c[i]).commit_ts
}

/// Tells whether no two transactions share an ID.
pub open spec fn ids_differ(c: Seq<TxnView>) -> bool {
    forall|i: int, j: int|
        0 <= i < c.len() && 0 <= j < c.len() && i != j ==> (#[trigger] c[i]).txn_id != (
        #[trigger] c[j]).txn_id
}

proof fn lemma_after_forward(c: Seq<TxnView>, i: int, n: int, x: u64, y: u64)
    requires
        one_after_another(c),
        0 <= i < c.len(),
        n <= c.len(),
        edge(edges_after(c, i, n), x, y),
    ensures
        forward(c, x, y),
    decreases n - i,
{
    if n > i + 1 {
        let j = n - 1;
        lemma_edge_sum(edges_after(c, i, n - 1), edges_between(c[i], c[j]), x, y);
        if edge(edges_after(c, i, n - 1), x, y) {
            lemma_after_forward(c, i, n - 1, x, y);
        } else {
            let (t1, t2) = (c[i], c[j]);
            assert(t2.begin_ts >= t1.commit_ts);
            lemma_between(t1, t2, x, y);
            let w1 = write_set(t1.operations);
            let w2 = write_set(t2.operations);
            let r1 = read_set(t1.operations);
            let r2 = read_set(t2.operations);
            let (a, b) = (t1.txn_id, t2.txn_id);
            if edge(shared_edges(w1, w2, a, b, DependencyType::WriteWrite), x, y) {
                lemma_shared_only(w1, w2, a, b, DependencyType::WriteWrite, x, y);
            } else if edge(shared_edges(w1, r2, a, b, DependencyType::WriteRead), x, y) {
                lemma_shared_only(w1, r2, a, b, DependencyType::WriteRead, x, y);
            } else {
                lemma_shared_only(r1, w2, a, b, DependencyType::ReadWrite, x, y);
            }
            assert(c[i].txn_id == x && c[j].txn_id == y);
        }
    }
}

proof fn lemma_first_forward(c: Seq<TxnView>, n: nat, x: u64, y: u64)
    requires
        one_after_another(c),
        n <= c.len(),
        edge(edges_of_first(c, n), x, y),
    ensures
        forward(c, x, y),
    decreases n,
{
    if n > 0 {
        let a = edges_of_first(c, (n - 1) as nat);
        let b = edges_after(c, n - 1, c.len() as int);
        lemma_edge_sum(a, b, x, y);
        if edge(a, x, y) {
            lemma_first_forward(c, (n - 1) as nat, x, y);
        } else {
            lemma_after_forward(c, n - 1, c.len() as int, x, y);
        }
    }
}

/// A serial history passes: where each committed transaction began no earlier than all before
/// it committed, the graph has no cycle.
pub proof fn law_serial_history_passes(txns: Seq<TxnView>)
    requires
        one_after_another(in_commit_order(txns)),
        ids_differ(in_commit_order(txns)),
    ensures
        !has_cycle(graph_of(txns)),
{
    let c = in_commit_order(txns);
    let g = graph_of(txns);
    let n = c.len();
    let done = Seq::new(n, |k: int| c[n - 1 - k].txn_id);
    let all = done.to_set();
    assert forall|k: int, b: u64| 0 <= k < done.len() && #[trigger] edge(g, done[k], b) implies done.take(
        k,
    ).contains(b) by {
        lemma_first_forward(c, n, done[k], b);
        let (i, j) = choose|i: int, j: int|
            0 <= i < j < c.len() && (#[trigger] c[i]).txn_id == done[k] && (
            #[trigger] c[j]).txn_id == b;
        assert(c[n - 1 - k].txn_id == done[k]);
        assert(i == n - 1 - k);
        assert(done.take(k)[n - 1 - j] == b);
    }
    assert forall|i: int, j: int|
        0 <= i < done.len() && 0 <= j < done.len() && i != j implies done[i] != done[j] by {
        assert(c[n - 1 - i].txn_id != c[n - 1 - j].txn_id);
    }
    assert(leads_back(g, done, all));
    assert forall|i: int| 0 <= i < g.len() implies all.contains((#[trigger] g[i]).from) by {
        assert(edge(g, g[i].from, g[i].to));
        lemma_first_forward(c, n, g[i].from, g[i].to);
        let (p, q) = choose|p: int, q: int|
            0 <= p < q < c.len() && (#[trigger] c[p]).txn_id == g[i].from && (
            #[trigger] c[q]).txn_id == g[i].to;
        assert(done[n - 1 - p] == g[i].from);
    }
    lemma_settled_acyclic(g, all);
}

/// The committed transactions are taken in order of commit.
pub proof fn law_commit_order(txns: Seq<TxnView>)
    ensures
        in_order(in_commit_order(txns), commit_of()),
{
    law_sorted_in_order(txns.filter(|t: TxnView| t.committed), commit_of());
}

/// Tells whether an operation writes a key, whatever the value.
pub open spec fn is_write_of(op: TxnOpView, key: Seq<u8>) -> bool {
    op matches TxnOpView::Write { key: k, .. } && k == key
}

/// Tells whether an operation reads a key, whatever it found.
pub open spec fn is_read_of(op: TxnOpView, key: Seq<u8>) -> bool {
    op matches TxnOpView::Read { key: k, .. } && k == key
}

/// Tells whether one of the operations writes a key.
pub open spec fn writes_key(ops: Seq<TxnOpView>, key: Seq<u8>) -> bool {
    exists|i: int| 0 <= i < ops.len() && is_write_of(#[trigger] ops[i], key)
}

/// Tells whether one of the operations reads a key.
pub open spec fn reads_key(ops: Seq<TxnOpView>, key: Seq<u8>) -> bool {
    exists|i: int| 0 <= i < ops.len() && is_read_of(#[trigger] ops[i], key)
}

proof fn lemma_with_access(s: Seq<Access>, key: Seq<u8>, value: ValueView, other: Seq<u8>)
    requires
        keys_once(s),
    ensures
        keys_once(with_access(s, key, value)),
        accesses(with_access(s, key, value), other) <==> other == key || accesses(s, other),
        with_access(s, key, value).contains((key, value)),
        forall|v: ValueView|
            other != key && s.contains((other, v)) ==> #[trigger] with_access(
                s,
                key,
                value,
            ).contains((other, v)),
{
    let r = with_access(s, key, value);
    if accesses(s, key) {
        let i = choose|i: int| 0 <= i < s.len() && (#[trigger] s[i]).0 == key;
        assert(r[i] == (key, value));
        assert forall|a: int, b: int| 0 <= a < b < r.len() implies (#[trigger] r[a]).0 != (
        #[trigger] r[b]).0 by {
            assert(r[a].0 == s[a].0 && r[b].0 == s[b].0);
        }
    } else {
        assert(r[s.len() as int] == (key, value));
        assert forall|a: int, b: int| 0 <= a < b < r.len() implies (#[trigger] r[a]).0 != (
        #[trigger] r[b]).0 by {
            assert(r[a] == s[a]);
            if b < s.len() {
                assert(r[b] == s[b]);
            }
        }
    }
    if accesses(s, other) {
        let k = choose|k: int| 0 <= k < s.len() && (#[trigger] s[k]).0 == other;
        assert(r[k].0 == other);
    }
    if accesses(r, other) && other != key {
        let k = choose|k: int| 0 <= k < r.len() && (#[trigger] r[k]).0 == other;
        assert(s[k].0 == other);
    }
    assert forall|v: ValueView| other != key && s.contains((other, v)) implies #[trigger] with_access(
        s,
        key,
        value,
    ).contains((other, v)) by {
        let k = choose|k: int| 0 <= k < s.len() && s[k] == (other, v);
        assert(r[k] == (other, v));
    }
}

/// The write set of a transaction holds a key exactly where an operation writes it, deletes
/// included, and lists it once, with the value of its last write.
#[verifier::rlimit(40)]
pub proof fn law_write_set(ops: Seq<TxnOpView>, key: Seq<u8>)
    ensures
        accesses(write_set(ops), key) <==> writes_key(ops, key),
        keys_once(write_set(ops)),
        forall|i: int|
            0 <= i < ops.len() && is_write_of(#[trigger] ops[i], key) && (forall|j: int|
                i < j < ops.len() ==> !is_write_of(#[trigger] ops[j], key)) ==> write_set(
                ops,
            ).contains((key, ops[i]->Write_value)),
    decreases ops.len(),
{
    if ops.len() > 0 {
        let t = ops.drop_last();
        let n = ops.len() - 1;
        law_write_set(t, key);
        assert(ops[n] == ops.last());
        match ops.last() {
            TxnOpView::Write { key: k, value } => {
                lemma_with_access(write_set(t), k, value, key);
            },
            _ => {},
        }
        if writes_key(t, key) {
            let i = choose|i: int| 0 <= i < t.len() && is_write_of(#[trigger] t[i], key);
            assert(is_write_of(ops[i], key));
        }
        if writes_key(ops, key) && !is_write_of(ops.last(), key) {
            let i = choose|i: int| 0 <= i < ops.len() && is_write_of(#[trigger] ops[i], key);
            assert(is_write_of(t[i], key));
        }
        assert forall|i: int|
            0 <= i < ops.len() && is_write_of(#[trigger] ops[i], key) && (forall|j: int|
                i < j < ops.len() ==> !is_write_of(#[trigger] ops[j], key)) implies write_set(
            ops,
        ).contains((key, ops[i]->Write_value)) by {
            if i < n {
                assert(t[i] == ops[i]);
                assert(!is_write_of(ops[n], key));
                assert forall|j: int| i < j < t.len() implies !is_write_of(
                    #[trigger] t[j],
                    key,
                ) by {
                    assert(t[j] == ops[j]);
                }
                assert(write_set(t).contains((key, ops[i]->Write_value)));
            }
        }
    }
}

/// The read set of a transaction holds a key exactly where an operation reads it, whatever it
/// found, and lists it once, with the value of its last read.
#[verifier::rlimit(40)]
pub proof fn law_read_set(ops: Seq<TxnOpView>, key: Seq<u8>)
    ensures
        accesses(read_set(ops), key) <==> reads_key(ops, key),
        keys_once(read_set(ops)),
        forall|i: int|
            0 <= i < ops.len() && is_read_of(#[trigger] ops[i], key) && (forall|j: int|
                i < j < ops.len() ==> !is_read_of(#[trigger] ops[j], key)) ==> read_set(
                ops,
            ).contains((key, ops[i]->Read_value)),
    decreases ops.len(),
{
    if ops.len() > 0 {
        let t = ops.drop_last();
        let n = ops.len() - 1;
        law_read_set(t, key);
        assert(ops[n] == ops.last());
        match ops.last() {
            TxnOpView::Read { key: k, value } => {
                lemma_with_access(read_set(t), k, value, key);
            },
            _ => {},
        }
        if reads_key(t, key) {
            let i = choose|i: int| 0 <= i < t.len() && is_read_of(#[trigger] t[i], key);
            assert(is_read_of(ops[i], key));
        }
        if reads_key(ops, key) && !is_read_of(ops.last(), key) {
            let i = choose|i: int| 0 <= i < ops.len() && is_read_of(#[trigger] ops[i], key);
            assert(is_read_of(t[i], key));
        }
        assert forall|i: int|
            0 <= i < ops.len() && is_read_of(#[trigger] ops[i], key) && (forall|j: int|
                i < j < ops.len() ==> !is_read_of(#[trigger] ops[j], key)) implies read_set(
            ops,
        ).contains((key, ops[i]->Read_value)) by {
            if i < n {
                assert(t[i] == ops[i]);
                assert(!is_read_of(ops[n], key));
                assert forall|j: int| i < j < t.len() implies !is_read_of(
                    #[trigger] t[j],
                    key,
                ) by {
                    assert(t[j] == ops[j]);
                }
                assert(read_set(t).contains((key, ops[i]->Read_value)));
            }
        }
    }
}

/// Tells whether an edge says what two transactions did, the first of which committed first:
/// both wrote its key; or the second read what the first wrote and began no earlier than the
/// first committed; or one read the key, and began before the other, which wrote it, committed.
pub open spec fn depends(t1: TxnView, t2: TxnView, e: EdgeView) -> bool {
    ||| e.from == t1.txn_id && e.to == t2.txn_id && e.dep_type == DependencyType::WriteWrite
        && writes_key(t1.operations, e.key) && writes_key(t2.operations, e.key)
    ||| e.from == t1.txn_id && e.to == t2.txn_id && e.dep_type == DependencyType::WriteRead
        && writes_key(t1.operations, e.key) && reads_key(t2.operations, e.key) && t1.commit_ts
        <= t2.begin_ts
    ||| e.from == t1.txn_id && e.to == t2.txn_id && e.dep_type == DependencyType::ReadWrite
        && missed_write(t1, t2, e.key)
    ||| e.from == t2.txn_id && e.to == t1.txn_id && e.dep_type == DependencyType::ReadWrite
        && missed_write(t2, t1, e.key)
}

proof fn lemma_sum_has<A>(a: Seq<A>, b: Seq<A>, x: A)
    ensures
        (a + b).contains(x) <==> a.contains(x) || b.contains(x),
{
    if a.contains(x) {
        let i = choose|i: int| 0 <= i < a.len() && a[i] == x;
        assert((a + b)[i] == x);
    }
    if b.contains(x) {
        let i = choose|i: int| 0 <= i < b.len() && b[i] == x;
        assert((a + b)[a.len() + i] == x);
    }
    if (a + b).contains(x) {
        let i = choose|i: int| 0 <= i < (a + b).len() && (a + b)[i] == x;
        if i < a.len() {
            assert(a[i] == x);
        } else {
            assert(b[i - a.len()] == x);
        }
    }
}

proof fn lemma_shared_has(
    a: Seq<Access>,
    b: Seq<Access>,
    from: u64,
    to: u64,
    dep_type: DependencyType,
    e: EdgeView,
)
    ensures
        shared_edges(a, b, from, to, dep_type).contains(e) <==> e.from == from && e.to == to
            && e.dep_type == dep_type && accesses(a, e.key) && accesses(b, e.key),
    decreases a.len(),
{
    if a.len() > 0 {
        let t = a.drop_last();
        let k = a.last().0;
        let rest = shared_edges(t, b, from, to, dep_type);
        let last = EdgeView { from, to, dep_type, key: k };
        lemma_shared_has(t, b, from, to, dep_type, e);
        lemma_sum_has(rest, seq![last], e);
        assert(rest.push(last) =~= rest + seq![last]);
        assert(seq![last].contains(e) <==> e == last) by {
            assert(seq![last][0] == last);
        }
        assert(a[a.len() - 1] == a.last());
        if accesses(t, e.key) {
            let i = choose|i: int| 0 <= i < t.len() && (#[trigger] t[i]).0 == e.key;
            assert(a[i].0 == e.key);
        }
        if accesses(a, e.key) && e.key != k {
            let i = choose|i: int| 0 <= i < a.len() && (#[trigger] a[i]).0 == e.key;
            assert(t[i].0 == e.key);
        }
    }
}

/// The edges between two transactions are exactly those that what they read and wrote, and when,
/// calls for.
pub proof fn law_edges_between(t1: TxnView, t2: TxnView, e: EdgeView)
    ensures
        edges_between(t1, t2).contains(e) <==> depends(t1, t2, e),
{
    let w1 = write_set(t1.operations);
    let w2 = write_set(t2.operations);
    let r1 = read_set(t1.operations);
    let r2 = read_set(t2.operations);
    law_write_set(t1.operations, e.key);
    law_write_set(t2.operations, e.key);
    law_read_set(t1.operations, e.key);
    law_read_set(t2.operations, e.key);
    let none = Seq::<EdgeView>::empty();
    let ww = shared_edges(w1, w2, t1.txn_id, t2.txn_id, DependencyType::WriteWrite);
    let wr = if t2.begin_ts >= t1.commit_ts {
        shared_edges(w1, r2, t1.txn_id, t2.txn_id, DependencyType::WriteRead)
    } else {
        none
    };
    let rw = if t1.begin_ts < t2.commit_ts {
        shared_edges(r1, w2, t1.txn_id, t2.txn_id, DependencyType::ReadWrite)
    } else {
        none
    };
    let back = if t2.begin_ts < t1.commit_ts {
        shared_edges(r2, w1, t2.txn_id, t1.txn_id, DependencyType::ReadWrite)
    } else {
        none
    };
    lemma_sum_has(ww, wr, e);
    lemma_sum_has(ww + wr, rw, e);
    lemma_sum_has(ww + wr + rw, back, e);
    lemma_shared_has(w1, w2, t1.txn_id, t2.txn_id, DependencyType::WriteWrite, e);
    lemma_shared_has(w1, r2, t1.txn_id, t2.txn_id, DependencyType::WriteRead, e);
    lemma_shared_has(r1, w2, t1.txn_id, t2.txn_id, DependencyType::ReadWrite, e);
    lemma_shared_has(r2, w1, t2.txn_id, t1.txn_id, DependencyType::ReadWrite, e);
}

proof fn lemma_after_has(c: Seq<TxnView>, i: int, n: int, e: EdgeView)
    ensures
        edges_after(c, i, n).contains(e) <==> exists|j: int|
            i < j < n && depends(c[i], #[trigger] c[j], e),
    decreases n - i,
{
    if n > i + 1 {
        lemma_after_has(c, i, n - 1, e);
        lemma_sum_has(edges_after(c, i, n - 1), edges_between(c[i], c[n - 1]), e);
        law_edges_between(c[i], c[n - 1], e);
        if exists|j: int| i < j < n - 1 && depends(c[i], #[trigger] c[j], e) {
            let j = choose|j: int| i < j < n - 1 && depends(c[i], #[trigger] c[j], e);
            assert(i < j < n && depends(c[i], c[j], e));
        }
    }
}

proof fn lemma_first_has(c: Seq<TxnView>, n: nat, e: EdgeView)
    requires
        n <= c.len(),
    ensures
        edges_of_first(c, n).contains(e) <==> exists|i: int, j: int|
            0 <= i < n && i < j < c.len() && depends(#[trigger] c[i], #[trigger] c[j], e),
    decreases n,
{
    if n > 0 {
        let m = (n - 1) as nat;
        let a = edges_of_first(c, m);
        let b = edges_after(c, n - 1, c.len() as int);
        lemma_first_has(c, m, e);
        lemma_after_has(c, n - 1, c.len() as int, e);
        lemma_sum_has(a, b, e);
        if a.contains(e) {
            let (i, j) = choose|i: int, j: int|
                0 <= i < m && i < j < c.len() && depends(#[trigger] c[i], #[trigger] c[j], e);
            assert(0 <= i < n && i < j < c.len() && depends(c[i], c[j], e));
        }
        if b.contains(e) {
            let j = choose|j: int| n - 1 < j < c.len() && depends(c[n - 1], #[trigger] c[j], e);
            let i = n - 1;
            assert(0 <= i < n && i < j < c.len() && depends(c[i], c[j], e));
        }
    }
}

/// The dependency graph holds exactly the edges that two committed transactions, taken in order
/// of commit, call for.
pub proof fn law_graph_edges(txns: Seq<TxnView>, e: EdgeView)
    ensures
        graph_of(txns).contains(e) <==> exists|i: int, j: int|
            0 <= i < j < in_commit_order(txns).len() && depends(
                #[trigger] in_commit_order(txns)[i],
                #[trigger] in_commit_order(txns)[j],
                e,
            ),
{
    let c = in_commit_order(txns);
    lemma_first_has(c, c.len(), e);
}

/// What is taken in order of commit are the committed transactions, all of them and no others,
/// none before one that committed earlier.
pub proof fn law_committed_listed(txns: Seq<TxnView>, t: TxnView)
    ensures
        in_commit_order(txns).contains(t) <==> txns.contains(t) && t.committed,
        forall|i: int, j: int|
            0 <= i <= j < in_commit_order(txns).len() ==> (#[trigger] in_commit_order(
                txns,
            )[i]).commit_ts <= (#[trigger] in_commit_order(txns)[j]).commit_ts,
{
    let p = |x: TxnView| x.committed;
    let f = txns.filter(p);
    let c = in_commit_order(txns);
    crate::order::law_sorted_has(f, commit_of(), t);
    crate::model::lemma_filter_has(txns, p, t);
    law_commit_order(txns);
    assert forall|i: int, j: int| 0 <= i <= j < c.len() implies (#[trigger] c[i]).commit_ts <= (
    #[trigger] c[j]).commit_ts by {
        assert((commit_of())(c[i]) <= (commit_of())(c[j]));
    }
}

/// Write skew between any two committed transactions of a history is found.
pub proof fn law_history_skew_found(
    txns: Seq<TxnView>,
    t1: TxnView,
    t2: TxnView,
    key1: Seq<u8>,
    key2: Seq<u8>,
)
    requires
        txns.contains(t1),
        txns.contains(t2),
        t1 != t2,
        t1.committed,
        t2.committed,
        missed_write(t1, t2, key1),
        missed_write(t2, t1, key2),
    ensures
        has_cycle(graph_of(txns)),
{
    law_committed_listed(txns, t1);
    law_committed_listed(txns, t2);
    let c = in_commit_order(txns);
    let i = choose|i: int| 0 <= i < c.len() && c[i] == t1;
    let j = choose|j: int| 0 <= j < c.len() && c[j] == t2;
    if i < j {
        law_write_skew_found(txns, i, j, key1, key2);
    } else {
        law_write_skew_found(txns, j, i, key2, key1);
    }
}

/// Tells whether an edge of a list begins where the one before it ends.
pub open spec fn leads_on(es: Seq<EdgeView>, i: int) -> bool {
    es[i - 1].to == es[i].from
}

/// Edges that lead on from one to the next and back to where they began are a cycle.
pub proof fn law_closed_edges_cycle(edges: Seq<EdgeView>, es: Seq<EdgeView>)
    requires
        es.len() > 0,
        forall|i: int| 0 <= i < es.len() ==> edges.contains(#[trigger] es[i]),
        forall|i: int| 0 < i < es.len() ==> #[trigger] leads_on(es, i),
        es.last().to == es.first().from,
    ensures
        has_cycle(edges),
{
    let w = Seq::new(
        es.len() + 1,
        |i: int|
            if i < es.len() {
                es[i].from
            } else {
                es.last().to
            },
    );
    assert forall|i: int| 0 < i < w.len() implies edge(edges, w[i - 1], #[trigger] w[i]) by {
        assert(edges.contains(es[i - 1]));
        let k = choose|k: int| 0 <= k < edges.len() && edges[k] == es[i - 1];
        assert(edges[k].from == w[i - 1]);
        if i < es.len() {
            assert(leads_on(es, i));
        }
        assert(edges[k].to == w[i]);
    }
    assert(closed_walk(edges, w));
}

/// Where every edge leads from a lower rank to a higher one there is no cycle.
pub proof fn law_ranked_acyclic(edges: Seq<EdgeView>, rank: spec_fn(u64) -> int)
    requires
        forall|i: int| 0 <= i < edges.len() ==> rank((#[trigger] edges[i]).from) < rank(edges[i].to),
    ensures
        !has_cycle(edges),
{
    if has_cycle(edges) {
        let w = choose|w: Seq<u64>| closed_walk(edges, w);
        lemma_rank_rises(edges, rank, w, w.len() - 1);
        assert(w[0] == w[w.len() - 1]);
    }
}

proof fn lemma_rank_rises(
    edges: Seq<EdgeView>,
    rank: spec_fn(u64) -> int,
    w: Seq<u64>,
    n: int,
)
    requires
        forall|i: int| 0 <= i < edges.len() ==> rank((#[trigger] edges[i]).from) < rank(edges[i].to),
        walk(edges, w),
        0 < n < w.len(),
    ensures
        rank(w[0]) < rank(w[n]),
    decreases n,
{
    assert(edge(edges, w[n - 1], w[n]));
    let k = choose|k: int|
        0 <= k < edges.len() && (#[trigger] edges[k]).from == w[n - 1] && edges[k].to == w[n];
    assert(rank(edges[k].from) < rank(edges[k].to));
    if n > 1 {
        lemma_rank_rises(edges, rank, w, n - 1);
    }
}

/// A cycle that is reported is one: it comes back to where it began, passes each other
/// transaction once, and each step of it is an edge of the graph.
pub proof fn law_reported_cycle(edges: Seq<EdgeView>, w: Seq<u64>)
    requires
        simple_cycle(edges, w),
    ensures
        w.len() >= 2,
        w[0] == w[w.len() - 1],
        forall|i: int, j: int| 0 <= i < j < w.len() - 1 ==> #[trigger] w[i] != #[trigger] w[j],
        forall|i: int|
            0 < i < w.len() ==> exists|k: int|
                0 <= k < edges.len() && (#[trigger] edges[k]).from == w[i - 1] && edges[k].to
                    == #[trigger] w[i],
        has_cycle(edges),
{
    assert forall|i: int, j: int| 0 <= i < j < w.len() - 1 implies #[trigger] w[i]
        != #[trigger] w[j] by {
        let d = w.drop_last();
        assert(d[i] == w[i] && d[j] == w[j]);
    }
    assert forall|i: int| 0 < i < w.len() implies exists|k: int|
        0 <= k < edges.len() && (#[trigger] edges[k]).from == w[i - 1] && edges[k].to
            == #[trigger] w[i] by {
        assert(edge(edges, w[i - 1], w[i]));
    }
}

} // verus!
