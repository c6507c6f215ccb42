//! Sorting that keeps what has equal keys in the order it came.

use vstd::prelude::*;

verus! {

/// The number of items at the end whose keys are greater than a key.
pub open spec fn greater_at_end<A>(s: Seq<A>, key: spec_fn(A) -> u64, k: u64) -> nat
    decreases s.len(),
{
    if s.len() == 0 || key(s.last()) <= k {
        0
    } else {
        1 + greater_at_end(s.drop_last(), key, k)
    }
}

/// The list with an item put in behind those with a key no greater.
pub open spec fn put_in_order<A>(s: Seq<A>, key: spec_fn(A) -> u64, x: A) -> Seq<A> {
    s.insert(s.len() - greater_at_end(s, key, key(x)), x)
}

/// The list sorted by key, items with equal keys in the order they came.
pub open spec fn stable_sorted<A>(s: Seq<A>, key: spec_fn(A) -> u64) -> Seq<A>
    decreases s.len(),
{
    if s.len() == 0 {
        s
    } else {
        put_in_order(stable_sorted(s.drop_last(), key), key, s.last())
    }
}

/// Tells whether the keys never descend.
pub open spec fn in_order<A>(s: Seq<A>, key: spec_fn(A) -> u64) -> bool {
    forall|i: int, j: int| 0 <= i <= j < s.len() ==> key(#[trigger] s[i]) <= key(#[trigger] s[j])
}

pub proof fn lemma_greater_at_end<A>(s: Seq<A>, key: spec_fn(A) -> u64, k: u64)
    ensures
        greater_at_end(s, key, k) <= s.len(),
        forall|i: int|
            s.len() - greater_at_end(s, key, k) <= i < s.len() ==> key(#[trigger] s[i]) > k,
        greater_at_end(s, key, k) < s.len() ==> key(s[s.len() - greater_at_end(s, key, k) - 1])
            <= k,
    decreases s.len(),
{
    if s.len() > 0 && key(s.last()) > k {
        let t = s.drop_last();
        lemma_greater_at_end(t, key, k);
        let g = greater_at_end(t, key, k);
        assert forall|i: int| s.len() - greater_at_end(s, key, k) <= i < s.len() implies key(
            #[trigger] s[i],
        ) > k by {
            if i < t.len() {
                assert(s[i] == t[i]);
            }
        }
        if g < t.len() {
            assert(t[t.len() - g - 1] == s[s.len() - greater_at_end(s, key, k) - 1]);
        }
    }
}

proof fn lemma_put_in_order<A>(s: Seq<A>, key: spec_fn(A) -> u64, x: A)
    requires
        in_order(s, key),
    ensures
        in_order(put_in_order(s, key, x), key),
        put_in_order(s, key, x).len() == s.len() + 1,
{
    let g = greater_at_end(s, key, key(x));
    let p = s.len() - g;
    let r = put_in_order(s, key, x);
    lemma_greater_at_end(s, key, key(x));
    assert forall|i: int, j: int| 0 <= i <= j < r.len() implies key(#[trigger] r[i]) <= key(
        #[trigger] r[j],
    ) by {
        if i < p {
            assert(r[i] == s[i]);
            assert(key(s[i]) <= key(s[p - 1]));
        } else if i > p {
            assert(r[i] == s[i - 1]);
        }
        if j < p {
            assert(r[j] == s[j]);
        } else if j > p {
            assert(r[j] == s[j - 1]);
        }
    }
}

/// The items with one key.
pub open spec fn with_key<A>(s: Seq<A>, key: spec_fn(A) -> u64, k: u64) -> Seq<A> {
    s.filter(|x: A| key(x) == k)
}

proof fn lemma_with_key_split<A>(a: Seq<A>, b: Seq<A>, key: spec_fn(A) -> u64, k: u64)
    ensures
        with_key(a + b, key, k) == with_key(a, key, k) + with_key(b, key, k),
{
    Seq::filter_distributes_over_add(a, b, |x: A| key(x) == k);
}

proof fn lemma_with_key_none<A>(s: Seq<A>, key: spec_fn(A) -> u64, k: u64)
    requires
        forall|i: int| 0 <= i < s.len() ==> key(#[trigger] s[i]) != k,
    ensures
        with_key(s, key, k) == Seq::<A>::empty(),
    decreases s.len(),
{
    reveal(Seq::filter);
    if s.len() > 0 {
        let t = s.drop_last();
        assert forall|i: int| 0 <= i < t.len() implies key(#[trigger] t[i]) != k by {
            assert(t[i] == s[i]);
        }
        lemma_with_key_none(t, key, k);
        assert(key(s[s.len() - 1]) != k);
    }
    assert(with_key(s, key, k) =~= Seq::<A>::empty());
}

proof fn lemma_with_key_one<A>(x: A, key: spec_fn(A) -> u64, k: u64)
    ensures
        with_key(seq![x], key, k) == if key(x) == k {
            seq![x]
        } else {
            Seq::<A>::empty()
        },
{
    reveal_with_fuel(Seq::filter, 2);
    reveal(Seq::filter);
    let s = seq![x];
    assert(s.drop_last() =~= Seq::<A>::empty());
    assert(with_key(s, key, k) =~= if key(x) == k {
        seq![x]
    } else {
        Seq::<A>::empty()
    });
}

/// Sorting gives the items in order of their keys.
pub proof fn law_sorted_in_order<A>(s: Seq<A>, key: spec_fn(A) -> u64)
    ensures
        in_order(stable_sorted(s, key), key),
        stable_sorted(s, key).len() == s.len(),
    decreases s.len(),
{
    if s.len() > 0 {
        law_sorted_in_order(s.drop_last(), key);
        lemma_put_in_order(stable_sorted(s.drop_last(), key), key, s.last());
    }
}

/// Sorting keeps, of each key, the items that have it, in the order they came.
pub proof fn law_sorted_is_stable<A>(s: Seq<A>, key: spec_fn(A) -> u64, k: u64)
    ensures
        with_key(stable_sorted(s, key), key, k) == with_key(s, key, k),
    decreases s.len(),
{
    if s.len() > 0 {
        let t = stable_sorted(s.drop_last(), key);
        let x = s.last();
        law_sorted_is_stable(s.drop_last(), key, k);
        law_sorted_in_order(s.drop_last(), key);
        let g = greater_at_end(t, key, key(x));
        lemma_greater_at_end(t, key, key(x));
        let p = t.len() - g;
        let a = t.take(p);
        let b = t.skip(p);
        assert(t =~= a + b);
        assert(t.insert(p, x) =~= a + (seq![x] + b));
        assert(s =~= s.drop_last() + seq![x]);
        lemma_with_key_split(a, b, key, k);
        lemma_with_key_split(seq![x], b, key, k);
        lemma_with_key_split(a, seq![x] + b, key, k);
        lemma_with_key_split(s.drop_last(), seq![x], key, k);
        lemma_with_key_one(x, key, k);
        if key(x) == k {
            assert forall|i: int| 0 <= i < b.len() implies key(#[trigger] b[i]) != k by {
                assert(b[i] == t[p + i]);
            }
            lemma_with_key_none(b, key, k);
        }
        assert(with_key(stable_sorted(s, key), key, k) =~= with_key(s, key, k));
    }
}

/// Sorting changes nothing that is in order.
pub proof fn lemma_sorted_fixed<A>(s: Seq<A>, key: spec_fn(A) -> u64)
    requires
        in_order(s, key),
    ensures
        stable_sorted(s, key) == s,
    decreases s.len(),
{
    if s.len() > 0 {
        let t = s.drop_last();
        assert forall|i: int, j: int| 0 <= i <= j < t.len() implies key(#[trigger] t[i]) <= key(
            #[trigger] t[j],
        ) by {
            assert(t[i] == s[i] && t[j] == s[j]);
        }
        lemma_sorted_fixed(t, key);
        if t.len() > 0 {
            assert(key(s[s.len() - 2]) <= key(s[s.len() - 1]));
            assert(t.last() == s[s.len() - 2]);
        }
        assert(t.insert(t.len() as int, s.last()) =~= s);
    }
}

/// Sorting keeps the items, all of them and no others.
pub proof fn law_sorted_has<A>(s: Seq<A>, key: spec_fn(A) -> u64, x: A)
    ensures
        stable_sorted(s, key).contains(x) <==> s.contains(x),
    decreases s.len(),
{
    if s.len() > 0 {
        let t = stable_sorted(s.drop_last(), key);
        let y = s.last();
        law_sorted_has(s.drop_last(), key, x);
        lemma_greater_at_end(t, key, key(y));
        let p = t.len() - greater_at_end(t, key, key(y));
        let r = t.insert(p, y);
        assert(r[p] == y && s[s.len() - 1] == y);
        if t.contains(x) {
            let i = choose|i: int| 0 <= i < t.len() && t[i] == x;
            assert(r[if i < p {
                i
            } else {
                i + 1
            }] == x);
        }
        if r.contains(x) && x != y {
            let i = choose|i: int| 0 <= i < r.len() && r[i] == x;
            assert(t[if i < p {
                i
            } else {
                i - 1
            }] == x);
        }
        if s.drop_last().contains(x) {
            let i = choose|i: int| 0 <= i < s.len() - 1 && s.drop_last()[i] == x;
            assert(s[i] == x);
        }
        if s.contains(x) && x != y {
            let i = choose|i: int| 0 <= i < s.len() && s[i] == x;
            assert(s.drop_last()[i] == x);
        }
    }
}

} // verus!
