//! Finding text in text, and splitting text.

use vstd::prelude::*;

verus! {

/// Tells whether a pattern stands at a place of a text.
pub open spec fn stands_at(s: Seq<char>, p: Seq<char>, i: int) -> bool {
    0 <= i && i + p.len() <= s.len() && s.subrange(i, i + p.len()) == p
}

/// The first place from `i` on at which a pattern stands.
pub open spec fn find_from(s: Seq<char>, p: Seq<char>, i: int) -> Option<int>
    decreases s.len() + 1 - i,
{
    if i < 0 || i + p.len() > s.len() {
        None
    } else if stands_at(s, p, i) {
        Some(i)
    } else {
        find_from(s, p, i + 1)
    }
}

/// Tells whether a pattern stands somewhere in a text.
pub open spec fn has_text(s: Seq<char>, p: Seq<char>) -> bool {
    exists|i: int| stands_at(s, p, i)
}

/// The parts of a text between the places at which a pattern stands.
pub open spec fn split_text(s: Seq<char>, p: Seq<char>) -> Seq<Seq<char>>
    decreases s.len(),
{
    if p.len() == 0 {
        seq![s]
    } else {
        match find_from(s, p, 0) {
            None => seq![s],
            Some(i) => if 0 <= i && i + p.len() <= s.len() {
                seq![s.take(i)] + split_text(s.skip(i + p.len()), p)
            } else {
                seq![s]
            },
        }
    }
}

/// The last place of a character in a text.
pub open spec fn last_place(s: Seq<char>, c: char) -> Option<int>
    decreases s.len(),
{
    if s.len() == 0 {
        None
    } else if s.last() == c {
        Some(s.len() - 1)
    } else {
        last_place(s.drop_last(), c)
    }
}

/// The number of decimal digits at the front of a text.
pub open spec fn digits_in_front(s: Seq<char>) -> nat
    decreases s.len(),
{
    if s.len() == 0 || !('0' <= s[0] && s[0] <= '9') {
        0
    } else {
        1 + digits_in_front(s.drop_first())
    }
}

/// What a search from a place on finds stands there, and nothing stands before it.
pub proof fn lemma_find_from(s: Seq<char>, p: Seq<char>, i: int)
    requires
        0 <= i,
    ensures
        match find_from(s, p, i) {
            Some(k) => i <= k && stands_at(s, p, k) && forall|j: int|
                i <= j < k ==> !stands_at(s, p, j),
            None => forall|j: int| i <= j ==> !stands_at(s, p, j),
        },
    decreases s.len() + 1 - i,
{
    if i + p.len() <= s.len() && !stands_at(s, p, i) {
        lemma_find_from(s, p, i + 1);
    }
}

/// Where a pattern stands first, a search finds it.
pub proof fn lemma_find_first(s: Seq<char>, p: Seq<char>, k: int)
    requires
        stands_at(s, p, k),
        forall|j: int| 0 <= j < k ==> !stands_at(s, p, j),
    ensures
        find_from(s, p, 0) == Some(k),
{
    lemma_find_from(s, p, 0);
}

/// Where a pattern stands nowhere, a search finds nothing.
pub proof fn lemma_find_nothing(s: Seq<char>, p: Seq<char>)
    requires
        forall|j: int| 0 <= j ==> !stands_at(s, p, j),
    ensures
        find_from(s, p, 0) is None,
{
    lemma_find_from(s, p, 0);
}

fn same_at(s: &Vec<char>, p: &Vec<char>, i: usize) -> (r: bool)
    requires
        i + p.len() <= s.len(),
    ensures
        r == stands_at(s@, p@, i as int),
{
    let mut k: usize = 0;
    while k < p.len()
        invariant
            k <= p.len(),
            i + p.len() <= s.len(),
            forall|j: int| 0 <= j < k ==> s@[i + j] == #[trigger] p@[j],
        decreases p.len() - k,
    {
        if s[i + k] != p[k] {
            assert(s@.subrange(i as int, i + p.len())[k as int] != p@[k as int]);
            return false;
        }
        k += 1;
    }
    assert(s@.subrange(i as int, i + p.len()) =~= p@);
    true
}

/// Finds the first place from `from` on at which a pattern stands.
pub fn find_chars(s: &Vec<char>, p: &Vec<char>, from: usize) -> (r: Option<usize>)
    ensures
        match r {
            Some(i) => find_from(s@, p@, from as int) == Some(i as int),
            None => find_from(s@, p@, from as int) is None,
        },
{
    let mut i: usize = from;
    while i <= s.len() && p.len() <= s.len() - i
        invariant
            from <= i,
            find_from(s@, p@, from as int) == find_from(s@, p@, i as int),
        decreases s.len() - i + 1,
    {
        if same_at(s, p, i) {
            return Some(i);
        }
        if i == s.len() {
            assert(find_from(s@, p@, i + 1) is None);
            return None;
        }
        i += 1;
    }
    None
}

/// Tells whether a pattern stands somewhere in a text.
pub fn contains_chars(s: &Vec<char>, p: &Vec<char>) -> (r: bool)
    ensures
        r == has_text(s@, p@),
{
    proof {
        lemma_find_from(s@, p@, 0);
    }
    let r = find_chars(s, p, 0);
    match r {
        Some(i) => {
            assert(stands_at(s@, p@, i as int));
            true
        },
        None => false,
    }
}

/// Finds the last place of a character.
pub fn find_last(s: &Vec<char>, from: usize, to: usize, c: char) -> (r: Option<usize>)
    requires
        from <= to <= s.len(),
    ensures
        match r {
            Some(i) => from <= i < to && last_place(
                s@.subrange(from as int, to as int),
                c,
            ) == Some(i - from),
            None => last_place(s@.subrange(from as int, to as int), c) is None,
        },
{
    let ghost part = s@.subrange(from as int, to as int);
    let mut i: usize = to;
    assert(part.take(i - from) =~= part);
    while i > from
        invariant
            from <= i <= to <= s.len(),
            part == s@.subrange(from as int, to as int),
            last_place(part, c) == last_place(part.take(i - from), c),
        decreases i - from,
    {
        let ghost t = part.take(i - from);
        assert(t.last() == s@[i - 1]);
        assert(t.drop_last() =~= part.take(i - from - 1));
        i -= 1;
        if s[i] == c {
            return Some(i);
        }
    }
    assert(part.take(0) =~= Seq::<char>::empty());
    None
}

/// Finds where the decimal digits from a place on end.
pub fn digits_end(s: &Vec<char>, from: usize, to: usize) -> (r: usize)
    requires
        from <= to <= s.len(),
    ensures
        from <= r <= to,
        r == from + digits_in_front(s@.subrange(from as int, to as int)),
{
    let mut i: usize = from;
    while i < to && '0' <= s[i] && s[i] <= '9'
        invariant
            from <= i <= to <= s.len(),
            digits_in_front(s@.subrange(from as int, to as int)) == i - from + digits_in_front(
                s@.subrange(i as int, to as int),
            ),
        decreases to - i,
    {
        assert(s@.subrange(i as int, to as int).drop_first() =~= s@.subrange(i + 1, to as int));
        assert(s@.subrange(i as int, to as int)[0] == s@[i as int]);
        i += 1;
    }
    assert(i < to ==> s@.subrange(i as int, to as int)[0] == s@[i as int]);
    i
}

} // verus!
