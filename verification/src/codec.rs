//! Byte strings: their order, fixed-width integers and variable-length integers.

use vstd::prelude::*;
use vstd::slice::slice_subrange;

verus! {

/// Strict lexicographic order on byte strings.
pub open spec fn lex_lt(a: Seq<u8>, b: Seq<u8>) -> bool
    decreases a.len(),
{
    if b.len() == 0 {
        false
    } else if a.len() == 0 {
        true
    } else if a[0] != b[0] {
        a[0] < b[0]
    } else {
        lex_lt(a.drop_first(), b.drop_first())
    }
}

/// Lexicographic order on byte strings.
pub open spec fn lex_le(a: Seq<u8>, b: Seq<u8>) -> bool {
    a == b || lex_lt(a, b)
}

/// No byte string is less than itself.
pub proof fn lemma_lex_irreflexive(a: Seq<u8>)
    ensures
        !lex_lt(a, a),
    decreases a.len(),
{
    if a.len() > 0 {
        lemma_lex_irreflexive(a.drop_first());
    }
}

/// The order is transitive.
pub proof fn lemma_lex_transitive(a: Seq<u8>, b: Seq<u8>, c: Seq<u8>)
    requires
        lex_lt(a, b),
        lex_lt(b, c),
    ensures
        lex_lt(a, c),
    decreases a.len(),
{
    if a.len() > 0 && a[0] == b[0] && b[0] == c[0] {
        lemma_lex_transitive(a.drop_first(), b.drop_first(), c.drop_first());
    }
}

/// Two byte strings are equal or one is less than the other.
pub proof fn lemma_lex_total(a: Seq<u8>, b: Seq<u8>)
    ensures
        a == b || lex_lt(a, b) || lex_lt(b, a),
    decreases a.len(),
{
    if a.len() > 0 && b.len() > 0 && a[0] == b[0] {
        lemma_lex_total(a.drop_first(), b.drop_first());
        if a.drop_first() == b.drop_first() {
            assert(a =~= seq![a[0]] + a.drop_first());
            assert(b =~= seq![b[0]] + b.drop_first());
        }
    } else if a.len() == 0 && b.len() == 0 {
        assert(a =~= b);
    }
}

/// No two byte strings are each less than the other.
pub proof fn lemma_lex_asymmetric(a: Seq<u8>, b: Seq<u8>)
    requires
        lex_lt(a, b),
    ensures
        !lex_lt(b, a),
        a != b,
{
    if lex_lt(b, a) {
        lemma_lex_transitive(a, b, a);
    }
    lemma_lex_irreflexive(a);
}

/// `a <= b < c` implies `a < c`.
pub proof fn lemma_lex_le_lt(a: Seq<u8>, b: Seq<u8>, c: Seq<u8>)
    requires
        lex_le(a, b),
        lex_lt(b, c),
    ensures
        lex_lt(a, c),
{
    if a != b {
        lemma_lex_transitive(a, b, c);
    }
}

/// `a < b <= c` implies `a < c`.
pub proof fn lemma_lex_lt_le(a: Seq<u8>, b: Seq<u8>, c: Seq<u8>)
    requires
        lex_lt(a, b),
        lex_le(b, c),
    ensures
        lex_lt(a, c),
{
    if b != c {
        lemma_lex_transitive(a, b, c);
    }
}

/// A common prefix does not matter to the order.
pub proof fn lemma_lex_common_prefix(p: Seq<u8>, a: Seq<u8>, b: Seq<u8>)
    ensures
        lex_lt(p + a, p + b) == lex_lt(a, b),
    decreases p.len(),
{
    if p.len() == 0 {
        assert(p + a =~= a);
        assert(p + b =~= b);
    } else {
        assert((p + a).drop_first() =~= p.drop_first() + a);
        assert((p + b).drop_first() =~= p.drop_first() + b);
        lemma_lex_common_prefix(p.drop_first(), a, b);
    }
}

/// Where neither of two ordered byte strings is a prefix of the other, whatever follows them
/// leaves their order.
pub proof fn lemma_lex_extend(a: Seq<u8>, b: Seq<u8>, c: Seq<u8>, d: Seq<u8>)
    requires
        lex_lt(a, b),
        !a.is_prefix_of(b),
    ensures
        lex_lt(a + c, b + d),
    decreases a.len(),
{
    if a.len() == 0 {
        assert(a =~= b.take(0));
        assert(false);
    } else {
        assert((a + c)[0] == a[0]);
        assert((b + d)[0] == b[0]);
        if a[0] == b[0] {
            assert((a + c).drop_first() =~= a.drop_first() + c);
            assert((b + d).drop_first() =~= b.drop_first() + d);
            if a.drop_first().is_prefix_of(b.drop_first()) {
                assert(a =~= b.subrange(0, a.len() as int)) by {
                    assert forall|i: int| 0 <= i < a.len() implies a[i] == b[i] by {
                        if i > 0 {
                            assert(a[i] == a.drop_first()[i - 1]);
                            assert(b[i] == b.drop_first().subrange(
                                0,
                                a.drop_first().len() as int,
                            )[i - 1]);
                        }
                    }
                }
            }
            lemma_lex_extend(a.drop_first(), b.drop_first(), c, d);
        }
    }
}

/// Ordered byte strings of one length keep their order whatever follows them.
pub proof fn lemma_lex_same_length(a: Seq<u8>, b: Seq<u8>, c: Seq<u8>, d: Seq<u8>)
    requires
        lex_lt(a, b),
        a.len() == b.len(),
    ensures
        lex_lt(a + c, b + d),
{
    if a.is_prefix_of(b) {
        assert(b.subrange(0, a.len() as int) =~= b);
        lemma_lex_irreflexive(a);
    }
    lemma_lex_extend(a, b, c, d);
}

/// Tells whether two byte strings are equal.
pub fn bytes_eq(a: &[u8], b: &[u8]) -> (r: bool)
    ensures
        r == (a@ == b@),
{
    if a.len() != b.len() {
        return false;
    }
    let mut i: usize = 0;
    while i < a.len()
        invariant
            i <= a.len(),
            a.len() == b.len(),
            a@.take(i as int) == b@.take(i as int),
        decreases a.len() - i,
    {
        if a[i] != b[i] {
            assert(a@[i as int] != b@[i as int]);
            return false;
        }
        assert(a@.take(i + 1) =~= a@.take(i as int).push(a@[i as int]));
        assert(b@.take(i + 1) =~= b@.take(i as int).push(b@[i as int]));
        i += 1;
    }
    assert(a@.take(i as int) =~= a@);
    assert(b@.take(i as int) =~= b@);
    true
}

/// Tells whether one byte string is less than another.
pub fn bytes_lt(a: &[u8], b: &[u8]) -> (r: bool)
    ensures
        r == lex_lt(a@, b@),
{
    let mut i: usize = 0;
    assert(a@.skip(0) =~= a@);
    assert(b@.skip(0) =~= b@);
    while i < a.len() && i < b.len()
        invariant
            i <= a.len(),
            i <= b.len(),
            lex_lt(a@, b@) == lex_lt(a@.skip(i as int), b@.skip(i as int)),
        decreases a.len() - i,
    {
        if a[i] != b[i] {
            return a[i] < b[i];
        }
        assert(a@.skip(i as int).drop_first() =~= a@.skip(i + 1));
        assert(b@.skip(i as int).drop_first() =~= b@.skip(i + 1));
        i += 1;
    }
    i < b.len()
}

/// Tells whether one byte string is at most another.
pub fn bytes_le(a: &[u8], b: &[u8]) -> (r: bool)
    ensures
        r == lex_le(a@, b@),
{
    proof {
        lemma_lex_total(a@, b@);
        if lex_lt(b@, a@) {
            lemma_lex_asymmetric(b@, a@);
        }
        lemma_lex_irreflexive(a@);
    }
    !bytes_lt(b, a)
}

/// Appends a slice to a buffer.
pub fn append_bytes(buf: &mut Vec<u8>, s: &[u8])
    ensures
        final(buf)@ == old(buf)@ + s@,
{
    let ghost before = buf@;
    buf.extend_from_slice(s);
    proof {
        assert(buf@ =~= before + s@);
    }
}

/// Copies a slice.
pub fn copy_bytes(s: &[u8]) -> (r: Vec<u8>)
    ensures
        r@ == s@,
{
    let mut r: Vec<u8> = Vec::new();
    append_bytes(&mut r, s);
    assert(r@ =~= s@);
    r
}

/// Copies the bytes of `s` from `i` up to `j`.
pub fn copy_range(s: &[u8], i: usize, j: usize) -> (r: Vec<u8>)
    requires
        i <= j <= s.len(),
    ensures
        r@ == s@.subrange(i as int, j as int),
{
    copy_bytes(slice_subrange(s, i, j))
}

/// 256 to the power `n`.
pub open spec fn pow256(n: nat) -> nat
    decreases n,
{
    if n == 0 {
        1
    } else {
        256 * pow256((n - 1) as nat)
    }
}

/// `pow256` at the widths in use.
pub proof fn lemma_pow256()
    ensures
        pow256(4) == 0x1_0000_0000,
        pow256(8) == 0x1_0000_0000_0000_0000,
{
    reveal_with_fuel(pow256, 9);
}

/// The `n` low bytes of `x`, least significant first.
pub open spec fn le_bytes(x: nat, n: nat) -> Seq<u8>
    decreases n,
{
    if n == 0 {
        Seq::<u8>::empty()
    } else {
        seq![(x % 256) as u8] + le_bytes(x / 256, (n - 1) as nat)
    }
}

/// The number that bytes denote, least significant first.
pub open spec fn le_value(s: Seq<u8>) -> nat
    decreases s.len(),
{
    if s.len() == 0 {
        0
    } else {
        s[0] as nat + 256 * le_value(s.drop_first())
    }
}

/// The `n` low bytes of `x`, most significant first.
pub open spec fn be_bytes(x: nat, n: nat) -> Seq<u8>
    decreases n,
{
    if n == 0 {
        Seq::<u8>::empty()
    } else {
        be_bytes(x / 256, (n - 1) as nat).push((x % 256) as u8)
    }
}

/// The number that bytes denote, most significant first.
pub open spec fn be_value(s: Seq<u8>) -> nat
    decreases s.len(),
{
    if s.len() == 0 {
        0
    } else {
        256 * be_value(s.drop_last()) + s.last() as nat
    }
}

/// The four bytes of a 32-bit number.
pub open spec fn le32(x: u32) -> Seq<u8> {
    le_bytes(x as nat, 4)
}

/// The eight bytes of a 64-bit number.
pub open spec fn le64(x: u64) -> Seq<u8> {
    le_bytes(x as nat, 8)
}

/// The number in the four bytes at `off`.
pub open spec fn le32_at(s: Seq<u8>, off: int) -> nat {
    le_value(s.subrange(off, off + 4))
}

/// The number in the eight bytes at `off`.
pub open spec fn le64_at(s: Seq<u8>, off: int) -> nat {
    le_value(s.subrange(off, off + 8))
}

pub proof fn lemma_le_bytes_len(x: nat, n: nat)
    ensures
        le_bytes(x, n).len() == n,
    decreases n,
{
    if n > 0 {
        lemma_le_bytes_len(x / 256, (n - 1) as nat);
    }
}

pub proof fn lemma_be_bytes_len(x: nat, n: nat)
    ensures
        be_bytes(x, n).len() == n,
    decreases n,
{
    if n > 0 {
        lemma_be_bytes_len(x / 256, (n - 1) as nat);
    }
}

/// Writing a number and reading it back gives the number.
pub proof fn lemma_le_round_trip(x: nat, n: nat)
    requires
        x < pow256(n),
    ensures
        le_bytes(x, n).len() == n,
        le_value(le_bytes(x, n)) == x,
    decreases n,
{
    lemma_le_bytes_len(x, n);
    if n > 0 {
        lemma_le_round_trip(x / 256, (n - 1) as nat);
        assert(le_bytes(x, n).drop_first() =~= le_bytes(x / 256, (n - 1) as nat));
    }
}

/// The four and eight byte forms of `lemma_le_round_trip`.
pub proof fn lemma_le_fixed(x: u32, y: u64)
    ensures
        le32(x).len() == 4,
        le_value(le32(x)) == x,
        le64(y).len() == 8,
        le_value(le64(y)) == y,
{
    lemma_pow256();
    lemma_le_round_trip(x as nat, 4);
    lemma_le_round_trip(y as nat, 8);
}

/// Bytes denote a number below the power of 256 that their count gives.
pub proof fn lemma_le_value_bound(s: Seq<u8>)
    ensures
        le_value(s) < pow256(s.len()),
    decreases s.len(),
{
    if s.len() > 0 {
        lemma_le_value_bound(s.drop_first());
    }
}

pub proof fn lemma_be_value_bound(s: Seq<u8>)
    ensures
        be_value(s) < pow256(s.len()),
    decreases s.len(),
{
    if s.len() > 0 {
        lemma_be_value_bound(s.drop_last());
    }
}

/// Writing a number most significant byte first and reading it back gives the number.
pub proof fn lemma_be_round_trip(x: nat, n: nat)
    requires
        x < pow256(n),
    ensures
        be_bytes(x, n).len() == n,
        be_value(be_bytes(x, n)) == x,
    decreases n,
{
    lemma_be_bytes_len(x, n);
    if n > 0 {
        lemma_be_round_trip(x / 256, (n - 1) as nat);
        assert(be_bytes(x, n).drop_last() =~= be_bytes(x / 256, (n - 1) as nat));
    }
}

/// Reading bytes as a number and writing it again gives the bytes.
pub proof fn lemma_be_value_round_trip(s: Seq<u8>)
    ensures
        be_bytes(be_value(s), s.len()) == s,
    decreases s.len(),
{
    if s.len() > 0 {
        lemma_be_value_round_trip(s.drop_last());
        assert(be_value(s) / 256 == be_value(s.drop_last()));
        assert(be_value(s) % 256 == s.last());
        assert(s =~= s.drop_last().push(s.last()));
    }
}

/// Most significant byte first, the order of numbers is the order of their bytes.
pub proof fn lemma_be_order(x: nat, y: nat, n: nat)
    requires
        x < y,
        y < pow256(n),
    ensures
        lex_lt(be_bytes(x, n), be_bytes(y, n)),
    decreases n,
{
    let xh = be_bytes(x / 256, (n - 1) as nat);
    let yh = be_bytes(y / 256, (n - 1) as nat);
    let xl = seq![(x % 256) as u8];
    let yl = seq![(y % 256) as u8];
    lemma_be_bytes_len(x / 256, (n - 1) as nat);
    lemma_be_bytes_len(y / 256, (n - 1) as nat);
    assert(be_bytes(x, n) =~= xh + xl);
    assert(be_bytes(y, n) =~= yh + yl);
    if x / 256 < y / 256 {
        lemma_be_order(x / 256, y / 256, (n - 1) as nat);
        lemma_lex_same_length(xh, yh, xl, yl);
    } else {
        assert(x / 256 == y / 256);
        assert(lex_lt(xl, yl));
        lemma_lex_common_prefix(xh, xl, yl);
    }
}

/// Appends a 32-bit number, least significant byte first.
pub fn put_u32(buf: &mut Vec<u8>, x: u32)
    ensures
        final(buf)@ == old(buf)@ + le32(x),
{
    let ghost before = buf@;
    let mut rest: u32 = x;
    let mut i: usize = 0;
    proof {
        lemma_le_bytes_len(x as nat, 4);
        assert(le32(x).skip(0) =~= le32(x));
        assert(buf@ =~= before + le32(x).take(0));
    }
    while i < 4
        invariant
            i <= 4,
            le32(x).len() == 4,
            le32(x).skip(i as int) == le_bytes(rest as nat, (4 - i) as nat),
            buf@ == before + le32(x).take(i as int),
        decreases 4 - i,
    {
        buf.push((rest % 256) as u8);
        proof {
            lemma_le_bytes_len((rest / 256) as nat, (3 - i) as nat);
            let s = le32(x).skip(i as int);
            assert(s[0] == le32(x)[i as int]);
            assert(s.drop_first() =~= le32(x).skip(i + 1));
            assert(s.drop_first() =~= le_bytes((rest / 256) as nat, (3 - i) as nat));
            assert(le32(x).take(i + 1) =~= le32(x).take(i as int).push(le32(x)[i as int]));
            assert(buf@ =~= before + le32(x).take(i + 1));
        }
        rest = rest / 256;
        i += 1;
    }
    assert(le32(x).take(4) =~= le32(x));
}

/// Appends a 64-bit number, least significant byte first.
pub fn put_u64(buf: &mut Vec<u8>, x: u64)
    ensures
        final(buf)@ == old(buf)@ + le64(x),
{
    let ghost before = buf@;
    let mut rest: u64 = x;
    let mut i: usize = 0;
    proof {
        lemma_le_bytes_len(x as nat, 8);
        assert(le64(x).skip(0) =~= le64(x));
        assert(buf@ =~= before + le64(x).take(0));
    }
    while i < 8
        invariant
            i <= 8,
            le64(x).len() == 8,
            le64(x).skip(i as int) == le_bytes(rest as nat, (8 - i) as nat),
            buf@ == before + le64(x).take(i as int),
        decreases 8 - i,
    {
        buf.push((rest % 256) as u8);
        proof {
            lemma_le_bytes_len((rest / 256) as nat, (7 - i) as nat);
            let s = le64(x).skip(i as int);
            assert(s[0] == le64(x)[i as int]);
            assert(s.drop_first() =~= le64(x).skip(i + 1));
            assert(s.drop_first() =~= le_bytes((rest / 256) as nat, (7 - i) as nat));
            assert(le64(x).take(i + 1) =~= le64(x).take(i as int).push(le64(x)[i as int]));
            assert(buf@ =~= before + le64(x).take(i + 1));
        }
        rest = rest / 256;
        i += 1;
    }
    assert(le64(x).take(8) =~= le64(x));
}

/// Reads `n` bytes at `off`, least significant first.
fn get_le(data: &[u8], off: usize, n: usize) -> (r: u64)
    requires
        n <= 8,
        off + n <= data.len(),
    ensures
        r == le_value(data@.subrange(off as int, off + n)),
{
    let mut acc: u64 = 0;
    let mut i: usize = n;
    while i > 0
        invariant
            i <= n <= 8,
            off + n <= data.len(),
            acc == le_value(data@.subrange(off + i, off + n)),
        decreases i,
    {
        i -= 1;
        proof {
            let s = data@.subrange(off + i, off + n);
            assert(s.drop_first() =~= data@.subrange(off + i + 1, off + n));
            lemma_le_value_bound(s);
            lemma_pow256();
            reveal_with_fuel(pow256, 9);
            assert(pow256(s.len()) <= pow256(8));
        }
        acc = data[off + i] as u64 + 256 * acc;
    }
    acc
}

/// Reads a 32-bit number at `off`, least significant byte first.
pub fn get_u32(data: &[u8], off: usize) -> (r: u32)
    requires
        off + 4 <= data.len(),
    ensures
        r == le32_at(data@, off as int),
{
    proof {
        lemma_le_value_bound(data@.subrange(off as int, off + 4));
        lemma_pow256();
    }
    get_le(data, off, 4) as u32
}

/// Reads a 64-bit number at `off`, least significant byte first.
pub fn get_u64(data: &[u8], off: usize) -> (r: u64)
    requires
        off + 8 <= data.len(),
    ensures
        r == le64_at(data@, off as int),
{
    get_le(data, off, 8)
}

/// Appends a 64-bit number, most significant byte first.
pub fn put_u64_be(buf: &mut Vec<u8>, x: u64)
    ensures
        final(buf)@ == old(buf)@ + be_bytes(x as nat, 8),
{
    let ghost before = buf@;
    let ghost bytes = be_bytes(x as nat, 8);
    let mut unit: u64 = 0x100_0000_0000_0000;
    let mut i: usize = 0;
    proof {
        lemma_be_bytes_len(x as nat, 8);
        reveal_with_fuel(pow256, 9);
        assert(bytes.take(0) =~= be_bytes(0, 0));
        assert(buf@ =~= before + bytes.take(0));
        lemma_be_prefix(x as nat, 8);
    }
    while i < 8
        invariant
            i <= 8,
            bytes == be_bytes(x as nat, 8),
            bytes.len() == 8,
            i < 8 ==> unit == pow256((7 - i) as nat),
            forall|k: int|
                0 <= k < 8 ==> #[trigger] bytes[k] == (x as nat / pow256((7 - k) as nat)) % 256,
            buf@ == before + bytes.take(i as int),
        decreases 8 - i,
    {
        proof {
            reveal_with_fuel(pow256, 9);
            assert(unit > 0);
            assert(bytes[i as int] == (x as nat / pow256((7 - i) as nat)) % 256);
        }
        buf.push(((x / unit) % 256) as u8);
        proof {
            assert(bytes.take(i + 1) =~= bytes.take(i as int).push(bytes[i as int]));
            assert(buf@ =~= before + bytes.take(i + 1));
        }
        unit = unit / 256;
        i += 1;
    }
    assert(bytes.take(8) =~= bytes);
}

/// The byte at each place of a number written most significant byte first.
proof fn lemma_be_prefix(x: nat, n: nat)
    ensures
        be_bytes(x, n).len() == n,
        forall|k: int|
            0 <= k < n ==> #[trigger] be_bytes(x, n)[k] == (x / pow256((n - 1 - k) as nat)) % 256,
    decreases n,
{
    lemma_be_bytes_len(x, n);
    if n > 0 {
        lemma_be_prefix(x / 256, (n - 1) as nat);
        assert forall|k: int| 0 <= k < n implies #[trigger] be_bytes(x, n)[k] == (x / pow256(
            (n - 1 - k) as nat,
        )) % 256 by {
            if k < n - 1 {
                let p = pow256((n - 2 - k) as nat);
                assert(be_bytes(x, n)[k] == be_bytes(x / 256, (n - 1) as nat)[k]);
                assert(be_bytes(x / 256, (n - 1) as nat)[k] == ((x / 256) / p) % 256) by {
                    assert(((n - 1) as nat - 1 - k) as nat == (n - 2 - k) as nat);
                }
                assert(pow256((n - 1 - k) as nat) == 256 * p);
                lemma_pow256_positive((n - 2 - k) as nat);
                vstd::arithmetic::div_mod::lemma_div_denominator(x as int, 256, p as int);
                assert((x / 256) / p == x / (256 * p));
            } else {
                assert(pow256(0) == 1);
                assert(x / 1 == x);
            }
        }
    }
}

proof fn lemma_pow256_positive(n: nat)
    ensures
        pow256(n) > 0,
    decreases n,
{
    if n > 0 {
        lemma_pow256_positive((n - 1) as nat);
    }
}

/// Reads a 64-bit number at `off`, most significant byte first.
pub fn get_u64_be(data: &[u8], off: usize) -> (r: u64)
    requires
        off + 8 <= data.len(),
    ensures
        r == be_value(data@.subrange(off as int, off + 8)),
{
    let mut acc: u64 = 0;
    let mut i: usize = 0;
    while i < 8
        invariant
            i <= 8,
            off + 8 <= data.len(),
            acc == be_value(data@.subrange(off as int, off + i)),
        decreases 8 - i,
    {
        proof {
            let s = data@.subrange(off as int, off + i + 1);
            assert(s.drop_last() =~= data@.subrange(off as int, off + i));
            lemma_be_value_bound(s);
            lemma_pow256();
            reveal_with_fuel(pow256, 9);
            assert(pow256(s.len()) <= pow256(8));
        }
        acc = 256 * acc + data[off + i] as u64;
        i += 1;
    }
    acc
}

/// The variable-length form of a number: seven bits a byte, least significant first, the high
/// bit set on every byte but the last.
pub open spec fn varint(x: nat) -> Seq<u8>
    decreases x,
{
    if x < 128 {
        seq![x as u8]
    } else {
        seq![(x % 128 + 128) as u8] + varint(x / 128)
    }
}

/// The number that the low seven bits of bytes denote, least significant first.
pub open spec fn base128(s: Seq<u8>) -> nat
    decreases s.len(),
{
    if s.len() == 0 {
        0
    } else {
        (s[0] % 128) as nat + 128 * base128(s.drop_first())
    }
}

/// The place of the first byte whose high bit is clear, or the length where there is none.
pub open spec fn varint_end(s: Seq<u8>) -> nat
    decreases s.len(),
{
    if s.len() == 0 || s[0] < 128 {
        0
    } else {
        1 + varint_end(s.drop_first())
    }
}

/// What decoding a variable-length number gives: its value, cut to 64 bits, and the bytes it
/// takes; nothing where no byte among the first ten ends it.
pub open spec fn varint_decode(s: Seq<u8>) -> Option<(nat, nat)> {
    let n = varint_end(s);
    if n < s.len() && n < 10 {
        Some((base128(s.take(n as int + 1)) % 0x1_0000_0000_0000_0000, n + 1))
    } else {
        None
    }
}

pub proof fn lemma_varint_end_bound(s: Seq<u8>)
    ensures
        varint_end(s) <= s.len(),
        varint_end(s) < s.len() ==> s[varint_end(s) as int] < 128,
        forall|k: int| 0 <= k < varint_end(s) ==> s[k] >= 128,
    decreases s.len(),
{
    if s.len() > 0 && s[0] >= 128 {
        lemma_varint_end_bound(s.drop_first());
        assert forall|k: int| 0 <= k < varint_end(s) implies s[k] >= 128 by {
            if k > 0 {
                assert(s[k] == s.drop_first()[k - 1]);
            }
        }
    }
}

/// The place of the ending byte is the one place with this property.
proof fn lemma_varint_end_unique(s: Seq<u8>, n: nat)
    requires
        n <= s.len(),
        n < s.len() ==> s[n as int] < 128,
        forall|k: int| 0 <= k < n ==> s[k] >= 128,
    ensures
        varint_end(s) == n,
{
    lemma_varint_end_bound(s);
}

proof fn lemma_base128_push(s: Seq<u8>, b: u8, w: nat)
    requires
        w == pow128(s.len()),
    ensures
        base128(s.push(b)) == base128(s) + (b % 128) * w,
    decreases s.len(),
{
    if s.len() == 0 {
        assert(s.push(b).drop_first() =~= Seq::<u8>::empty());
        assert(base128(Seq::<u8>::empty()) == 0);
    } else {
        let w1 = pow128((s.len() - 1) as nat);
        assert(s.push(b).drop_first() =~= s.drop_first().push(b));
        lemma_base128_push(s.drop_first(), b, w1);
        assert(128 * ((b % 128) * w1) == (b % 128) * (128 * w1)) by (nonlinear_arith);
    }
}

/// 128 to the power `n`.
pub open spec fn pow128(n: nat) -> nat
    decreases n,
{
    if n == 0 {
        1
    } else {
        128 * pow128((n - 1) as nat)
    }
}

proof fn lemma_base128_bound(s: Seq<u8>)
    ensures
        base128(s) < pow128(s.len()),
    decreases s.len(),
{
    if s.len() > 0 {
        lemma_base128_bound(s.drop_first());
    }
}

/// The variable-length form of a number below `128^n` takes at most `n` bytes, and decoding it,
/// whatever follows, gives the number back.
pub proof fn lemma_varint_round_trip(x: nat, rest: Seq<u8>)
    requires
        x < 0x1_0000_0000_0000_0000,
    ensures
        varint_decode(varint(x) + rest) == Some((x, varint(x).len())),
        1 <= varint(x).len() <= 10,
{
    reveal_with_fuel(pow128, 11);
    lemma_varint_parts(x, 10, rest);
    let s = varint(x) + rest;
    let n = (varint(x).len() - 1) as nat;
    lemma_varint_end_unique(s, n);
    assert(s.take(n as int + 1) =~= varint(x));
}

proof fn lemma_varint_parts(x: nat, n: nat, rest: Seq<u8>)
    requires
        x < pow128(n),
    ensures
        1 <= varint(x).len(),
        varint(x).len() <= n || n == 0,
        base128(varint(x)) == x,
        (varint(x) + rest)[varint(x).len() - 1] < 128,
        forall|k: int| 0 <= k < varint(x).len() - 1 ==> (varint(x) + rest)[k] >= 128,
    decreases n,
{
    if x < 128 {
        assert(varint(x).drop_first() =~= Seq::<u8>::empty());
        assert(base128(Seq::<u8>::empty()) == 0);
    } else {
        lemma_varint_parts(x / 128, (n - 1) as nat, rest);
        assert(n != 1) by {
            assert(pow128(1) == 128 * pow128(0));
        }
        let t = varint(x / 128);
        assert(varint(x).drop_first() =~= t);
        assert((varint(x) + rest)[varint(x).len() - 1] == (t + rest)[t.len() - 1]);
        assert forall|k: int| 0 <= k < varint(x).len() - 1 implies (varint(x) + rest)[k]
            >= 128 by {
            if k > 0 {
                assert((varint(x) + rest)[k] == (t + rest)[k - 1]);
            }
        }
    }
}

/// Appends a number in variable-length form.
pub fn put_varint(buf: &mut Vec<u8>, value: u64)
    ensures
        final(buf)@ == old(buf)@ + varint(value as nat),
{
    let ghost before = buf@;
    let mut rest: u64 = value;
    assert(buf@ + varint(rest as nat) =~= before + varint(value as nat));
    while rest >= 128
        invariant
            buf@ + varint(rest as nat) == before + varint(value as nat),
        decreases rest,
    {
        let ghost b = buf@;
        buf.push((rest % 128 + 128) as u8);
        proof {
            assert(buf@ + varint((rest / 128) as nat) =~= b + varint(rest as nat));
        }
        rest = rest / 128;
    }
    let ghost b = buf@;
    buf.push(rest as u8);
    assert(buf@ =~= b + varint(rest as nat));
}

/// Reads a number in variable-length form from the front of `data`, with the bytes it takes.
#[verifier::rlimit(40)]
pub fn get_varint(data: &[u8]) -> (r: Option<(u64, usize)>)
    ensures
        match r {
            Some((v, n)) => varint_decode(data@) == Some((v as nat, n as nat)),
            None => varint_decode(data@) is None,
        },
{
    let mut value: u64 = 0;
    let mut unit: u64 = 1;
    let mut i: usize = 0;
    proof {
        assert(data@.take(0) =~= Seq::<u8>::empty());
    }
    while i < data.len()
        invariant
            i <= data.len(),
            i < 10,
            i < 10 ==> unit == pow128(i as nat),
            value == base128(data@.take(i as int)),
            forall|k: int| 0 <= k < i ==> data@[k] >= 128,
        decreases data.len() - i,
    {
        let byte = data[i];
        let low: u64 = (byte % 128) as u64;
        let ghost t = data@.take(i as int);
        proof {
            reveal_with_fuel(pow128, 11);
            lemma_base128_bound(t);
            lemma_base128_push(t, byte, unit as nat);
            assert(data@.take(i + 1) =~= t.push(byte));
        }
        if i < 9 {
            proof {
                assert(low * unit <= 127 * unit) by (nonlinear_arith)
                    requires
                        low <= 127,
                ;
            }
            value = value + low * unit;
            proof {
                lemma_base128_bound(data@.take(i + 1));
            }
            if byte < 128 {
                proof {
                    lemma_varint_end_unique(data@, i as nat);
                }
                return Some((value, i + 1));
            }
            unit = unit * 128;
        } else {
            if byte < 128 {
                let top: u64 = low % 2;
                proof {
                    lemma_varint_end_unique(data@, i as nat);
                    let q: int = (low / 2) as int;
                    assert(low == 2 * q + top);
                    let whole = base128(data@.take(i + 1)) as int;
                    assert((byte % 128) * (unit as nat) == low * 0x8000_0000_0000_0000)
                        by (nonlinear_arith)
                        requires
                            unit == 0x8000_0000_0000_0000,
                            low == byte % 128,
                    ;
                    assert(whole == value + top * 0x8000_0000_0000_0000 + q
                        * 0x1_0000_0000_0000_0000);
                    assert(whole % 0x1_0000_0000_0000_0000 == value + top
                        * 0x8000_0000_0000_0000);
                }
                return Some((value + top * 0x8000_0000_0000_0000, i + 1));
            }
            proof {
                lemma_varint_end_bound(data@);
            }
            return None;
        }
        i += 1;
    }
    proof {
        lemma_varint_end_unique(data@, data@.len());
    }
    None
}

/// The bytes that two byte strings have in common at their front.
pub open spec fn common_prefix(a: Seq<u8>, b: Seq<u8>) -> nat
    decreases a.len(),
{
    if a.len() == 0 || b.len() == 0 || a[0] != b[0] {
        0
    } else {
        1 + common_prefix(a.drop_first(), b.drop_first())
    }
}

pub proof fn lemma_common_prefix(a: Seq<u8>, b: Seq<u8>)
    ensures
        common_prefix(a, b) <= a.len(),
        common_prefix(a, b) <= b.len(),
        a.take(common_prefix(a, b) as int) == b.take(common_prefix(a, b) as int),
    decreases a.len(),
{
    let n = common_prefix(a, b);
    if n > 0 {
        lemma_common_prefix(a.drop_first(), b.drop_first());
        let x = a.drop_first().take(n - 1);
        let y = b.drop_first().take(n - 1);
        assert(a.take(n as int) =~= seq![a[0]] + x);
        assert(b.take(n as int) =~= seq![b[0]] + y);
    } else {
        assert(a.take(0) =~= b.take(0));
    }
}

/// Past what two byte strings have in common at their front they differ, or one has ended.
pub proof fn lemma_common_prefix_longest(a: Seq<u8>, b: Seq<u8>)
    ensures
        common_prefix(a, b) == a.len() || common_prefix(a, b) == b.len() || a[common_prefix(
            a,
            b,
        ) as int] != b[common_prefix(a, b) as int],
    decreases a.len(),
{
    let n = common_prefix(a, b);
    lemma_common_prefix(a, b);
    if n > 0 {
        let (x, y) = (a.drop_first(), b.drop_first());
        lemma_common_prefix_longest(x, y);
        lemma_common_prefix(x, y);
        if n < a.len() && n < b.len() {
            assert(x[n - 1] == a[n as int] && y[n - 1] == b[n as int]);
        }
    }
}

/// Counts the bytes that two byte strings have in common at their front.
pub fn shared_prefix_len(a: &[u8], b: &[u8]) -> (r: usize)
    ensures
        r == common_prefix(a@, b@),
{
    let mut i: usize = 0;
    assert(a@.skip(0) =~= a@);
    assert(b@.skip(0) =~= b@);
    while i < a.len() && i < b.len() && a[i] == b[i]
        invariant
            i <= a.len(),
            i <= b.len(),
            common_prefix(a@, b@) == i + common_prefix(a@.skip(i as int), b@.skip(i as int)),
        decreases a.len() - i,
    {
        assert(a@.skip(i as int).drop_first() =~= a@.skip(i + 1));
        assert(b@.skip(i as int).drop_first() =~= b@.skip(i + 1));
        i += 1;
    }
    i
}

} // verus!
