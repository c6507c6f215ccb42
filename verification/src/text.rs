//! Text: numbers written in decimal and hexadecimal, and read back.

use vstd::prelude::*;

verus! {

/// `String::push` appends one character.
pub assume_specification[ String::push ](s: &mut String, c: char)
    ensures
        final(s)@ == old(s)@.push(c),
;

/// `String::push_str` appends a string.
pub assume_specification[ String::push_str ](s: &mut String, t: &str)
    ensures
        final(s)@ == old(s)@ + t@,
;

/// The text that stands for bytes where what is not UTF-8 is replaced.
pub uninterp spec fn lossy_text(bytes: Seq<u8>) -> Seq<char>;

/// A string between quotes, with escapes.
pub uninterp spec fn quoted_text(text: Seq<char>) -> Seq<char>;

/// `String::from_utf8_lossy`. What it replaces is not stated: the result has a name.
#[verifier::external_body]
pub(crate) fn lossy(bytes: &[u8]) -> (r: String)
    ensures
        r@ == lossy_text(bytes@),
{
    String::from_utf8_lossy(bytes).into_owned()
}

/// The `Debug` form of a string. Which characters it escapes is not stated: the result has a
/// name.
#[verifier::external_body]
pub(crate) fn quoted(text: &str) -> (r: String)
    ensures
        r@ == quoted_text(text@),
{
    format!("{:?}", text)
}

/// The character of a digit below sixteen.
pub open spec fn digit(d: nat) -> char {
    if d == 0 {
        '0'
    } else if d == 1 {
        '1'
    } else if d == 2 {
        '2'
    } else if d == 3 {
        '3'
    } else if d == 4 {
        '4'
    } else if d == 5 {
        '5'
    } else if d == 6 {
        '6'
    } else if d == 7 {
        '7'
    } else if d == 8 {
        '8'
    } else if d == 9 {
        '9'
    } else if d == 10 {
        'A'
    } else if d == 11 {
        'B'
    } else if d == 12 {
        'C'
    } else if d == 13 {
        'D'
    } else if d == 14 {
        'E'
    } else {
        'F'
    }
}

fn digit_char(d: u64) -> (c: char)
    requires
        d < 16,
    ensures
        c == digit(d as nat),
{
    match d {
        0 => '0',
        1 => '1',
        2 => '2',
        3 => '3',
        4 => '4',
        5 => '5',
        6 => '6',
        7 => '7',
        8 => '8',
        9 => '9',
        10 => 'A',
        11 => 'B',
        12 => 'C',
        13 => 'D',
        14 => 'E',
        _ => 'F',
    }
}

/// A number in decimal.
pub open spec fn decimal(n: nat) -> Seq<char>
    decreases n,
{
    if n < 10 {
        seq![digit(n)]
    } else {
        decimal(n / 10).push(digit(n % 10))
    }
}

/// `n` zeros.
pub open spec fn zeros(n: nat) -> Seq<char> {
    Seq::new(n, |i: int| '0')
}

/// A number in decimal, with zeros before it up to a width.
pub open spec fn padded_decimal(n: nat, width: nat) -> Seq<char> {
    if decimal(n).len() < width {
        zeros((width - decimal(n).len()) as nat) + decimal(n)
    } else {
        decimal(n)
    }
}

/// The low `width` hexadecimal digits of a number.
pub open spec fn hex(n: nat, width: nat) -> Seq<char>
    decreases width,
{
    if width == 0 {
        Seq::<char>::empty()
    } else {
        hex(n / 16, (width - 1) as nat).push(digit(n % 16))
    }
}

pub proof fn lemma_hex_len(n: nat, width: nat)
    ensures
        hex(n, width).len() == width,
    decreases width,
{
    if width > 0 {
        lemma_hex_len(n / 16, (width - 1) as nat);
    }
}

/// Appends a number in decimal.
pub fn push_decimal(s: &mut String, n: u64)
    ensures
        final(s)@ == old(s)@ + decimal(n as nat),
    decreases n,
{
    let ghost before = s@;
    if n >= 10 {
        push_decimal(s, n / 10);
        s.push(digit_char(n % 10));
        assert(s@ =~= before + decimal(n as nat));
    } else {
        s.push(digit_char(n));
        assert(s@ =~= before + decimal(n as nat));
    }
}

/// Appends a count in decimal.
pub fn push_count(s: &mut String, n: usize)
    ensures
        final(s)@ == old(s)@ + decimal(n as nat),
{
    push_decimal(s, n as u64)
}

fn decimal_len(n: u64) -> (r: usize)
    ensures
        r == decimal(n as nat).len(),
        1 <= r <= 20,
{
    let mut rest: u64 = n;
    let mut r: usize = 1;
    proof {
        lemma_decimal_len(n as nat, 20);
    }
    while rest >= 10
        invariant
            decimal(n as nat).len() == decimal(rest as nat).len() + r - 1,
            1 <= r <= 20,
            decimal(n as nat).len() <= 20,
            decimal(rest as nat).len() >= 1,
        decreases rest,
    {
        proof {
            lemma_decimal_len((rest / 10) as nat, 20);
        }
        rest = rest / 10;
        r += 1;
    }
    r
}

spec fn pow10(n: nat) -> nat
    decreases n,
{
    if n == 0 {
        1
    } else {
        10 * pow10((n - 1) as nat)
    }
}

proof fn lemma_decimal_bound(n: nat, width: nat)
    requires
        n < pow10(width),
        width > 0,
    ensures
        1 <= decimal(n).len() <= width,
    decreases width,
{
    if n >= 10 {
        assert(width > 1) by {
            assert(pow10(1) == 10 * pow10(0));
        }
        lemma_decimal_bound(n / 10, (width - 1) as nat);
    }
}

proof fn lemma_decimal_len(n: nat, width: nat)
    requires
        n <= u64::MAX,
        width == 20,
    ensures
        1 <= decimal(n).len() <= width,
{
    reveal_with_fuel(pow10, 21);
    lemma_decimal_bound(n, width);
}

/// Appends a number in decimal, with zeros before it up to a width.
pub fn push_padded(s: &mut String, n: u64, width: usize)
    ensures
        final(s)@ == old(s)@ + padded_decimal(n as nat, width as nat),
{
    let ghost before = s@;
    let len = decimal_len(n);
    let mut i: usize = len;
    assert(s@ =~= before + zeros(0));
    while i < width
        invariant
            len <= i,
            len >= width ==> i == len,
            len < width ==> i <= width,
            s@ == before + zeros((i - len) as nat),
        decreases width - i,
    {
        s.push('0');
        i += 1;
        assert(s@ =~= before + zeros((i - len) as nat));
    }
    push_decimal(s, n);
    assert(s@ =~= before + padded_decimal(n as nat, width as nat));
}

/// Appends a number as sixteen hexadecimal digits.
pub fn push_hex16(s: &mut String, n: u64)
    ensures
        final(s)@ == old(s)@ + hex(n as nat, 16),
{
    push_hex(s, n, 16)
}

fn push_hex(s: &mut String, n: u64, width: usize)
    ensures
        final(s)@ == old(s)@ + hex(n as nat, width as nat),
    decreases width,
{
    let ghost before = s@;
    if width > 0 {
        push_hex(s, n / 16, width - 1);
        s.push(digit_char(n % 16));
    }
    assert(s@ =~= before + hex(n as nat, width as nat));
}

/// Copies a string.
pub fn text_of(t: &str) -> (r: String)
    ensures
        r@ == t@,
{
    let mut r = String::new();
    r.push_str(t);
    assert(r@ =~= t@);
    r
}

/// Tells whether every character is a decimal digit.
pub open spec fn all_digits(s: Seq<char>) -> bool {
    forall|i: int| 0 <= i < s.len() ==> '0' <= #[trigger] s[i] && s[i] <= '9'
}

/// The number that decimal digits denote.
pub open spec fn decimal_value(s: Seq<char>) -> nat
    decreases s.len(),
{
    if s.len() == 0 {
        0
    } else {
        10 * decimal_value(s.drop_last()) + (s.last() as nat - '0' as nat) as nat
    }
}

/// The digits of a number's text: all of it, or what follows a leading plus sign.
pub open spec fn digits_of(s: Seq<char>) -> Seq<char> {
    if s.len() > 0 && s[0] == '+' {
        s.skip(1)
    } else {
        s
    }
}

/// What reading a 64-bit number gives.
pub open spec fn parse_u64_spec(s: Seq<char>) -> Option<u64> {
    let d = digits_of(s);
    if d.len() > 0 && all_digits(d) && decimal_value(d) <= u64::MAX {
        Some(decimal_value(d) as u64)
    } else {
        None
    }
}

fn char_digit(c: char) -> (r: Option<u64>)
    ensures
        match r {
            Some(d) => '0' <= c && c <= '9' && d == c as nat - '0' as nat,
            None => !('0' <= c && c <= '9'),
        },
{
    match c {
        '0' => Some(0),
        '1' => Some(1),
        '2' => Some(2),
        '3' => Some(3),
        '4' => Some(4),
        '5' => Some(5),
        '6' => Some(6),
        '7' => Some(7),
        '8' => Some(8),
        '9' => Some(9),
        _ => None,
    }
}

/// Digits in front of others only make the number larger.
proof fn lemma_decimal_value_grows(s: Seq<char>, i: int)
    requires
        0 <= i <= s.len(),
    ensures
        decimal_value(s.take(i)) <= decimal_value(s),
    decreases s.len() - i,
{
    if i < s.len() {
        lemma_decimal_value_grows(s, i + 1);
        assert(s.take(i + 1).drop_last() =~= s.take(i));
    } else {
        assert(s.take(i) =~= s);
    }
}

/// Reads a 64-bit number from characters: decimal digits, with an optional plus sign first.
pub fn parse_u64(s: &Vec<char>) -> (r: Option<u64>)
    ensures
        r == parse_u64_spec(s@),
{
    let start: usize = if s.len() > 0 && s[0] == '+' {
        1
    } else {
        0
    };
    let ghost d = digits_of(s@);
    assert(d =~= s@.skip(start as int));
    if start == s.len() {
        return None;
    }
    let mut value: u64 = 0;
    let mut i: usize = start;
    assert(d.take(0) =~= Seq::<char>::empty());
    while i < s.len()
        invariant
            start <= i <= s.len(),
            d == digits_of(s@),
            d == s@.skip(start as int),
            d.len() > 0,
            value == decimal_value(d.take(i - start)),
            forall|k: int| 0 <= k < i - start ==> '0' <= #[trigger] d[k] && d[k] <= '9',
        decreases s.len() - i,
    {
        let ghost k = i - start;
        assert(d.take(k + 1).drop_last() =~= d.take(k));
        assert(d[k] == s@[i as int]);
        match char_digit(s[i]) {
            None => {
                return None;
            },
            Some(v) => {
                proof {
                    lemma_decimal_value_grows(d, k + 1);
                }
                if value > 1_844_674_407_370_955_161 {
                    return None;
                }
                if 10 * value > u64::MAX - v {
                    return None;
                }
                value = 10 * value + v;
            },
        }
        i += 1;
    }
    assert(d.take(i - start) =~= d);
    Some(value)
}

proof fn lemma_digit_value(n: nat)
    requires
        n < 10,
    ensures
        '0' <= digit(n) && digit(n) <= '9',
        digit(n) as nat - '0' as nat == n,
{
}

pub proof fn lemma_decimal_digits(n: nat)
    ensures
        all_digits(decimal(n)),
        decimal(n).len() > 0,
        decimal_value(decimal(n)) == n,
    decreases n,
{
    if n < 10 {
        lemma_digit_value(n);
        assert(decimal(n).drop_last() =~= Seq::<char>::empty());
        assert(decimal_value(Seq::<char>::empty()) == 0);
    } else {
        lemma_decimal_digits(n / 10);
        lemma_digit_value(n % 10);
        assert(decimal(n).drop_last() =~= decimal(n / 10));
    }
}

proof fn lemma_zeros_value(k: nat, s: Seq<char>)
    ensures
        decimal_value(zeros(k) + s) == decimal_value(s),
    decreases s.len(),
{
    if s.len() == 0 {
        assert(zeros(k) + s =~= zeros(k));
        lemma_zeros_only(k);
    } else {
        assert((zeros(k) + s).drop_last() =~= zeros(k) + s.drop_last());
        lemma_zeros_value(k, s.drop_last());
    }
}

proof fn lemma_zeros_only(k: nat)
    ensures
        decimal_value(zeros(k)) == 0,
    decreases k,
{
    if k > 0 {
        assert(zeros(k).drop_last() =~= zeros((k - 1) as nat));
        lemma_zeros_only((k - 1) as nat);
    }
}

/// Reading a 64-bit number written with zeros before it gives the number back.
pub proof fn lemma_padded_round_trip(n: u64, width: nat)
    ensures
        parse_u64_spec(padded_decimal(n as nat, width)) == Some(n),
{
    let d = decimal(n as nat);
    let s = padded_decimal(n as nat, width);
    lemma_decimal_digits(n as nat);
    if d.len() < width {
        lemma_zeros_value((width - d.len()) as nat, d);
    }
    assert(all_digits(s));
    assert(s[0] != '+');
}

/// The characters of a string.
pub fn chars_of(t: &str) -> (r: Vec<char>)
    ensures
        r@ == t@,
{
    let n = t.unicode_len();
    let mut r: Vec<char> = Vec::new();
    let mut i: usize = 0;
    while i < n
        invariant
            n == t@.len(),
            i <= n,
            r@ == t@.take(i as int),
        decreases n - i,
    {
        r.push(t.get_char(i));
        i += 1;
        assert(r@ =~= t@.take(i as int));
    }
    assert(r@ =~= t@);
    r
}

/// The UTF-8 bytes of a string.
pub fn bytes_of(t: &str) -> (r: Vec<u8>)
    ensures
        r@ == vstd::utf8::encode_utf8(t@),
{
    crate::codec::copy_bytes(t.as_bytes())
}

} // verus!
