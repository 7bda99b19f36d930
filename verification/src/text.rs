//! Text: the operations on characters that rendering and parsing are made of,
//! each stated over the sequence of characters.

use vstd::prelude::*;
use vstd::std_specs::iter::IteratorSpec;
use vstd::utf8::encode_utf8;

verus! {

/// `String::push` appends one character.
pub assume_specification[ String::push ](s: &mut String, c: char)
    ensures
        final(s)@ == old(s)@.push(c),
;

/// The characters of `s`.
pub fn chars_of(s: &str) -> (r: Vec<char>)
    ensures
        r@ == s@,
{
    let mut r: Vec<char> = Vec::new();
    for c in it: s.chars()
        invariant
            r@ == s@.take(it.index() as int),
            it.index() <= s@.len(),
            it.seq() == s@,
    {
        r.push(c);
        assert(s@.take(it.index() as int + 1) =~= s@.take(it.index() as int).push(
            s@[it.index() as int],
        ));
    }
    assert(s@.take(s@.len() as int) =~= s@);
    r
}

/// The text made of `chars`.
pub fn text_of(chars: &[char]) -> (r: String)
    ensures
        r@ == chars@,
{
    let mut r = String::new();
    let mut i: usize = 0;
    while i < chars.len()
        invariant
            i <= chars@.len(),
            r@ == chars@.take(i as int),
        decreases chars@.len() - i,
    {
        r.push(chars[i]);
        i = i + 1;
        assert(chars@.take(i as int) =~= chars@.take(i - 1).push(chars@[i - 1]));
    }
    assert(chars@.take(i as int) =~= chars@);
    r
}

/// Whether two texts are the same.
pub fn same_text(a: &str, b: &str) -> (r: bool)
    ensures
        r == (a@ == b@),
{
    let x = a.as_bytes();
    let y = b.as_bytes();
    proof {
        vstd::utf8::encode_utf8_decode_utf8(a@);
        vstd::utf8::encode_utf8_decode_utf8(b@);
    }
    if x.len() != y.len() {
        return false;
    }
    let mut i: usize = 0;
    while i < x.len()
        invariant
            i <= x@.len(),
            x@.len() == y@.len(),
            x@ == encode_utf8(a@),
            y@ == encode_utf8(b@),
            x@.take(i as int) == y@.take(i as int),
        decreases x@.len() - i,
    {
        if x[i] != y[i] {
            return false;
        }
        assert(x@.take(i + 1) =~= x@.take(i as int).push(x@[i as int]));
        assert(y@.take(i + 1) =~= y@.take(i as int).push(y@[i as int]));
        i = i + 1;
    }
    assert(x@.take(i as int) =~= x@);
    assert(y@.take(i as int) =~= y@);
    true
}

// ---------------------------------------------------------------------------
// Numbers
// ---------------------------------------------------------------------------

/// The character of a decimal or hexadecimal digit.
pub open spec fn digit(d: int) -> char {
    if d < 10 {
        (d + 48) as char
    } else {
        (d + 87) as char
    }
}

pub fn digit_char(d: u8) -> (c: char)
    requires
        d < 16,
    ensures
        c == digit(d as int),
{
    if d < 10 {
        (d + 48) as char
    } else {
        (d + 87) as char
    }
}

/// A number in decimal digits.
pub open spec fn decimal(v: nat) -> Seq<char>
    decreases v,
{
    if v < 10 {
        seq![digit(v as int)]
    } else {
        decimal(v / 10).push(digit((v % 10) as int))
    }
}

/// A signed number in decimal digits.
pub open spec fn signed_decimal(v: int) -> Seq<char> {
    if v < 0 {
        seq!['-'] + decimal((-v) as nat)
    } else {
        decimal(v as nat)
    }
}

/// `n` times the character `c`.
pub open spec fn repeat(c: char, n: nat) -> Seq<char> {
    Seq::new(n, |i: int| c)
}

/// A number in decimal digits, with zeros before it up to `width` characters.
pub open spec fn padded(v: nat, width: nat) -> Seq<char> {
    let digits = decimal(v);
    if digits.len() < width {
        repeat('0', (width - digits.len()) as nat) + digits
    } else {
        digits
    }
}

fn reverse_digits(v: u64) -> (r: Vec<char>)
    ensures
        r@.reverse() == decimal(v as nat),
{
    let mut r: Vec<char> = Vec::new();
    let mut rest: u64 = v;
    assert(decimal(v as nat) =~= decimal(rest as nat) + r@.reverse());
    while rest >= 10
        invariant
            decimal(v as nat) == decimal(rest as nat) + r@.reverse(),
        decreases rest,
    {
        let ghost before = r@;
        let ghost was = rest;
        let d: u8 = (rest % 10) as u8;
        r.push(digit_char(d));
        rest = rest / 10;
        assert(r@.reverse() =~= seq![digit((was % 10) as int)] + before.reverse());
        assert(decimal(was as nat) + before.reverse() =~= decimal(rest as nat) + r@.reverse());
    }
    let ghost before = r@;
    r.push(digit_char(rest as u8));
    assert(r@.reverse() =~= seq![digit(rest as int)] + before.reverse());
    r
}

/// Appends `v` in decimal digits.
pub fn push_decimal(out: &mut String, v: u64)
    ensures
        final(out)@ == old(out)@ + decimal(v as nat),
{
    push_padded(out, v, 0);
}

/// Appends `v` in decimal digits, padded with zeros to `width` characters.
pub fn push_padded(out: &mut String, v: u64, width: usize)
    ensures
        final(out)@ == old(out)@ + padded(v as nat, width as nat),
{
    let digits = reverse_digits(v);
    let ghost start = out@;
    assert(digits@.len() == digits@.reverse().len());
    let mut n: usize = digits.len();
    while n < width
        invariant
            digits@.len() <= n,
            n <= width || n == digits@.len(),
            out@ == start + repeat('0', (n - digits@.len()) as nat),
        decreases width - n,
    {
        out.push('0');
        assert(out@ =~= start + repeat('0', (n + 1 - digits@.len()) as nat));
        n = n + 1;
    }
    assert(n == digits@.len() ==> out@ =~= start);
    let ghost mid = out@;
    let mut i: usize = digits.len();
    while i > 0
        invariant
            i <= digits@.len(),
            out@ == mid + digits@.reverse().take(digits@.len() - i),
        decreases i,
    {
        i = i - 1;
        out.push(digits[i]);
        assert(digits@.reverse()[digits@.len() - i - 1] == digits@[i as int]);
        assert(digits@.reverse().take(digits@.len() - i) =~= digits@.reverse().take(
            digits@.len() - i - 1,
        ).push(digits@[i as int]));
        assert(out@ =~= mid + digits@.reverse().take(digits@.len() - i));
    }
    assert(digits@.reverse().take(digits@.len() as int) =~= digits@.reverse());
    assert(out@ =~= start + padded(v as nat, width as nat));
}

/// The size of a signed number.
pub fn magnitude(v: i64) -> (r: u64)
    ensures
        r == if v < 0 {
            -v
        } else {
            v as int
        },
{
    if v < 0 {
        ((-(v + 1)) as u64) + 1
    } else {
        v as u64
    }
}

/// Appends a signed number in decimal digits.
pub fn push_signed(out: &mut String, v: i64)
    ensures
        final(out)@ == old(out)@ + signed_decimal(v as int),
{
    if v < 0 {
        out.push('-');
    }
    push_decimal(out, magnitude(v));
    assert(out@ =~= old(out)@ + signed_decimal(v as int));
}

pub open spec fn is_digit(c: char) -> bool {
    '0' <= c <= '9'
}

pub open spec fn all_digits(s: Seq<char>) -> bool {
    forall|i: int| 0 <= i < s.len() ==> is_digit(#[trigger] s[i])
}

/// The number that decimal digits write.
pub open spec fn digits_value(s: Seq<char>) -> nat
    decreases s.len(),
{
    if s.len() == 0 {
        0
    } else {
        (10 * digits_value(s.drop_last()) + (s.last() as u32 - 48)) as nat
    }
}

/// The digits of `s`, behind a plus sign where one leads.
pub open spec fn unsigned_digits(s: Seq<char>) -> Seq<char> {
    if s.len() > 0 && s[0] == '+' {
        s.skip(1)
    } else {
        s
    }
}

/// The number of at most `max` that `d` writes in decimal digits, one at
/// least.
pub open spec fn bounded_digits(d: Seq<char>, max: nat) -> Option<nat> {
    if d.len() > 0 && all_digits(d) && digits_value(d) <= max {
        Some(digits_value(d))
    } else {
        None
    }
}

/// What `s` says as an unsigned 64-bit number.
pub open spec fn unsigned_value(s: Seq<char>) -> Option<nat> {
    bounded_digits(unsigned_digits(s), u64::MAX as nat)
}

/// What `s` says as a signed 64-bit number.
pub open spec fn signed_value(s: Seq<char>) -> Option<int> {
    if s.len() > 0 && s[0] == '-' {
        match bounded_digits(s.skip(1), 0x8000_0000_0000_0000) {
            Some(v) => Some(-v),
            None => None,
        }
    } else {
        match bounded_digits(unsigned_digits(s), 0x7fff_ffff_ffff_ffff) {
            Some(v) => Some(v as int),
            None => None,
        }
    }
}

proof fn digits_value_monotone(s: Seq<char>, n: int)
    requires
        0 <= n <= s.len(),
        all_digits(s),
    ensures
        digits_value(s.take(n)) <= digits_value(s),
    decreases s.len() - n,
{
    if n < s.len() {
        assert(s.take(n + 1).drop_last() =~= s.take(n));
        digits_value_monotone(s, n + 1);
        assert(is_digit(s[n]));
    } else {
        assert(s.take(n) =~= s);
    }
}

fn parse_digits(chars: &[char], from: usize, max: u64) -> (r: Option<u64>)
    requires
        from <= chars@.len(),
    ensures
        match bounded_digits(chars@.skip(from as int), max as nat) {
            Some(v) => r == Some(v as u64),
            None => r is None,
        },
{
    let ghost d = chars@.skip(from as int);
    if from == chars.len() {
        return None;
    }
    let end: usize = chars.len();
    let mut v: u64 = 0;
    let mut i: usize = from;
    assert(d.take(0) =~= seq![]);
    while i < end
        invariant
            from <= i <= end == chars@.len(),
            d == chars@.skip(from as int),
            all_digits(d.take(i - from)),
            v == digits_value(d.take(i - from)),
            v <= max,
        decreases end - i,
    {
        let c: char = chars[i];
        let ghost k = i - from;
        assert(d[k] == c);
        assert(d.take(k + 1).drop_last() =~= d.take(k));
        assert(d.take(k + 1).last() == c);
        if c < '0' || c > '9' {
            return None;
        }
        let x: u64 = (c as u32 - 48) as u64;
        proof {
            if all_digits(d) {
                digits_value_monotone(d, k + 1);
            }
        }
        if x > max || v > (max / 10) || v * 10 > max - x {
            return None;
        }
        v = v * 10 + x;
        assert(all_digits(d.take(k + 1))) by {
            assert forall|j: int| 0 <= j < k + 1 implies is_digit(#[trigger] d.take(k + 1)[j]) by {
                if j < k {
                    assert(d.take(k)[j] == d[j]);
                }
            }
        }
        i = i + 1;
    }
    assert(d.take(i - from) =~= d);
    Some(v)
}

/// The unsigned number that `s` says.
pub fn parse_u64(s: &str) -> (r: Option<u64>)
    ensures
        match unsigned_value(s@) {
            Some(v) => r == Some(v as u64),
            None => r is None,
        },
{
    let chars = chars_of(s);
    assert(s@.skip(0) =~= s@);
    if chars.len() > 0 && chars[0] == '+' {
        parse_digits(chars.as_slice(), 1, 0xffff_ffff_ffff_ffff)
    } else {
        parse_digits(chars.as_slice(), 0, 0xffff_ffff_ffff_ffff)
    }
}

/// The signed number that `s` says.
pub fn parse_i64(s: &str) -> (r: Option<i64>)
    ensures
        match signed_value(s@) {
            Some(v) => r == Some(v as i64),
            None => r is None,
        },
{
    let chars = chars_of(s);
    assert(s@.skip(0) =~= s@);
    if chars.len() > 0 && chars[0] == '-' {
        match parse_digits(chars.as_slice(), 1, 0x8000_0000_0000_0000) {
            Some(v) => if v == 0x8000_0000_0000_0000 {
                Some(-0x8000_0000_0000_0000)
            } else {
                Some(-(v as i64))
            },
            None => None,
        }
    } else {
        let from: usize = if chars.len() > 0 && chars[0] == '+' {
            1
        } else {
            0
        };
        match parse_digits(chars.as_slice(), from, 0x7fff_ffff_ffff_ffff) {
            Some(v) => Some(v as i64),
            None => None,
        }
    }
}

proof fn digit_is_digit(d: int)
    requires
        0 <= d < 10,
    ensures
        is_digit(digit(d)),
        digit(d) as u32 - 48 == d,
{
}

proof fn decimal_reads_back(v: nat)
    ensures
        all_digits(decimal(v)),
        decimal(v).len() >= 1,
        digits_value(decimal(v)) == v,
    decreases v,
{
    digit_is_digit((v % 10) as int);
    reveal_with_fuel(digits_value, 2);
    if v >= 10 {
        decimal_reads_back(v / 10);
        assert(decimal(v).drop_last() =~= decimal(v / 10));
    }
}

proof fn leading_zeros(n: nat, d: Seq<char>)
    requires
        all_digits(d),
    ensures
        all_digits(repeat('0', n) + d),
        digits_value(repeat('0', n) + d) == digits_value(d),
    decreases n + d.len(),
{
    let s = repeat('0', n) + d;
    if d.len() > 0 {
        assert(s.drop_last() =~= repeat('0', n) + d.drop_last());
        assert(all_digits(d.drop_last()));
        leading_zeros(n, d.drop_last());
        assert(s.last() == d.last());
        assert(is_digit(d.last()));
        assert forall|i: int| 0 <= i < s.len() implies is_digit(#[trigger] s[i]) by {
            if i >= n {
                assert(s[i] == d[i - n]);
            }
        }
    } else if n > 0 {
        assert(s.drop_last() =~= repeat('0', (n - 1) as nat) + d);
        leading_zeros((n - 1) as nat, d);
        assert(s.last() == '0');
    }
}

/// A padded number reads back as that number.
pub proof fn padded_reads_back(v: nat, width: nat)
    requires
        v <= u64::MAX,
    ensures
        unsigned_value(padded(v, width)) == Some(v),
{
    decimal_reads_back(v);
    let digits = decimal(v);
    let s = padded(v, width);
    if digits.len() < width {
        leading_zeros((width - digits.len()) as nat, digits);
    }
    assert(is_digit(s[0]));
}

/// A signed number that is written reads back as that number.
pub proof fn signed_decimal_reads_back(v: int)
    requires
        i64::MIN <= v <= i64::MAX,
    ensures
        signed_value(signed_decimal(v)) == Some(v),
{
    let s = signed_decimal(v);
    if v < 0 {
        decimal_reads_back((-v) as nat);
        assert(s.skip(1) =~= decimal((-v) as nat));
    } else {
        decimal_reads_back(v as nat);
        assert(is_digit(s[0]));
    }
}

} // verus!
