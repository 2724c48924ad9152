//! Numbers as text: digits in a base, decimal and hexadecimal spellings, and
//! the parsing rules of Rust's integer types.

use vstd::prelude::*;
use vstd::string::*;

use crate::text::chars_of;

verus! {

/// The value of one digit, or nothing where the character is no digit in the
/// base. Letters count in either case.
pub open spec fn digit(c: char, base: nat) -> Option<nat> {
    let v: int = if '0' <= c <= '9' {
        c as int - '0' as int
    } else if 'a' <= c <= 'z' {
        c as int - 'a' as int + 10
    } else if 'A' <= c <= 'Z' {
        c as int - 'A' as int + 10
    } else {
        36
    };
    if v < base && v < 36 {
        Some(v as nat)
    } else {
        None
    }
}

/// Every character is a digit in the base.
pub open spec fn all_digits(s: Seq<char>, base: nat) -> bool {
    forall|i: int| 0 <= i < s.len() ==> digit(#[trigger] s[i], base) is Some
}

/// The number that a run of digits spells, most significant digit first.
pub open spec fn value(s: Seq<char>, base: nat) -> nat
    decreases s.len(),
{
    if s.len() == 0 {
        0
    } else {
        value(s.drop_last(), base) * base + digit(s.last(), base).unwrap_or(0)
    }
}

/// The character for a digit value, letters in lower case.
pub open spec fn digit_char(d: nat) -> char {
    if d < 10 {
        ('0' as int + d) as char
    } else {
        ('a' as int + (d - 10)) as char
    }
}

/// The shortest spelling of a number in a base.
pub open spec fn digits(n: nat, base: nat) -> Seq<char>
    decreases n,
{
    if n < base || base < 2 {
        seq![digit_char(n)]
    } else {
        proof {
            assert(n / base < n) by (nonlinear_arith)
                requires
                    n >= base >= 2,
            ;
        }
        digits(n / base, base).push(digit_char(n % base))
    }
}

/// A natural number in decimal.
pub open spec fn dec(n: nat) -> Seq<char> {
    digits(n, 10)
}

/// An integer in decimal, with a sign where it is negative.
pub open spec fn int_text(i: int) -> Seq<char> {
    if i < 0 {
        seq!['-'] + dec((-i) as nat)
    } else {
        dec(i as nat)
    }
}

/// A byte as two hexadecimal digits.
pub open spec fn hex2(b: u8) -> Seq<char> {
    seq![digit_char((b / 16) as nat), digit_char((b % 16) as nat)]
}

/// A text filled up on the left with zeros to a width; a sign stays in front
/// of the zeros and counts.
pub open spec fn zero_padded(i: int, width: nat) -> Seq<char> {
    let sign = if i < 0 {
        seq!['-']
    } else {
        Seq::<char>::empty()
    };
    let body = if i < 0 {
        dec((-i) as nat)
    } else {
        dec(i as nat)
    };
    let have = sign.len() + body.len();
    let fill: nat = if have < width {
        (width - have) as nat
    } else {
        0
    };
    sign + Seq::new(fill, |k: int| '0') + body
}

/// The number a text spells under the rules of an unsigned integer type: an
/// optional plus sign, then at least one digit, and no more than `max`.
pub open spec fn unsigned_text(s: Seq<char>, base: nat, max: nat) -> Option<nat> {
    let body = if s.len() > 0 && s[0] == '+' {
        s.skip(1)
    } else {
        s
    };
    if body.len() > 0 && all_digits(body, base) && value(body, base) <= max {
        Some(value(body, base))
    } else {
        None
    }
}

/// The number a text spells under the rules of `i64`.
pub open spec fn i64_text(s: Seq<char>) -> Option<int> {
    let neg = s.len() > 0 && s[0] == '-';
    let body = if s.len() > 0 && (s[0] == '+' || s[0] == '-') {
        s.skip(1)
    } else {
        s
    };
    if body.len() > 0 && all_digits(body, 10) {
        let v = value(body, 10);
        if neg && v <= 0x8000_0000_0000_0000 {
            Some(-(v as int))
        } else if !neg && v <= i64::MAX {
            Some(v as int)
        } else {
            None
        }
    } else {
        None
    }
}

/// A digit value written and read back is the same value.
pub proof fn lemma_digit_char(d: nat, base: nat)
    requires
        d < base <= 36,
    ensures
        digit(digit_char(d), base) == Some(d),
{
}

/// A number written in a base and read back is the same number.
pub proof fn lemma_value_digits(n: nat, base: nat)
    requires
        2 <= base <= 36,
    ensures
        digits(n, base).len() > 0,
        all_digits(digits(n, base), base),
        value(digits(n, base), base) == n,
    decreases n,
{
    let s = digits(n, base);
    if n < base {
        lemma_digit_char(n, base);
        assert(s.drop_last() == Seq::<char>::empty());
        let none = value(s.drop_last(), base);
        assert(none * base == 0) by (nonlinear_arith)
            requires
                none == 0,
        ;
    } else {
        assert(n / base < n && n / base * base + n % base == n && n % base < base)
            by (nonlinear_arith)
            requires
                n >= base >= 2,
        ;
        lemma_value_digits(n / base, base);
        lemma_digit_char(n % base, base);
        assert(s.drop_last() == digits(n / base, base));
        assert forall|i: int| 0 <= i < s.len() implies digit(#[trigger] s[i], base) is Some by {
            if i < s.len() - 1 {
                assert(s[i] == s.drop_last()[i]);
            }
        }
    }
}

/// No number but zero is written with a leading zero.
pub proof fn lemma_no_leading_zero(n: nat, base: nat)
    requires
        2 <= base <= 36,
    ensures
        digits(n, base).len() > 0,
        digits(n, base)[0] == '0' ==> n == 0,
    decreases n,
{
    if n >= base {
        assert(0 < n / base < n) by (nonlinear_arith)
            requires
                n >= base >= 2,
        ;
        lemma_no_leading_zero(n / base, base);
    }
}

/// Decimal digits without a leading zero are how their number is written.
pub proof fn lemma_digits_value(s: Seq<char>, base: nat)
    requires
        base == 10,
        s.len() > 0,
        all_digits(s, base),
        s[0] != '0' || s.len() == 1,
    ensures
        digits(value(s, base), base) == s,
    decreases s.len(),
{
    let d = digit(s.last(), base).unwrap_or(0);
    assert(digit(s.last(), base) is Some);
    assert(digit_char(d) == s.last());
    let rest = s.drop_last();
    if s.len() == 1 {
        assert(value(rest, base) == 0);
        assert(digits(d, base) == s);
    } else {
        assert forall|i: int| 0 <= i < rest.len() implies digit(#[trigger] rest[i], base) is Some by {
            assert(rest[i] == s[i]);
        }
        lemma_digits_value(rest, base);
        let v = value(rest, base);
        if v == 0 {
            assert(digits(0, base)[0] == '0');
        }
        assert((v * 10 + d) / 10 == v && (v * 10 + d) % 10 == d);
        assert(digits(v * 10 + d, base) == rest.push(digit_char(d)));
    }
}

/// A number written in decimal is read back under the rules of every unsigned
/// type that holds it.
pub proof fn law_unsigned_roundtrip(n: nat, max: nat)
    requires
        n <= max,
    ensures
        unsigned_text(dec(n), 10, max) == Some(n),
{
    lemma_value_digits(n, 10);
    assert(digit(dec(n)[0], 10) is Some);
}

/// An integer written in decimal is read back under the rules of `i64`.
pub proof fn law_i64_roundtrip(i: i64)
    ensures
        i64_text(int_text(i as int)) == Some(i as int),
{
    if i < 0 {
        lemma_value_digits((-i) as nat, 10);
        assert(int_text(i as int).skip(1) == dec((-i) as nat));
    } else {
        lemma_value_digits(i as nat, 10);
        assert(digit(dec(i as nat)[0], 10) is Some);
    }
}

/// A longer run of digits never spells a smaller number.
proof fn lemma_value_grows(s: Seq<char>, i: int, base: nat)
    requires
        0 <= i <= s.len(),
        base >= 1,
    ensures
        value(s.take(i), base) <= value(s, base),
    decreases s.len(),
{
    if i == s.len() {
        assert(s.take(i) == s);
    } else {
        lemma_value_grows(s.drop_last(), i, base);
        assert(s.drop_last().take(i) == s.take(i));
        let v = value(s.drop_last(), base);
        assert(v <= v * base) by (nonlinear_arith)
            requires
                base >= 1,
        ;
    }
}

/// The value of one digit.
pub fn digit_value(c: char, base: u32) -> (r: Option<u32>)
    requires
        base <= 36,
    ensures
        match r {
            Some(d) => digit(c, base as nat) == Some(d as nat),
            None => digit(c, base as nat) is None,
        },
{
    let v: u32 = if '0' <= c && c <= '9' {
        c as u32 - '0' as u32
    } else if 'a' <= c && c <= 'z' {
        c as u32 - 'a' as u32 + 10
    } else if 'A' <= c && c <= 'Z' {
        c as u32 - 'A' as u32 + 10
    } else {
        36
    };
    if v < base && v < 36 {
        Some(v)
    } else {
        None
    }
}

/// Read the digits of `v` from position `from` on.
pub fn parse_digits(v: &Vec<char>, from: usize, base: u32, max: u64) -> (r: Option<u64>)
    requires
        from <= v.len(),
        2 <= base <= 36,
    ensures
        ({
            let body = v@.skip(from as int);
            match r {
                Some(n) => body.len() > 0 && all_digits(body, base as nat) && value(
                    body,
                    base as nat,
                ) == n && n <= max,
                None => !(body.len() > 0 && all_digits(body, base as nat) && value(
                    body,
                    base as nat,
                ) <= max),
            }
        }),
{
    let ghost body = v@.skip(from as int);
    if from == v.len() {
        return None;
    }
    let mut n: u64 = 0;
    let mut i: usize = from;
    while i < v.len()
        invariant
            from <= i <= v.len(),
            body == v@.skip(from as int),
            2 <= base <= 36,
            n <= max,
            n == value(body.take(i - from), base as nat),
            forall|k: int|
                0 <= k < i - from ==> digit(#[trigger] body[k], base as nat) is Some,
        decreases v.len() - i,
    {
        assert(body[i - from] == v@[i as int]);
        match digit_value(v[i], base) {
            None => {
                return None;
            },
            Some(d) => {
                assert(n as int * base as int <= 0xffff_ffff_ffff_ffff * 36) by (nonlinear_arith)
                    requires
                        n <= 0xffff_ffff_ffff_ffff,
                        base <= 36,
                ;
                let next: u128 = n as u128 * base as u128 + d as u128;
                assert(body.take(i - from + 1).drop_last() == body.take(i - from));
                assert(next == value(body.take(i - from + 1), base as nat));
                if next > max as u128 {
                    proof {
                        lemma_value_grows(body, i - from + 1, base as nat);
                    }
                    return None;
                }
                n = next as u64;
            },
        }
        i = i + 1;
    }
    assert(body.take(v.len() - from) == body);
    Some(n)
}

/// Read an unsigned integer: an optional plus sign and at least one digit.
pub fn parse_unsigned(s: &str, base: u32, max: u64) -> (r: Option<u64>)
    requires
        2 <= base <= 36,
    ensures
        match r {
            Some(n) => unsigned_text(s@, base as nat, max as nat) == Some(n as nat),
            None => unsigned_text(s@, base as nat, max as nat) is None,
        },
{
    let v = chars_of(s);
    assert(v@.skip(0) == v@);
    if v.len() > 0 && v[0] == '+' {
        parse_digits(&v, 1, base, max)
    } else {
        parse_digits(&v, 0, base, max)
    }
}

/// Read a `u32` in decimal.
pub fn parse_u32(s: &str) -> (r: Option<u32>)
    ensures
        match r {
            Some(n) => unsigned_text(s@, 10, u32::MAX as nat) == Some(n as nat),
            None => unsigned_text(s@, 10, u32::MAX as nat) is None,
        },
{
    match parse_unsigned(s, 10, u32::MAX as u64) {
        Some(n) => Some(n as u32),
        None => None,
    }
}

/// Read an `i64` in decimal.
pub fn parse_i64(s: &str) -> (r: Option<i64>)
    ensures
        match r {
            Some(n) => i64_text(s@) == Some(n as int),
            None => i64_text(s@) is None,
        },
{
    let v = chars_of(s);
    assert(v@.skip(0) == v@);
    if v.len() > 0 && v[0] == '-' {
        match parse_digits(&v, 1, 10, 0x8000_0000_0000_0000) {
            Some(n) => {
                if n == 0x8000_0000_0000_0000 {
                    Some(i64::MIN)
                } else {
                    Some(-(n as i64))
                }
            },
            None => None,
        }
    } else {
        let from: usize = if v.len() > 0 && v[0] == '+' {
            1
        } else {
            0
        };
        match parse_digits(&v, from, 10, i64::MAX as u64) {
            Some(n) => Some(n as i64),
            None => None,
        }
    }
}

/// The character for a digit value.
pub fn char_of_digit(d: u8) -> (r: char)
    requires
        d < 36,
    ensures
        r == digit_char(d as nat),
{
    if d < 10 {
        (48 + d) as char
    } else {
        (97 + (d - 10)) as char
    }
}

/// Append the spelling of a number in a base.
pub fn push_digits(out: &mut String, n: u64, base: u64)
    requires
        2 <= base <= 36,
    ensures
        final(out)@ == old(out)@ + digits(n as nat, base as nat),
    decreases n,
{
    if n < base {
        out.push(char_of_digit(n as u8));
        assert(digits(n as nat, base as nat) == seq![digit_char(n as nat)]);
    } else {
        assert(n / base < n && n % base < base) by (nonlinear_arith)
            requires
                n >= base >= 2,
        ;
        push_digits(out, n / base, base);
        out.push(char_of_digit((n % base) as u8));
        assert(digits(n as nat, base as nat) == digits((n / base) as nat, base as nat).push(
            digit_char((n % base) as nat),
        ));
    }
}

/// Append a number in decimal.
pub fn push_dec(out: &mut String, n: u64)
    ensures
        final(out)@ == old(out)@ + dec(n as nat),
{
    push_digits(out, n, 10);
}

/// A number in decimal.
pub fn dec_string(n: u64) -> (r: String)
    ensures
        r@ == dec(n as nat),
{
    let mut out = String::new();
    push_dec(&mut out, n);
    out
}

/// An integer in decimal.
pub fn int_string(i: i64) -> (r: String)
    ensures
        r@ == int_text(i as int),
{
    let mut out = String::new();
    if i < 0 {
        out.push('-');
        push_dec(&mut out, magnitude(i));
    } else {
        push_dec(&mut out, i as u64);
    }
    out
}

/// The distance of an integer from zero.
fn magnitude(i: i64) -> (r: u64)
    ensures
        r == (if i < 0 {
            -(i as int)
        } else {
            i as int
        }),
{
    if i < 0 {
        (-(i + 1)) as u64 + 1
    } else {
        i as u64
    }
}

/// Append an integer in decimal, filled up with zeros to a width.
pub fn push_zero_padded(out: &mut String, i: i64, width: usize)
    ensures
        final(out)@ == old(out)@ + zero_padded(i as int, width as nat),
{
    let ghost start = out@;
    let mut body = String::new();
    push_dec(&mut body, magnitude(i));
    let ghost sign = if i < 0 {
        seq!['-']
    } else {
        Seq::<char>::empty()
    };
    if i < 0 {
        out.push('-');
    }
    assert(out@ == start + sign);
    let n: usize = chars_of(body.as_str()).len();
    let room: usize = if i < 0 {
        if width > 0 {
            width - 1
        } else {
            0
        }
    } else {
        width
    };
    let ghost front = out@;
    let mut have: usize = n;
    while have < room
        invariant
            n <= have,
            n < room ==> have <= room,
            n >= room ==> have == n,
            out@ == front + Seq::new((have - n) as nat, |k: int| '0'),
        decreases room - have,
    {
        out.push('0');
        have = have + 1;
    }
    out.append(body.as_str());
    assert(out@ == start + zero_padded(i as int, width as nat));
}

/// Append a byte as two hexadecimal digits.
pub fn push_hex2(out: &mut String, b: u8)
    ensures
        final(out)@ == old(out)@ + hex2(b),
{
    out.push(char_of_digit(b / 16));
    out.push(char_of_digit(b % 16));
}

} // verus!
