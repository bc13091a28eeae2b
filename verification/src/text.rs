//! Decimal and hexadecimal text rendering used by the byte and event formatters.

use vstd::prelude::*;
use vstd::string::*;

verus! {

/// The character of a decimal or hexadecimal digit value (uppercase letters for 10..15).
pub open spec fn digit_char(d: nat) -> char {
    if d < 10 {
        (48 + d) as char
    } else {
        (55 + d) as char
    }
}

/// Decimal rendering of a natural number, most significant digit first, no leading zeros.
pub open spec fn decimal(n: nat) -> Seq<char>
    decreases n,
{
    if n < 10 {
        seq![digit_char(n)]
    } else {
        decimal(n / 10).push(digit_char(n % 10))
    }
}

/// Decimal rendering of an integer with a leading minus sign when it is negative.
pub open spec fn signed_decimal(n: int) -> Seq<char> {
    if n < 0 {
        seq!['-'] + decimal((-n) as nat)
    } else {
        decimal(n as nat)
    }
}

/// Two uppercase hexadecimal digits of a byte.
pub open spec fn hex2(b: u8) -> Seq<char> {
    seq![digit_char((b / 16) as nat), digit_char((b % 16) as nat)]
}

/// Decimal rendering left-padded with zeros to at least `width` characters.
pub open spec fn zero_padded(n: nat, width: nat) -> Seq<char> {
    let d = decimal(n);
    if d.len() >= width {
        d
    } else {
        Seq::new((width - d.len()) as nat, |i: int| '0') + d
    }
}

/// `String::push`: appends one character to the string.
#[verifier::external_body]
pub(crate) fn push_char(s: &mut String, c: char)
    ensures
        final(s)@ == old(s)@.push(c),
{
    s.push(c)
}

/// The character of a digit value below 16.
pub fn digit(d: u8) -> (c: char)
    requires
        d < 16,
    ensures
        c == digit_char(d as nat),
{
    if d < 10 {
        (48u8 + d) as char
    } else {
        (55u8 + d) as char
    }
}

/// Appends the decimal rendering of `n`.
pub fn push_decimal(s: &mut String, n: u64)
    ensures
        final(s)@ == old(s)@ + decimal(n as nat),
    decreases n,
{
    if n >= 10 {
        push_decimal(s, n / 10);
    }
    let c = digit((n % 10) as u8);
    push_char(s, c);
    proof {
        if n < 10 {
            assert(old(s)@ + decimal(n as nat) =~= old(s)@.push(c));
        } else {
            assert(decimal(n as nat) == decimal((n / 10) as nat).push(digit_char((n % 10) as nat)));
            assert((old(s)@ + decimal((n / 10) as nat)).push(c) =~= old(s)@ + decimal(n as nat));
        }
    }
}

/// Appends the decimal rendering of `n`, with a leading minus sign when negative.
pub fn push_signed_decimal(s: &mut String, n: i64)
    requires
        n > i64::MIN,
    ensures
        final(s)@ == old(s)@ + signed_decimal(n as int),
{
    if n < 0 {
        push_char(s, '-');
        let m = (-n) as u64;
        push_decimal(s, m);
        assert(old(s)@ + signed_decimal(n as int) =~= old(s)@.push('-') + decimal(m as nat));
    } else {
        push_decimal(s, n as u64);
    }
}

/// Appends the two-digit uppercase hexadecimal rendering of `b`.
pub fn push_hex2(s: &mut String, b: u8)
    ensures
        final(s)@ == old(s)@ + hex2(b),
{
    let hi = digit(b / 16);
    let lo = digit(b % 16);
    push_char(s, hi);
    push_char(s, lo);
    assert(old(s)@.push(hi).push(lo) =~= old(s)@ + hex2(b));
}

/// Appends the decimal rendering of `n` padded with zeros to at least two digits.
pub fn push_padded2(s: &mut String, n: u8)
    ensures
        final(s)@ == old(s)@ + zero_padded(n as nat, 2),
{
    if n < 10 {
        push_char(s, '0');
        push_decimal(s, n as u64);
        assert(decimal(n as nat).len() == 1);
        assert(old(s)@.push('0') + decimal(n as nat) =~= old(s)@ + zero_padded(n as nat, 2));
    } else {
        push_decimal(s, n as u64);
        proof { lemma_decimal_len_at_least_2(n as nat); }
    }
}

proof fn lemma_decimal_len_at_least_2(n: nat)
    requires
        n >= 10,
    ensures
        decimal(n).len() >= 2,
{
    assert(decimal(n) == decimal(n / 10).push(digit_char(n % 10)));
}

/// Appends a string slice.
pub fn push_str(s: &mut String, t: &str)
    ensures
        final(s)@ == old(s)@ + t@,
{
    s.append(t);
}

} // verus!
