//! Building display text: numbers in decimal and hexadecimal, and joins.

use vstd::prelude::*;

verus! {

/// Appends one character to a string.
///
/// Trusted: calls `String::push` from std, which std documents as appending
/// the given char to the end of the string.
#[verifier::external_body]
pub(crate) fn string_push(s: &mut String, c: char)
    ensures
        final(s)@ == old(s)@.push(c),
{
    s.push(c);
}

/// The character of a digit below 16, lower-case letters past 9.
pub open spec fn digit_char(d: int) -> char {
    if d < 10 {
        (d + 48) as char
    } else {
        (d - 10 + 97) as char
    }
}

/// The digits of `n` in base `b`, most significant first, without leading
/// zeros ("0" for zero).
pub open spec fn digits(n: nat, b: nat) -> Seq<char>
    recommends
        2 <= b <= 16,
    decreases n,
{
    if b < 2 || n < b {
        seq![digit_char(n as int)]
    } else {
        proof {
            assert(n / b < n) by (nonlinear_arith)
                requires
                    b >= 2,
                    n >= b,
            ;
        }
        digits(n / b, b).push(digit_char((n % b) as int))
    }
}

/// `n` in lower-case hexadecimal, padded with zeros to at least two digits.
pub open spec fn hex_padded2(n: nat) -> Seq<char> {
    if n < 16 {
        seq!['0', digit_char(n as int)]
    } else {
        digits(n, 16)
    }
}

fn digit_to_char(d: u64) -> (c: char)
    requires
        d < 16,
    ensures
        c == digit_char(d as int),
{
    if d < 10 {
        ((d as u8) + 48) as char
    } else {
        ((d as u8) - 10 + 97) as char
    }
}

/// Appends the digits of `n` in base `b` to a string.
pub fn push_digits(s: &mut String, n: u64, b: u64)
    requires
        2 <= b <= 16,
    ensures
        final(s)@ == old(s)@ + digits(n as nat, b as nat),
    decreases n,
{
    if n < b {
        string_push(s, digit_to_char(n));
    } else {
        assert(n / b < n) by (nonlinear_arith)
            requires
                b >= 2,
                n >= b,
        ;
        push_digits(s, n / b, b);
        string_push(s, digit_to_char(n % b));
    }
}

/// Appends `n` in lower-case hexadecimal, at least two digits wide.
pub fn push_hex_padded2(s: &mut String, n: u64)
    ensures
        final(s)@ == old(s)@ + hex_padded2(n as nat),
{
    if n < 16 {
        string_push(s, '0');
        string_push(s, digit_to_char(n));
        assert(final(s)@ =~= old(s)@ + hex_padded2(n as nat));
    } else {
        push_digits(s, n, 16);
    }
}

/// Appends `n` in decimal.
pub fn push_decimal(s: &mut String, n: u64)
    ensures
        final(s)@ == old(s)@ + digits(n as nat, 10),
{
    push_digits(s, n, 10);
}

} // verus!
