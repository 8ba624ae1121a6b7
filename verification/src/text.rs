//! Text rendering of addresses and symbol lines.

use vstd::prelude::*;

verus! {

/// The lowercase hexadecimal digit of `v` (`0 <= v < 16`).
pub open spec fn hex_digit(v: int) -> char {
    if v < 10 {
        (48 + v) as char
    } else {
        (87 + v) as char
    }
}

/// The last `n` lowercase hexadecimal digits of `a`, zero-padded (`{:0nx}`
/// for values below `16^n`).
pub open spec fn hex_fixed(a: int, n: nat) -> Seq<char>
    decreases n,
{
    if n == 0 {
        Seq::empty()
    } else {
        hex_fixed(a / 16, (n - 1) as nat).push(hex_digit(a % 16))
    }
}

/// The lowercase hexadecimal digits of `a` without leading zeros (`{:x}`).
pub open spec fn hex_lower(a: int) -> Seq<char>
    decreases a,
{
    if a < 16 {
        seq![hex_digit(a)]
    } else {
        hex_lower(a / 16).push(hex_digit(a % 16))
    }
}

/// `String::push`. Trusted: the character is appended.
#[verifier::external_body]
pub(crate) fn push_char(s: &mut String, c: char)
    ensures
        final(s)@ == old(s)@.push(c),
{
    s.push(c);
}

pub fn hex_digit_exec(v: u64) -> (c: char)
    requires
        v < 16,
    ensures
        c == hex_digit(v as int),
{
    if v < 10 {
        ((48 + v) as u8) as char
    } else {
        ((87 + v) as u8) as char
    }
}

/// Appends the last `n` lowercase hexadecimal digits of `a`, zero-padded.
pub fn push_hex_fixed(s: &mut String, a: u64, n: usize)
    ensures
        final(s)@ == old(s)@ + hex_fixed(a as int, n as nat),
    decreases n,
{
    if n == 0 {
        return;
    }
    push_hex_fixed(s, a / 16, n - 1);
    push_char(s, hex_digit_exec(a % 16));
}

/// Appends the lowercase hexadecimal digits of `a` without leading zeros.
pub fn push_hex_lower(s: &mut String, a: u64)
    ensures
        final(s)@ == old(s)@ + hex_lower(a as int),
    decreases a,
{
    if a >= 16 {
        push_hex_lower(s, a / 16);
    }
    push_char(s, hex_digit_exec(a % 16));
}

} // verus!
