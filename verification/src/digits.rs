//! Decimal digits and decimal rendering of machine integers.
//!
//! Timestamps and integrity messages both render numbers as zero-padded or
//! plain decimal text; the spec-level form of that text is defined here.

use vstd::prelude::*;
use vstd::string::StringExecFns;

verus! {

/// The character for one decimal digit value.
pub open spec fn digit_char(d: int) -> char {
    if d == 0 {
        '0'
    } else if d == 1 {
        '1'
    } else if d == 2 {
        '2'
    } else if d == 3 {
        '3'
    } else if d == 4 {
        '4'
    } else if d == 5 {
        '5'
    } else if d == 6 {
        '6'
    } else if d == 7 {
        '7'
    } else if d == 8 {
        '8'
    } else {
        '9'
    }
}

/// True for the characters '0' through '9'.
pub open spec fn is_digit(c: char) -> bool {
    48 <= c as u32 <= 57
}

/// The numeric value of a decimal digit character.
pub open spec fn digit_val(c: char) -> int {
    c as u32 - 48
}

pub proof fn lemma_digit_char_val(d: int)
    requires
        0 <= d <= 9,
    ensures
        is_digit(digit_char(d)),
        digit_val(digit_char(d)) == d,
{
}

pub proof fn lemma_digit_val_char(c: char)
    requires
        is_digit(c),
    ensures
        0 <= digit_val(c) <= 9,
        digit_char(digit_val(c)) == c,
{
    let u = c as u32;
    if u == 48 {
        assert(c == '0');
    } else if u == 49 {
        assert(c == '1');
    } else if u == 50 {
        assert(c == '2');
    } else if u == 51 {
        assert(c == '3');
    } else if u == 52 {
        assert(c == '4');
    } else if u == 53 {
        assert(c == '5');
    } else if u == 54 {
        assert(c == '6');
    } else if u == 55 {
        assert(c == '7');
    } else if u == 56 {
        assert(c == '8');
    } else {
        assert(c == '9');
    }
}

/// A one-character string slice for one decimal digit value.
pub fn digit_str(d: u64) -> (r: &'static str)
    requires
        d <= 9,
    ensures
        r@ =~= seq![digit_char(d as int)],
{
    proof {
        reveal_strlit("0");
        reveal_strlit("1");
        reveal_strlit("2");
        reveal_strlit("3");
        reveal_strlit("4");
        reveal_strlit("5");
        reveal_strlit("6");
        reveal_strlit("7");
        reveal_strlit("8");
        reveal_strlit("9");
    }
    match d {
        0 => "0",
        1 => "1",
        2 => "2",
        3 => "3",
        4 => "4",
        5 => "5",
        6 => "6",
        7 => "7",
        8 => "8",
        _ => "9",
    }
}

/// The plain decimal rendering of a non-negative integer, no padding.
pub open spec fn dec_chars(n: int) -> Seq<char>
    decreases n,
{
    if n <= 9 {
        seq![digit_char(n)]
    } else {
        dec_chars(n / 10).push(digit_char(n % 10))
    }
}

/// Appends the decimal rendering of `n` to `out`.
pub fn push_decimal(out: &mut String, n: u64)
    ensures
        final(out)@ == old(out)@ + dec_chars(n as int),
    decreases n,
{
    if n <= 9 {
        out.append(digit_str(n));
    } else {
        push_decimal(out, n / 10);
        out.append(digit_str(n % 10));
    }
    assert(out@ =~= old(out)@ + dec_chars(n as int));
}

} // verus!
