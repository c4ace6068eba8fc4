//! Plain decimal text building for the display form of values.

use vstd::prelude::*;

verus! {

/// The character of one decimal digit, in specifications.
pub open spec fn dchar(d: int) -> char {
    if d == 0 {
        '0'
    } else if d == 1 {
        '1'
    } else if d == 2 {
        '2'
    } else if d == 3 {
        '3'
    } else if d == 4 {
        '4'
    } else if d == 5 {
        '5'
    } else if d == 6 {
        '6'
    } else if d == 7 {
        '7'
    } else if d == 8 {
        '8'
    } else {
        '9'
    }
}

/// The decimal digits of a non-negative integer, most significant
/// first; zero is the single digit `0`.
pub open spec fn dec_seq(n: int) -> Seq<char>
    decreases n,
{
    if n <= 0 {
        seq!['0']
    } else if n < 10 {
        seq![dchar(n)]
    } else {
        dec_seq(n / 10).push(dchar(n % 10))
    }
}

/// Up to `k` fraction digits of the rational `rem / d` (with
/// `0 <= rem < d`), stopping early when the remainder runs out.
pub open spec fn frac_seq(rem: int, d: int, k: nat) -> Seq<char>
    decreases k,
{
    if k == 0 || rem <= 0 {
        Seq::empty()
    } else {
        seq![dchar((rem * 10) / d)] + frac_seq((rem * 10) % d, d, (k - 1) as nat)
    }
}

/// The sequence with its trailing `0` characters removed.
pub open spec fn trimz(s: Seq<char>) -> Seq<char>
    decreases s.len(),
{
    if s.len() == 0 {
        s
    } else if s.last() == '0' {
        trimz(s.drop_last())
    } else {
        s
    }
}

/// Relies on String::push: appends exactly the one character.
#[verifier::external_body]
pub(crate) fn push_char(s: &mut String, c: char)
    ensures
        final(s)@ == old(s)@.push(c),
{
    s.push(c);
}

/// The character of one decimal digit.
pub(crate) fn digit_char(d: u8) -> (c: char)
    requires
        d <= 9,
    ensures
        c == dchar(d as int),
{
    match d {
        0 => '0',
        1 => '1',
        2 => '2',
        3 => '3',
        4 => '4',
        5 => '5',
        6 => '6',
        7 => '7',
        8 => '8',
        _ => '9',
    }
}

/// Appends the decimal digits of the non-negative `n`, most
/// significant first.
pub(crate) fn push_decimal(s: &mut String, n: i128)
    requires
        n >= 0,
    ensures
        final(s)@ == old(s)@ + dec_seq(n as int),
    decreases n,
{
    if n < 10 {
        push_char(s, digit_char(n as u8));
        proof {
            assert(s@ =~= old(s)@ + dec_seq(n as int));
        }
    } else {
        let ghost pre = s@;
        push_decimal(s, n / 10);
        push_char(s, digit_char((n % 10) as u8));
        proof {
            assert(s@ =~= pre + dec_seq(n as int));
        }
    }
}

} // verus!
