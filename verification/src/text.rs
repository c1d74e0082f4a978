//! Character-level helpers shared by the scanner and the diagnostics:
//! conversions between `String` and `Vec<char>`, and decimal rendering
//! of line numbers.

use vstd::prelude::*;

verus! {

/// Relies on `str::chars` together with `Iterator::collect`: the iterator
/// yields exactly the string's characters, in order.
#[verifier::external_body]
pub fn str_chars_vec(s: &str) -> (v: Vec<char>)
    ensures
        v@ == s@,
{
    s.chars().collect()
}

/// Relies on `FromIterator<char> for String`: collecting characters builds
/// the string holding exactly those characters, in order.
#[verifier::external_body]
pub fn chars_into_string(v: &Vec<char>) -> (s: String)
    ensures
        s@ == v@,
{
    v.iter().collect()
}

/// Whether a character counts as alphabetic for identifiers. The
/// classification is fixed by the character alone; `char_is_alphabetic`
/// computes it.
pub uninterp spec fn unicode_alpha(c: char) -> bool;

/// Relies on `char::is_alphabetic`: a fixed classification of the
/// character alone, the same on every call.
#[verifier::external_body]
pub fn char_is_alphabetic(c: char) -> (r: bool)
    ensures
        r == unicode_alpha(c),
{
    c.is_alphabetic()
}

/// Append the characters of `s` to `v`.
pub fn push_str_chars(v: &mut Vec<char>, s: &str)
    ensures
        final(v)@ == old(v)@ + s@,
{
    let w = str_chars_vec(s);
    let mut i: usize = 0;
    while i < w.len()
        invariant
            i <= w.len(),
            v@ == old(v)@ + w@.subrange(0, i as int),
            w@ == s@,
        decreases w.len() - i,
    {
        v.push(w[i]);
        i = i + 1;
        proof {
            assert(v@ =~= old(v)@ + w@.subrange(0, i as int));
        }
    }
    proof {
        assert(w@.subrange(0, w@.len() as int) =~= w@);
    }
}

/// The decimal digit character for a value below ten.
pub open spec fn dec_digit(n: nat) -> char {
    if n == 0 {
        '0'
    } else if n == 1 {
        '1'
    } else if n == 2 {
        '2'
    } else if n == 3 {
        '3'
    } else if n == 4 {
        '4'
    } else if n == 5 {
        '5'
    } else if n == 6 {
        '6'
    } else if n == 7 {
        '7'
    } else if n == 8 {
        '8'
    } else {
        '9'
    }
}

/// The usual decimal rendering of `n`, most significant digit first,
/// with no leading zeros (except for `n == 0` itself).
pub open spec fn dec_str(n: nat) -> Seq<char>
    decreases n,
{
    if n < 10 {
        seq![dec_digit(n)]
    } else {
        dec_str(n / 10).push(dec_digit(n % 10))
    }
}

/// Append the decimal rendering of `n` to `v`.
pub fn push_dec(v: &mut Vec<char>, n: u64)
    ensures
        final(v)@ == old(v)@ + dec_str(n as nat),
    decreases n,
{
    if n >= 10 {
        push_dec(v, n / 10);
    }
    let d: u64 = n % 10;
    let c: char = if d == 0 {
        '0'
    } else if d == 1 {
        '1'
    } else if d == 2 {
        '2'
    } else if d == 3 {
        '3'
    } else if d == 4 {
        '4'
    } else if d == 5 {
        '5'
    } else if d == 6 {
        '6'
    } else if d == 7 {
        '7'
    } else if d == 8 {
        '8'
    } else {
        '9'
    };
    v.push(c);
    proof {
        assert(c == dec_digit((n % 10) as nat));
        if n < 10 {
            assert(dec_str(n as nat) == seq![dec_digit(n as nat)]);
            assert(v@ =~= old(v)@ + dec_str(n as nat));
        } else {
            assert(dec_str(n as nat) == dec_str((n / 10) as nat).push(
                dec_digit((n % 10) as nat),
            ));
            assert(v@ =~= old(v)@ + dec_str(n as nat));
        }
    }
}

} // verus!
