//! Characters and decimal digits: classification, conversion between strings
//! and character vectors, and the canonical decimal rendering of a number.

use vstd::prelude::*;
use vstd::string::StrSliceExecFns;
use vstd::string::StringExecFns;

verus! {

/// A decimal digit character.
pub open spec fn is_digit_char(c: char) -> bool {
    48 <= (c as u32) && (c as u32) <= 57
}

/// The numeric value of a digit character.
pub open spec fn digit_val(c: char) -> int {
    (c as u32) - 48
}

/// The digit character for a value below ten.
pub open spec fn digit_char(d: int) -> char {
    ((48 + d) as u8) as char
}

/// The canonical decimal rendering of `v`: most significant digit first,
/// no superfluous leading zero.
pub open spec fn dec_digits(v: nat) -> Seq<char>
    decreases v,
{
    if v < 10 {
        seq![digit_char(v as int)]
    } else {
        dec_digits(v / 10) + seq![digit_char((v % 10) as int)]
    }
}

/// Every character of a canonical decimal rendering is a digit.
pub proof fn lemma_dec_digits_are_digits(v: nat)
    ensures
        forall|k: int| 0 <= k < dec_digits(v).len() ==> is_digit_char(#[trigger] dec_digits(v)[k]),
        dec_digits(v).len() >= 1,
    decreases v,
{
    if v < 10 {
        assert(is_digit_char(digit_char(v as int)));
    } else {
        lemma_dec_digits_are_digits(v / 10);
        assert(0 <= v % 10 < 10);
        assert(is_digit_char(digit_char((v % 10) as int)));
    }
}

/// The digit character for an executable digit value.
pub fn digit_to_char(d: u32) -> (c: char)
    requires
        d < 10,
    ensures
        c == digit_char(d as int),
{
    (48 + d as u8) as char
}

/// The decimal digits of `v`, most significant first.
pub fn int_to_digits(v: u32) -> (r: Vec<char>)
    ensures
        r@ == dec_digits(v as nat),
    decreases v,
{
    if v < 10 {
        let mut r: Vec<char> = Vec::new();
        r.push(digit_to_char(v));
        assert(r@ =~= dec_digits(v as nat));
        r
    } else {
        let mut r = int_to_digits(v / 10);
        r.push(digit_to_char(v % 10));
        assert(r@ =~= dec_digits(v as nat));
        r
    }
}

/// The characters of `s`, in order, as a vector.
pub fn str_chars(s: &str) -> (r: Vec<char>)
    ensures
        r@ == s@,
{
    let n = s.unicode_len();
    let mut r: Vec<char> = Vec::new();
    let mut i: usize = 0;
    while i < n
        invariant
            n == s@.len(),
            i <= n,
            r@ == s@.take(i as int),
        decreases n - i,
    {
        r.push(s.get_char(i));
        i = i + 1;
        assert(r@ =~= s@.take(i as int));
    }
    assert(s@.take(n as int) =~= s@);
    r
}

/// Relies on `Iterator::collect` for `String`: the collected string holds
/// exactly the iterated characters, in order.
#[verifier::external_body]
pub(crate) fn chars_to_string(v: &Vec<char>) -> (r: String)
    ensures
        r@ == v@,
{
    v.iter().collect()
}

/// `s` and `c` stand in for the square and cube glyphs in ASCII input.
pub open spec fn spec_normalize_power(c: char) -> char {
    if c == 's' {
        '²'
    } else if c == 'c' {
        '³'
    } else {
        c
    }
}

/// Replace the ASCII power placeholders by the real glyphs.
pub fn normalize_power(c: char) -> (r: char)
    ensures
        r == spec_normalize_power(c),
{
    if c == 's' {
        '²'
    } else if c == 'c' {
        '³'
    } else {
        c
    }
}

/// A corpus string with placeholders replaced by the power glyphs.
pub fn normalize_equation(s: &str) -> (r: String)
    ensures
        r@ == s@.map_values(|c: char| spec_normalize_power(c)),
{
    let chars = str_chars(s);
    let mut out: Vec<char> = Vec::new();
    let mut i: usize = 0;
    while i < chars.len()
        invariant
            chars@ == s@,
            i <= chars.len(),
            out@ == s@.take(i as int).map_values(|c: char| spec_normalize_power(c)),
        decreases chars.len() - i,
    {
        out.push(normalize_power(chars[i]));
        i = i + 1;
        assert(out@ =~= s@.take(i as int).map_values(|c: char| spec_normalize_power(c)));
    }
    assert(s@.take(s@.len() as int) =~= s@);
    chars_to_string(&out)
}

} // verus!
