use vstd::prelude::*;
use std::io::Write;

verus! {

/// Relies on str::chars: yields the characters of the string, in order.
#[verifier::external_body]
pub(crate) fn str_to_chars(s: &str) -> (r: Vec<char>)
    ensures
        r@ == s@,
{
    s.chars().collect()
}

/// Relies on String's FromIterator over char: collecting characters yields
/// the string of exactly those characters.
#[verifier::external_body]
pub(crate) fn chars_to_string(v: &Vec<char>) -> (r: String)
    ensures
        r@ == v@,
{
    v.iter().collect()
}

/// Relies on the format macro: the concatenation of the two strings.
#[verifier::external_body]
pub(crate) fn string_concat(a: &str, b: &str) -> (r: String)
    ensures
        r@ == a@ + b@,
{
    format!("{}{}", a, b)
}

/// Relies on std::io::Stdout: writes the line to standard output. Nothing is
/// claimed of the effect.
#[verifier::external_body]
pub(crate) fn emit_line(s: &str) {
    let _ = writeln!(std::io::stdout(), "{}", s);
}


/// Relies on str's PartialEq: whether the two strings hold the same
/// characters.
#[verifier::external_body]
pub(crate) fn str_eq(a: &str, b: &str) -> (r: bool)
    ensures
        r == (a@ == b@),
{
    a == b
}

/// The digit character for one decimal digit.
pub open spec fn dec_digit_char(d: int) -> char {
    if d == 0 { '0' }
    else if d == 1 { '1' }
    else if d == 2 { '2' }
    else if d == 3 { '3' }
    else if d == 4 { '4' }
    else if d == 5 { '5' }
    else if d == 6 { '6' }
    else if d == 7 { '7' }
    else if d == 8 { '8' }
    else { '9' }
}

/// The decimal rendering of a natural number, most significant digit first,
/// without leading zeros.
pub open spec fn dec_chars(n: nat) -> Seq<char>
    decreases n,
{
    if n < 10 {
        seq![dec_digit_char(n as int)]
    } else {
        dec_chars(n / 10).push(dec_digit_char((n % 10) as int))
    }
}

/// The decimal rendering of a signed number: a minus sign for negatives, then
/// the digits of the magnitude.
pub open spec fn dec_int_chars(i: int) -> Seq<char> {
    if i < 0 {
        seq!['-'] + dec_chars((-i) as nat)
    } else {
        dec_chars(i as nat)
    }
}

fn dec_digit_char_exec(d: u64) -> (r: char)
    requires
        d < 10,
    ensures
        r == dec_digit_char(d as int),
{
    if d == 0 { '0' }
    else if d == 1 { '1' }
    else if d == 2 { '2' }
    else if d == 3 { '3' }
    else if d == 4 { '4' }
    else if d == 5 { '5' }
    else if d == 6 { '6' }
    else if d == 7 { '7' }
    else if d == 8 { '8' }
    else { '9' }
}

fn push_dec_chars(n: u64, out: &mut Vec<char>)
    ensures
        final(out)@ == old(out)@ + dec_chars(n as nat),
    decreases n,
{
    if n < 10 {
        out.push(dec_digit_char_exec(n));
        proof {
            assert(final(out)@ =~= old(out)@ + dec_chars(n as nat));
        }
    } else {
        push_dec_chars(n / 10, out);
        out.push(dec_digit_char_exec(n % 10));
        proof {
            assert(final(out)@ =~= old(out)@ + dec_chars(n as nat));
        }
    }
}

/// The decimal rendering of an unsigned number.
pub fn u64_to_string(n: u64) -> (r: String)
    ensures
        r@ == dec_chars(n as nat),
{
    let mut out: Vec<char> = Vec::new();
    push_dec_chars(n, &mut out);
    proof {
        assert(out@ =~= dec_chars(n as nat));
    }
    chars_to_string(&out)
}

/// The decimal rendering of a signed number.
pub fn i64_to_string(i: i64) -> (r: String)
    ensures
        r@ == dec_int_chars(i as int),
{
    if i >= 0 {
        u64_to_string(i as u64)
    } else {
        let mag: u64 = ((-(i as i128)) as u64);
        let mut out: Vec<char> = Vec::new();
        out.push('-');
        push_dec_chars(mag, &mut out);
        proof {
            assert(out@ =~= dec_int_chars(i as int));
        }
        chars_to_string(&out)
    }
}


pub proof fn lemma_dec_chars_len(n: nat)
    ensures
        dec_chars(n).len() >= 1,
        n >= 10 ==> dec_chars(n).len() >= 2,
    decreases n,
{
    if n >= 10 {
        lemma_dec_chars_len(n / 10);
    }
}

} // verus!
