use vstd::prelude::*;
use rustc_apfloat::Float;

verus! {

/// How two IEEE-754 doubles compare; a NaN compares with nothing.
#[derive(Debug, PartialEq, Eq, Structural, Clone, Copy)]
pub enum FloatCmp {
    Less,
    Equal,
    Greater,
    Unordered,
}

/// The bits of the double that the decimal text denotes, when it denotes one.
pub uninterp spec fn bits_of_dec_text(s: Seq<char>) -> Option<u64>;

/// The bits of the IEEE-754 sum of the doubles given by bits.
pub uninterp spec fn f64_add_bits(a: u64, b: u64) -> u64;

/// The bits of the IEEE-754 difference of the doubles given by bits.
pub uninterp spec fn f64_sub_bits(a: u64, b: u64) -> u64;

/// The bits of the IEEE-754 product of the doubles given by bits.
pub uninterp spec fn f64_mul_bits(a: u64, b: u64) -> u64;

/// The bits of the IEEE-754 quotient of the doubles given by bits.
pub uninterp spec fn f64_div_bits(a: u64, b: u64) -> u64;

/// The IEEE-754 comparison of the doubles given by bits.
pub uninterp spec fn f64_cmp_bits(a: u64, b: u64) -> FloatCmp;

/// The bits of the double nearest the integer.
pub uninterp spec fn f64_of_i64(i: i64) -> u64;

/// The decimal rendering of the double given by bits.
pub uninterp spec fn f64_text(bits: u64) -> Seq<char>;

/// Whether the bits are those of positive or negative zero.
pub open spec fn f64_is_zero(bits: u64) -> bool {
    bits == 0u64 || bits == 0x8000_0000_0000_0000u64
}

/// Relies on rustc_apfloat's Double::from_str: correctly rounded conversion
/// of decimal text to an IEEE-754 double.
#[verifier::external_body]
pub(crate) fn parse_double(s: &str) -> (r: Option<u64>)
    ensures
        r == bits_of_dec_text(s@),
{
    match s.parse::<rustc_apfloat::ieee::Double>() {
        Ok(d) => Some(d.to_bits() as u64),
        Err(_) => None,
    }
}

/// Relies on rustc_apfloat's Double addition, the IEEE-754 sum rounded to
/// nearest, ties to even.
#[verifier::external_body]
pub(crate) fn add_double(a: u64, b: u64) -> (r: u64)
    ensures
        r == f64_add_bits(a, b),
{
    let x = rustc_apfloat::ieee::Double::from_bits(a as u128);
    let y = rustc_apfloat::ieee::Double::from_bits(b as u128);
    (x + y).value.to_bits() as u64
}

/// Relies on rustc_apfloat's Double subtraction, the IEEE-754 difference
/// rounded to nearest, ties to even.
#[verifier::external_body]
pub(crate) fn sub_double(a: u64, b: u64) -> (r: u64)
    ensures
        r == f64_sub_bits(a, b),
{
    let x = rustc_apfloat::ieee::Double::from_bits(a as u128);
    let y = rustc_apfloat::ieee::Double::from_bits(b as u128);
    (x - y).value.to_bits() as u64
}

/// Relies on rustc_apfloat's Double multiplication, the IEEE-754 product
/// rounded to nearest, ties to even.
#[verifier::external_body]
pub(crate) fn mul_double(a: u64, b: u64) -> (r: u64)
    ensures
        r == f64_mul_bits(a, b),
{
    let x = rustc_apfloat::ieee::Double::from_bits(a as u128);
    let y = rustc_apfloat::ieee::Double::from_bits(b as u128);
    (x * y).value.to_bits() as u64
}

/// Relies on rustc_apfloat's Double division, the IEEE-754 quotient rounded
/// to nearest, ties to even.
#[verifier::external_body]
pub(crate) fn div_double(a: u64, b: u64) -> (r: u64)
    ensures
        r == f64_div_bits(a, b),
{
    let x = rustc_apfloat::ieee::Double::from_bits(a as u128);
    let y = rustc_apfloat::ieee::Double::from_bits(b as u128);
    (x / y).value.to_bits() as u64
}

/// Relies on rustc_apfloat's Double partial order: the IEEE-754 comparison,
/// in which a NaN is unordered and the two zeros are equal.
#[verifier::external_body]
pub(crate) fn cmp_double(a: u64, b: u64) -> (r: FloatCmp)
    ensures
        r == f64_cmp_bits(a, b),
{
    let x = rustc_apfloat::ieee::Double::from_bits(a as u128);
    let y = rustc_apfloat::ieee::Double::from_bits(b as u128);
    match x.partial_cmp(&y) {
        Some(core::cmp::Ordering::Less) => FloatCmp::Less,
        Some(core::cmp::Ordering::Equal) => FloatCmp::Equal,
        Some(core::cmp::Ordering::Greater) => FloatCmp::Greater,
        None => FloatCmp::Unordered,
    }
}

/// Relies on rustc_apfloat's Double::from_i128: the IEEE-754 double nearest
/// the integer, ties to even.
#[verifier::external_body]
pub(crate) fn i64_to_double(i: i64) -> (r: u64)
    ensures
        r == f64_of_i64(i),
{
    rustc_apfloat::ieee::Double::from_i128(i as i128).value.to_bits() as u64
}

/// Relies on rustc_apfloat's Display for Double: a decimal rendering of the
/// double given by bits.
#[verifier::external_body]
pub(crate) fn double_to_string(bits: u64) -> (r: String)
    ensures
        r@ == f64_text(bits),
{
    format!("{}", rustc_apfloat::ieee::Double::from_bits(bits as u128))
}

} // verus!
