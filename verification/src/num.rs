//! Numbers as bit patterns of IEEE 754 doubles.
//!
//! A `u64` in this crate is always the bit pattern of a double: one sign bit,
//! eleven exponent bits, fifty-two mantissa bits.  Classification (NaN,
//! finiteness, sign) and ordering are defined here directly on the bits and
//! are ordinary verified code.  The arithmetic itself — addition,
//! subtraction, multiplication, division, and the decimal conversions — is
//! delegated to `rustc_apfloat`, a deterministic software implementation of
//! IEEE 754, through the trusted wrappers at the end of this module.

use vstd::prelude::*;
use rustc_apfloat::Float;

verus! {

/// Mask of everything but the sign bit: exponent and mantissa.
pub const MAGNITUDE_MASK: u64 = 0x7fff_ffff_ffff_ffff;
/// Exponent field all ones, mantissa zero: the magnitude of an infinity.
pub const INFINITY_MAGNITUDE: u64 = 0x7ff0_0000_0000_0000;

/// The magnitude of a number: its bits with the sign cleared.
pub open spec fn magnitude(a: u64) -> u64 {
    a & MAGNITUDE_MASK
}

/// A number is negative when its sign bit is set (negative zero included).
pub open spec fn neg_bits(a: u64) -> bool {
    a >> 63 == 1
}

/// NaN: exponent all ones and a nonzero mantissa.
pub open spec fn nan_bits(a: u64) -> bool {
    magnitude(a) > INFINITY_MAGNITUDE
}

/// Finite: exponent not all ones (neither an infinity nor a NaN).
pub open spec fn finite_bits(a: u64) -> bool {
    magnitude(a) < INFINITY_MAGNITUDE
}

/// Zero of either sign.
pub open spec fn zero_bits(a: u64) -> bool {
    magnitude(a) == 0
}

/// The IEEE 754 `<` relation on doubles, written on their bit patterns.
///
/// A comparison involving a NaN is false; the two zeros are equal; otherwise
/// a negative number is below a positive one, and numbers of equal sign are
/// ordered by magnitude, reversed for negatives.  For same-sign doubles the
/// magnitude field is ordered as an unsigned integer, which is exactly the
/// IEEE encoding's monotonicity.
pub open spec fn num_lt(a: u64, b: u64) -> bool {
    if nan_bits(a) || nan_bits(b) {
        false
    } else if zero_bits(a) && zero_bits(b) {
        false
    } else if neg_bits(a) != neg_bits(b) {
        neg_bits(a)
    } else if neg_bits(a) {
        magnitude(b) < magnitude(a)
    } else {
        magnitude(a) < magnitude(b)
    }
}

/// The IEEE 754 `>` relation on doubles, written on their bit patterns.
pub open spec fn num_gt(a: u64, b: u64) -> bool {
    num_lt(b, a)
}

pub fn is_nan(a: u64) -> (r: bool)
    ensures
        r == nan_bits(a),
{
    (a & MAGNITUDE_MASK) > INFINITY_MAGNITUDE
}

pub fn is_finite(a: u64) -> (r: bool)
    ensures
        r == finite_bits(a),
{
    (a & MAGNITUDE_MASK) < INFINITY_MAGNITUDE
}

pub fn less_than(a: u64, b: u64) -> (r: bool)
    ensures
        r == num_lt(a, b),
{
    let mag_a: u64 = a & MAGNITUDE_MASK;
    let mag_b: u64 = b & MAGNITUDE_MASK;
    let neg_a: bool = (a >> 63) == 1;
    let neg_b: bool = (b >> 63) == 1;
    if mag_a > INFINITY_MAGNITUDE || mag_b > INFINITY_MAGNITUDE {
        false
    } else if mag_a == 0 && mag_b == 0 {
        false
    } else if neg_a != neg_b {
        neg_a
    } else if neg_a {
        mag_b < mag_a
    } else {
        mag_a < mag_b
    }
}

pub fn greater_than(a: u64, b: u64) -> (r: bool)
    ensures
        r == num_gt(a, b),
{
    less_than(b, a)
}

/// The strict order is transitive.
pub proof fn lemma_gt_trans(a: u64, b: u64, c: u64)
    requires
        num_gt(a, b),
        num_gt(b, c),
    ensures
        num_gt(a, c),
{
}

/// A strict bound carries across equal values: if neither of two non-NaN
/// numbers exceeds the other they encode the same value, so anything above
/// one is above the other.
pub proof fn lemma_gt_through_equal(a: u64, b: u64, c: u64)
    requires
        num_gt(a, b),
        !num_gt(b, c),
        !num_gt(c, b),
        !nan_bits(c),
    ensures
        num_gt(a, c),
{
}

/// The bits of the IEEE 754 sum of the doubles `a` and `b` encode.
pub uninterp spec fn add_bits(a: u64, b: u64) -> u64;

/// The bits of the IEEE 754 difference of the doubles `a` and `b` encode.
pub uninterp spec fn sub_bits(a: u64, b: u64) -> u64;

/// The bits of the IEEE 754 product of the doubles `a` and `b` encode.
pub uninterp spec fn mul_bits(a: u64, b: u64) -> u64;

/// The bits of the IEEE 754 quotient of the doubles `a` and `b` encode.
pub uninterp spec fn div_bits(a: u64, b: u64) -> u64;

/// What `str::parse::<f64>` makes of a byte token: the bits of the parsed
/// double, or `None` where the token is not valid UTF-8 or not a number.
pub uninterp spec fn parse_bits(t: Seq<u8>) -> Option<u64>;

/// The decimal rendering of the double that `a` encodes.
pub uninterp spec fn render_bits(a: u64) -> Seq<u8>;

/// Relies on `rustc_apfloat`'s `add_r` on `ieee::Double` (through the `Add`
/// impl, which rounds to nearest, ties to even): IEEE 754 addition computed
/// in software, determined by the operand bits alone.
#[verifier::external_body]
pub(crate) fn num_add(a: u64, b: u64) -> (r: u64)
    ensures
        r == add_bits(a, b),
{
    let x = rustc_apfloat::ieee::Double::from_bits(a as u128);
    let y = rustc_apfloat::ieee::Double::from_bits(b as u128);
    (x + y).value.to_bits() as u64
}

/// Relies on `rustc_apfloat`'s `sub_r` on `ieee::Double` (through the `Sub`
/// impl, which rounds to nearest, ties to even): IEEE 754 subtraction
/// computed in software, determined by the operand bits alone.
#[verifier::external_body]
pub(crate) fn num_sub(a: u64, b: u64) -> (r: u64)
    ensures
        r == sub_bits(a, b),
{
    let x = rustc_apfloat::ieee::Double::from_bits(a as u128);
    let y = rustc_apfloat::ieee::Double::from_bits(b as u128);
    (x - y).value.to_bits() as u64
}

/// Relies on `rustc_apfloat`'s `mul_r` on `ieee::Double` (through the `Mul`
/// impl, which rounds to nearest, ties to even): IEEE 754 multiplication
/// computed in software, determined by the operand bits alone.
#[verifier::external_body]
pub(crate) fn num_mul(a: u64, b: u64) -> (r: u64)
    ensures
        r == mul_bits(a, b),
{
    let x = rustc_apfloat::ieee::Double::from_bits(a as u128);
    let y = rustc_apfloat::ieee::Double::from_bits(b as u128);
    (x * y).value.to_bits() as u64
}

/// Relies on `rustc_apfloat`'s `div_r` on `ieee::Double` (through the `Div`
/// impl, which rounds to nearest, ties to even): IEEE 754 division computed
/// in software, determined by the operand bits alone.
#[verifier::external_body]
pub(crate) fn num_div(a: u64, b: u64) -> (r: u64)
    ensures
        r == div_bits(a, b),
{
    let x = rustc_apfloat::ieee::Double::from_bits(a as u128);
    let y = rustc_apfloat::ieee::Double::from_bits(b as u128);
    (x / y).value.to_bits() as u64
}

/// Relies on `rustc_apfloat`'s `from_str_r` on `ieee::Double` (through its
/// `FromStr` impl): correctly rounded decimal-to-double conversion, written
/// in pure Rust and determined by the token's bytes alone.
#[verifier::external_body]
pub(crate) fn num_parse(t: &Vec<u8>) -> (r: Option<u64>)
    ensures
        r == parse_bits(t@),
{
    match core::str::from_utf8(t.as_slice()) {
        Ok(s) => match s.parse::<rustc_apfloat::ieee::Double>() {
            Ok(v) => Some(v.to_bits() as u64),
            Err(_) => None,
        },
        Err(_) => None,
    }
}

/// Relies on `rustc_apfloat`'s `Display` on `ieee::Double`: a decimal with
/// enough digits to read back as the same double (its source cites Steele &
/// White), made of sign, digit, point and exponent characters only — never
/// empty, never containing whitespace — so reparsing a finite number's
/// rendering returns exactly its bits.
#[verifier::external_body]
pub(crate) fn num_render(a: u64) -> (r: Vec<u8>)
    ensures
        r@ == render_bits(a),
        r@.len() > 0,
        forall|i: int|
            0 <= i < r@.len() ==> r@[i] != 32 && r@[i] != 9 && r@[i] != 13 && r@[i] != 10,
        finite_bits(a) ==> parse_bits(r@) == Some(a),
{
    format!("{}", rustc_apfloat::ieee::Double::from_bits(a as u128)).into_bytes()
}

} // verus!
