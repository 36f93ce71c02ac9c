//! Trusted access to IEEE-754 binary64 arithmetic on bit patterns.
//!
//! The interpreter stores a floating-point number as its binary64 bit
//! pattern (a `u64`) and computes with it through `rustc_apfloat`, a
//! software implementation of IEEE-754 that works on integers only. Each
//! operation's result is named by an uninterpreted spec function: the result
//! is a function of the argument bit patterns alone, the same in every
//! process and on every machine.
use rustc_apfloat::Float;
use rustc_apfloat::Round;
use rustc_apfloat::ieee::Double;
use vstd::prelude::*;

verus! {

/// The binary64 sum of two bit patterns, rounded to nearest, ties to even.
pub uninterp spec fn add_bits(a: u64, b: u64) -> u64;

/// The binary64 difference of two bit patterns.
pub uninterp spec fn sub_bits(a: u64, b: u64) -> u64;

/// The binary64 product of two bit patterns.
pub uninterp spec fn mul_bits(a: u64, b: u64) -> u64;

/// The binary64 quotient of two bit patterns.
pub uninterp spec fn div_bits(a: u64, b: u64) -> u64;

/// The IEEE-754 partial order of two bit patterns: `Some(-1)`, `Some(0)`,
/// `Some(1)` for less, equal, greater; `None` when unordered (a NaN operand).
pub uninterp spec fn cmp_bits(a: u64, b: u64) -> Option<i8>;

/// The binary64 value nearest to a 64-bit signed integer.
pub uninterp spec fn bits_of_int(i: i64) -> u64;

/// The correctly rounded binary64 value of a numeral as rustc_apfloat reads
/// it (decimal or hexadecimal, with the IEEE special values), `None` when it
/// rejects the text. The scanner only ever hands it decimal numerals.
pub uninterp spec fn bits_of_decimal(s: Seq<u8>) -> Option<u64>;

/// The decimal text of a binary64 bit pattern.
pub uninterp spec fn decimal_of_bits(b: u64) -> Seq<u8>;

/// Relies on rustc_apfloat: `Double::add_r` with round-to-nearest-ties-to-even
/// computes the IEEE-754 binary64 sum.
#[verifier::external_body]
pub fn f64_add(a: u64, b: u64) -> (r: u64)
    ensures
        r == add_bits(a, b),
{
    let x = Double::from_bits(a as u128);
    let y = Double::from_bits(b as u128);
    x.add_r(y, Round::NearestTiesToEven).value.to_bits() as u64
}

/// Relies on rustc_apfloat: `Double::sub_r` computes the IEEE-754 binary64
/// difference.
#[verifier::external_body]
pub fn f64_sub(a: u64, b: u64) -> (r: u64)
    ensures
        r == sub_bits(a, b),
{
    let x = Double::from_bits(a as u128);
    let y = Double::from_bits(b as u128);
    x.sub_r(y, Round::NearestTiesToEven).value.to_bits() as u64
}

/// Relies on rustc_apfloat: `Double::mul_r` computes the IEEE-754 binary64
/// product.
#[verifier::external_body]
pub fn f64_mul(a: u64, b: u64) -> (r: u64)
    ensures
        r == mul_bits(a, b),
{
    let x = Double::from_bits(a as u128);
    let y = Double::from_bits(b as u128);
    x.mul_r(y, Round::NearestTiesToEven).value.to_bits() as u64
}

/// Relies on rustc_apfloat: `Double::div_r` computes the IEEE-754 binary64
/// quotient (division by zero gives an infinity or NaN, as IEEE-754 says).
#[verifier::external_body]
pub fn f64_div(a: u64, b: u64) -> (r: u64)
    ensures
        r == div_bits(a, b),
{
    let x = Double::from_bits(a as u128);
    let y = Double::from_bits(b as u128);
    x.div_r(y, Round::NearestTiesToEven).value.to_bits() as u64
}

/// Relies on rustc_apfloat: `PartialOrd for IeeeFloat` is the IEEE-754
/// comparison; it returns `None` exactly when an operand is NaN.
#[verifier::external_body]
pub fn f64_cmp(a: u64, b: u64) -> (r: Option<i8>)
    ensures
        r == cmp_bits(a, b),
{
    let x = Double::from_bits(a as u128);
    let y = Double::from_bits(b as u128);
    match x.partial_cmp(&y) {
        Some(core::cmp::Ordering::Less) => Some(-1),
        Some(core::cmp::Ordering::Equal) => Some(0),
        Some(core::cmp::Ordering::Greater) => Some(1),
        None => None,
    }
}

/// Relies on rustc_apfloat: `Double::from_i128` converts an integer with
/// round-to-nearest-ties-to-even, as Rust's integer-to-binary64 cast does.
#[verifier::external_body]
pub fn f64_of_i64(i: i64) -> (r: u64)
    ensures
        r == bits_of_int(i),
{
    Double::from_i128(i as i128).value.to_bits() as u64
}

/// Relies on rustc_apfloat: `Double::from_str` reads a decimal numeral with
/// correct rounding and rejects text outside its grammar.
#[verifier::external_body]
pub fn f64_parse(s: &[u8]) -> (r: Option<u64>)
    ensures
        r == bits_of_decimal(s@),
{
    match core::str::from_utf8(s) {
        Ok(t) => match t.parse::<Double>() {
            Ok(d) => Some(d.to_bits() as u64),
            Err(_) => None,
        },
        Err(_) => None,
    }
}

/// Relies on rustc_apfloat: `Display for IeeeFloat` prints a decimal text of
/// the number, a function of the bit pattern alone.
#[verifier::external_body]
pub fn f64_format(b: u64) -> (r: Vec<u8>)
    ensures
        r@ == decimal_of_bits(b),
{
    Double::from_bits(b as u128).to_string().into_bytes()
}

} // verus!
