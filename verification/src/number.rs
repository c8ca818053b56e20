//! Numbers of the language are IEEE-754 binary64 values, carried everywhere
//! as their 64-bit bit pattern.  The arithmetic on those bit patterns is done
//! in software by the `rustc_apfloat` crate, so that every value the pipeline
//! moves around is a plain integer.

use vstd::prelude::*;

verus! {

/// The sign bit of an IEEE-754 binary64 bit pattern.  Flipping it is exactly
/// the IEEE negation operation, on every value including NaN.
pub const SIGN_MASK: u64 = 0x8000_0000_0000_0000;

/// The bit pattern of positive infinity.  A numeral whose conversion
/// overflows rounds to this pattern; no numeral of the grammar (all are
/// unsigned and finite in form) denotes it otherwise.
pub const INFINITY_BITS: u64 = 0x7FF0_0000_0000_0000;

/// The binary64 bit pattern a decimal numeral converts to (rounding to
/// nearest, ties to even), or `None` where the text is not a numeral the
/// converter accepts.  The result depends on the characters alone.
pub uninterp spec fn numeral_bits(s: Seq<char>) -> Option<u64>;

/// The bit pattern of the IEEE-754 binary64 sum (round to nearest, ties to
/// even) of the two numbers with the given bit patterns.
pub uninterp spec fn sum_bits(a: u64, b: u64) -> u64;

/// The bit pattern of the IEEE-754 binary64 difference (round to nearest,
/// ties to even) of the two numbers with the given bit patterns.
pub uninterp spec fn diff_bits(a: u64, b: u64) -> u64;

/// Relies on rustc_apfloat's `Double` (IEEE-754 binary64): its `FromStr`
/// converts a decimal numeral with correct rounding (nearest, ties to even),
/// and the outcome depends on the characters alone.
#[verifier::external_body]
pub fn parse_numeral(s: &str) -> (r: Option<u64>)
    ensures
        r == numeral_bits(s@),
{
    match s.parse::<rustc_apfloat::ieee::Double>() {
        Ok(d) => Some(rustc_apfloat::Float::to_bits(d) as u64),
        Err(_) => None,
    }
}

/// Relies on rustc_apfloat's `Double` addition (IEEE-754 binary64, round to
/// nearest, ties to even); the result depends on the two bit patterns alone.
#[verifier::external_body]
pub fn add_bits(a: u64, b: u64) -> (r: u64)
    ensures
        r == sum_bits(a, b),
{
    let x = <rustc_apfloat::ieee::Double as rustc_apfloat::Float>::from_bits(a as u128);
    let y = <rustc_apfloat::ieee::Double as rustc_apfloat::Float>::from_bits(b as u128);
    rustc_apfloat::Float::to_bits((x + y).value) as u64
}

/// Relies on rustc_apfloat's `Double` subtraction (IEEE-754 binary64, round
/// to nearest, ties to even); the result depends on the two bit patterns
/// alone.
#[verifier::external_body]
pub fn sub_bits(a: u64, b: u64) -> (r: u64)
    ensures
        r == diff_bits(a, b),
{
    let x = <rustc_apfloat::ieee::Double as rustc_apfloat::Float>::from_bits(a as u128);
    let y = <rustc_apfloat::ieee::Double as rustc_apfloat::Float>::from_bits(b as u128);
    rustc_apfloat::Float::to_bits((x - y).value) as u64
}

/// IEEE-754 negation: flip the sign bit.  This needs no outside help.
pub fn negate_bits(a: u64) -> (r: u64)
    ensures
        r == a ^ SIGN_MASK,
{
    a ^ SIGN_MASK
}

} // verus!
