//! The part of IEEE-754 binary64 that can be read off a bit pattern: the
//! class of a double (finite, infinite, NaN), its sign, and its place in
//! the order of the doubles.
//!
//! A double is held as the `u64` that `to_bits` gives. Bit 63 is the sign,
//! bits 62 to 52 the exponent field, bits 51 to 0 the fraction.

use vstd::prelude::*;

verus! {

/// The bit pattern of -0.0: the sign bit alone.
pub const SIGN_BIT: u64 = 0x8000_0000_0000_0000;

/// The bit pattern of +infinity: the exponent field all ones, the fraction zero.
pub const INFINITY: u64 = 0x7ff0_0000_0000_0000;

/// The bit pattern in which every NaN result is given: the quiet NaN with
/// no sign and no payload.
pub const NAN: u64 = 0x7ff8_0000_0000_0000;

/// 2^52: the implicit leading bit of a normal significand, and the weight of
/// the exponent field in a bit pattern.
pub const HIDDEN_BIT: u64 = 0x10_0000_0000_0000;

/// The bit pattern of 0.0.
pub const ZERO: u64 = 0;

/// The bit pattern of 0.5.
pub const HALF: u64 = 0x3fe0_0000_0000_0000;

/// The bit pattern of 1.0.
pub const ONE: u64 = 0x3ff0_0000_0000_0000;

/// The bit pattern of 2.0.
pub const TWO: u64 = 0x4000_0000_0000_0000;

/// The bit pattern of 3.0.
pub const THREE: u64 = 0x4008_0000_0000_0000;

/// The bit pattern of 100.0.
pub const HUNDRED: u64 = 0x4059_0000_0000_0000;

/// Whether the sign bit is set.
pub open spec fn spec_is_negative(bits: u64) -> bool {
    bits >= SIGN_BIT
}

/// The pattern without its sign bit: the pattern of the absolute value.
pub open spec fn spec_magnitude(bits: u64) -> u64 {
    if bits >= SIGN_BIT {
        (bits - SIGN_BIT) as u64
    } else {
        bits
    }
}

/// Whether the pattern is a NaN: exponent field all ones, fraction not zero.
pub open spec fn spec_is_nan(bits: u64) -> bool {
    spec_magnitude(bits) > INFINITY
}

/// Whether the pattern is +infinity or -infinity.
pub open spec fn spec_is_infinite(bits: u64) -> bool {
    spec_magnitude(bits) == INFINITY
}

/// Whether the pattern is a finite number: zero, subnormal or normal.
pub open spec fn spec_is_finite(bits: u64) -> bool {
    spec_magnitude(bits) < INFINITY
}

/// Whether the pattern is 0.0 or -0.0.
pub open spec fn spec_is_zero(bits: u64) -> bool {
    spec_magnitude(bits) == 0
}

/// The place of a double in the order of the doubles. For two patterns that
/// are not NaN, the first double is less than the second exactly when its
/// key is less, and the two are equal as numbers exactly when their keys
/// are equal: among doubles of one sign the magnitude patterns are ordered
/// as the absolute values are, and 0.0 and -0.0 share the key 0.
pub open spec fn key(bits: u64) -> int {
    if spec_is_negative(bits) {
        -(spec_magnitude(bits) as int)
    } else {
        spec_magnitude(bits) as int
    }
}

/// The exponent field of the pattern: 0 for zeros and subnormals, 2047 for
/// infinities and NaNs.
pub open spec fn exponent_field(bits: u64) -> nat {
    (spec_magnitude(bits) / HIDDEN_BIT) as nat
}

/// The fraction field of the pattern: its low 52 bits.
pub open spec fn fraction(bits: u64) -> nat {
    (spec_magnitude(bits) % HIDDEN_BIT) as nat
}

/// The significand of a finite double as an integer below 2^53: the
/// fraction, with the implicit leading bit where the double is normal.
pub open spec fn significand(bits: u64) -> nat {
    if exponent_field(bits) == 0 {
        fraction(bits)
    } else {
        (fraction(bits) + HIDDEN_BIT) as nat
    }
}

/// The power of two that the significand of a finite double counts: the
/// absolute value of the double is `significand * 2^exponent`.
pub open spec fn exponent(bits: u64) -> int {
    if exponent_field(bits) == 0 {
        -1074
    } else {
        exponent_field(bits) - 1075
    }
}

/// The pattern with the given magnitude and sign.
pub open spec fn spec_with_sign(magnitude: u64, negative: bool) -> u64
    recommends
        magnitude < SIGN_BIT,
{
    if negative {
        (magnitude + SIGN_BIT) as u64
    } else {
        magnitude
    }
}

/// Whether the sign bit is set.
#[verifier::when_used_as_spec(spec_is_negative)]
pub fn is_negative(bits: u64) -> (r: bool)
    ensures
        r == spec_is_negative(bits),
{
    bits >= SIGN_BIT
}

/// The pattern of the absolute value.
#[verifier::when_used_as_spec(spec_magnitude)]
pub fn magnitude(bits: u64) -> (r: u64)
    ensures
        r == spec_magnitude(bits),
{
    if bits >= SIGN_BIT {
        bits - SIGN_BIT
    } else {
        bits
    }
}

/// Whether the pattern is a NaN.
#[verifier::when_used_as_spec(spec_is_nan)]
pub fn is_nan(bits: u64) -> (r: bool)
    ensures
        r == spec_is_nan(bits),
{
    magnitude(bits) > INFINITY
}

/// Whether the pattern is an infinity.
#[verifier::when_used_as_spec(spec_is_infinite)]
pub fn is_infinite(bits: u64) -> (r: bool)
    ensures
        r == spec_is_infinite(bits),
{
    magnitude(bits) == INFINITY
}

/// Whether the pattern is a finite number.
#[verifier::when_used_as_spec(spec_is_finite)]
pub fn is_finite(bits: u64) -> (r: bool)
    ensures
        r == spec_is_finite(bits),
{
    magnitude(bits) < INFINITY
}

/// Whether the pattern is a zero of either sign.
#[verifier::when_used_as_spec(spec_is_zero)]
pub fn is_zero(bits: u64) -> (r: bool)
    ensures
        r == spec_is_zero(bits),
{
    magnitude(bits) == 0
}

/// The pattern with the given magnitude and sign.
#[verifier::when_used_as_spec(spec_with_sign)]
pub fn with_sign(magnitude: u64, negative: bool) -> (r: u64)
    requires
        magnitude < SIGN_BIT,
    ensures
        r == spec_with_sign(magnitude, negative),
{
    if negative {
        magnitude + SIGN_BIT
    } else {
        magnitude
    }
}

/// The significand and the exponent of a finite double.
pub fn unpack(bits: u64) -> (r: (u64, i64))
    requires
        spec_is_finite(bits),
    ensures
        r.0 == significand(bits),
        r.1 == exponent(bits),
        r.0 < 2 * HIDDEN_BIT,
        -1074 <= r.1 <= 971,
        r.1 > -1074 ==> r.0 >= HIDDEN_BIT,
{
    let m: u64 = magnitude(bits);
    let field: u64 = m / HIDDEN_BIT;
    let low: u64 = m % HIDDEN_BIT;
    if field == 0 {
        (low, -1074)
    } else {
        (low + HIDDEN_BIT, field as i64 - 1075)
    }
}

/// Whether the first double comes before the second in the order of keys.
pub fn less(a: u64, b: u64) -> (r: bool)
    ensures
        r == (key(a) < key(b)),
{
    if a >= SIGN_BIT {
        if b >= SIGN_BIT {
            a - SIGN_BIT > b - SIGN_BIT
        } else {
            a - SIGN_BIT > 0 || b > 0
        }
    } else {
        if b >= SIGN_BIT {
            false
        } else {
            a < b
        }
    }
}

/// Whether the first double does not come after the second in the order of keys.
pub fn at_most(a: u64, b: u64) -> (r: bool)
    ensures
        r == (key(a) <= key(b)),
{
    !less(b, a)
}

/// Whether the first double is greater than the second as numbers: false
/// where either is NaN.
pub open spec fn spec_greater(a: u64, b: u64) -> bool {
    !spec_is_nan(a) && !spec_is_nan(b) && key(a) > key(b)
}

/// Whether the two doubles are equal as numbers: false where either is
/// NaN, true of the two zeros.
pub open spec fn spec_equal(a: u64, b: u64) -> bool {
    !spec_is_nan(a) && !spec_is_nan(b) && key(a) == key(b)
}

/// Whether the first double is greater than the second as numbers.
#[verifier::when_used_as_spec(spec_greater)]
pub fn greater(a: u64, b: u64) -> (r: bool)
    ensures
        r == spec_greater(a, b),
{
    !is_nan(a) && !is_nan(b) && less(b, a)
}

/// Whether the two doubles are equal as numbers.
#[verifier::when_used_as_spec(spec_equal)]
pub fn equal(a: u64, b: u64) -> (r: bool)
    ensures
        r == spec_equal(a, b),
{
    !is_nan(a) && !is_nan(b) && !less(a, b) && !less(b, a)
}

/// Every pattern is exactly one of finite, infinite and NaN.
pub proof fn lemma_classes(bits: u64)
    ensures
        is_finite(bits) || is_infinite(bits) || is_nan(bits),
        !(is_finite(bits) && is_infinite(bits)),
        !(is_finite(bits) && is_nan(bits)),
        !(is_infinite(bits) && is_nan(bits)),
{
}

} // verus!
