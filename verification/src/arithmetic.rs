//! Arithmetic on doubles given by their bit patterns, in integers: each
//! operation gives the double nearest to the exact result, ties to even, as
//! IEEE 754 asks of the basic operations.
//!
//! A NaN operand gives NaN, and every NaN result is the one pattern `NAN`.

use vstd::prelude::*;
use vstd::arithmetic::power2::{
    lemma2_to64,
    lemma2_to64_rest,
    lemma_pow2_adds,
    lemma_pow2_pos,
    lemma_pow2_unfold,
    pow2,
};
use vstd::arithmetic::div_mod::lemma_fundamental_div_mod_converse;
use crate::double::{
    HIDDEN_BIT,
    INFINITY,
    NAN,
    SIGN_BIT,
    exponent,
    is_infinite,
    is_nan,
    is_negative,
    is_zero,
    significand,
    spec_is_finite,
    spec_is_infinite,
    spec_is_nan,
    spec_is_negative,
    spec_is_zero,
    spec_with_sign,
    unpack,
    with_sign,
};
use crate::rounding::{
    bit_length,
    bit_length_of,
    lemma_bit_length,
    lemma_bit_length_unique,
    lemma_pow2_128,
    lemma_pow2_le,
    nearest,
    nearest_ratio,
    power_of_two,
    quantum,
    round_half_even,
    round_ratio,
    round_scaled,
    scaled_significand,
};

verus! {

/// The double nearest to the exact product of two doubles. An infinity
/// times a zero is NaN; the sign of any other product is negative exactly
/// when the signs of the factors differ.
pub open spec fn spec_product(a: u64, b: u64) -> u64 {
    let negative = spec_is_negative(a) != spec_is_negative(b);
    if spec_is_nan(a) || spec_is_nan(b) {
        NAN
    } else if spec_is_infinite(a) || spec_is_infinite(b) {
        if spec_is_zero(a) || spec_is_zero(b) {
            NAN
        } else {
            spec_with_sign(INFINITY, negative)
        }
    } else {
        spec_with_sign(
            nearest(significand(a) * significand(b), exponent(a) + exponent(b)),
            negative,
        )
    }
}

/// What rounding gives is the pattern of a non-negative double or infinity.
pub proof fn lemma_nearest_bound(n: nat, e: int)
    ensures
        nearest(n, e) <= INFINITY,
{
}

/// Multiplies two doubles.
#[verifier::when_used_as_spec(spec_product)]
pub fn product(a: u64, b: u64) -> (r: u64)
    ensures
        r == spec_product(a, b),
{
    let negative: bool = is_negative(a) != is_negative(b);
    if is_nan(a) || is_nan(b) {
        return NAN;
    }
    if is_infinite(a) || is_infinite(b) {
        if is_zero(a) || is_zero(b) {
            return NAN;
        }
        return with_sign(INFINITY, negative);
    }
    let (sa, ea) = unpack(a);
    let (sb, eb) = unpack(b);
    proof {
        assert(sa * sb < 0x400_0000_0000_0000_0000_0000_0000) by (nonlinear_arith)
            requires
                sa < 0x20_0000_0000_0000,
                sb < 0x20_0000_0000_0000,
        ;
    }
    let exact: u128 = (sa as u128) * (sb as u128);
    with_sign(round_scaled(exact, ea + eb), negative)
}

/// The double nearest to the exact quotient of two doubles. An infinity by
/// an infinity and a zero by a zero are NaN; any other number by a zero is
/// an infinity. The sign is negative exactly when the signs of the two
/// differ.
pub open spec fn spec_quotient(a: u64, b: u64) -> u64 {
    let negative = spec_is_negative(a) != spec_is_negative(b);
    if spec_is_nan(a) || spec_is_nan(b) {
        NAN
    } else if spec_is_infinite(a) {
        if spec_is_infinite(b) {
            NAN
        } else {
            spec_with_sign(INFINITY, negative)
        }
    } else if spec_is_infinite(b) {
        spec_with_sign(0, negative)
    } else if spec_is_zero(b) {
        if spec_is_zero(a) {
            NAN
        } else {
            spec_with_sign(INFINITY, negative)
        }
    } else {
        spec_with_sign(
            nearest_ratio(significand(a), significand(b), exponent(a) - exponent(b)),
            negative,
        )
    }
}

/// Divides the first double by the second.
#[verifier::when_used_as_spec(spec_quotient)]
pub fn quotient(a: u64, b: u64) -> (r: u64)
    ensures
        r == spec_quotient(a, b),
{
    let negative: bool = is_negative(a) != is_negative(b);
    if is_nan(a) || is_nan(b) {
        return NAN;
    }
    if is_infinite(a) {
        if is_infinite(b) {
            return NAN;
        }
        return with_sign(INFINITY, negative);
    }
    if is_infinite(b) {
        return with_sign(0, negative);
    }
    if is_zero(b) {
        if is_zero(a) {
            return NAN;
        }
        return with_sign(INFINITY, negative);
    }
    let (sa, ea) = unpack(a);
    let (sb, eb) = unpack(b);
    with_sign(round_ratio(sa as u128, sb as u128, ea - eb), negative)
}

/// The double with the opposite sign.
pub open spec fn spec_negate(a: u64) -> u64 {
    if a >= SIGN_BIT {
        (a - SIGN_BIT) as u64
    } else {
        (a + SIGN_BIT) as u64
    }
}

/// A finite double in units of `2^e`, as a signed integer; `e` is at most
/// the exponent of the double.
pub open spec fn signed_units(bits: u64, e: int) -> int {
    let units = significand(bits) * pow2((exponent(bits) - e) as nat);
    if spec_is_negative(bits) {
        -units
    } else {
        units as int
    }
}

/// The double nearest to the exact sum of two doubles. Infinities of
/// opposite sign add up to NaN. An exact sum of zero is 0.0, and -0.0 only
/// where both terms are negative zeros.
pub open spec fn spec_sum(a: u64, b: u64) -> u64 {
    if spec_is_nan(a) || spec_is_nan(b) {
        NAN
    } else if spec_is_infinite(a) {
        if spec_is_infinite(b) && spec_is_negative(a) != spec_is_negative(b) {
            NAN
        } else {
            a
        }
    } else if spec_is_infinite(b) {
        b
    } else {
        let e = if exponent(a) <= exponent(b) {
            exponent(a)
        } else {
            exponent(b)
        };
        let total = signed_units(a, e) + signed_units(b, e);
        if total == 0 {
            if spec_is_negative(a) && spec_is_negative(b) {
                SIGN_BIT
            } else {
                0
            }
        } else if total < 0 {
            spec_with_sign(nearest((-total) as nat, e), true)
        } else {
            spec_with_sign(nearest(total as nat, e), false)
        }
    }
}

/// The double nearest to the exact difference: the sum of the first and
/// the negated second.
pub open spec fn spec_difference(a: u64, b: u64) -> u64 {
    spec_sum(a, spec_negate(b))
}

/// A finite pattern is its exponent field in front of its fraction.
pub proof fn lemma_pack(bits: u64)
    requires
        spec_is_finite(bits),
    ensures
        crate::double::spec_magnitude(bits) == (exponent(bits) + 1074) * HIDDEN_BIT + significand(
            bits,
        ),
        significand(bits) < 2 * HIDDEN_BIT,
        -1074 <= exponent(bits) <= 971,
        exponent(bits) > -1074 ==> significand(bits) >= HIDDEN_BIT,
{
}

/// A term more than 54 binary places below the last place of a normal
/// double is lost when it is added: the sum rounds to the double itself.
proof fn lemma_absorb_plus(sh: nat, eh: int, sl: nat, d: nat)
    requires
        pow2(52) <= sh < pow2(53),
        sl < pow2(53),
        d >= 55,
        eh - d >= -1074,
        eh <= 971,
    ensures
        nearest(sh * pow2(d) + sl, eh - d) == (eh + 1074) * pow2(52) + sh,
{
    let big = pow2(d);
    let n = sh * big + sl;
    lemma2_to64_rest();
    lemma_pow2_le(55, d);
    lemma_pow2_adds(52, d);
    lemma_pow2_adds(53, d);
    assert(pow2(52) * big <= n < pow2(53) * big) by (nonlinear_arith)
        requires
            n == sh * big + sl,
            pow2(52) <= sh < pow2(53),
            sl < big,
    ;
    lemma_bit_length_unique(n, 53 + d);
    assert(quantum(n, eh - d) == eh);
    lemma_fundamental_div_mod_converse(n as int, big as int, sh as int, sl as int);
    assert(round_half_even(n, big) == sh);
    assert(scaled_significand(n, eh - d) == sh);
    assert((eh + 1074) * pow2(52) + sh < INFINITY) by (nonlinear_arith)
        requires
            eh + 1074 <= 2045,
            sh < 0x20_0000_0000_0000,
            pow2(52) == 0x10_0000_0000_0000,
            INFINITY == 0x7ff0_0000_0000_0000,
    ;
}

/// A term more than 54 binary places below the last place of a normal
/// double is lost when it is taken away: the difference rounds to the
/// double itself.
proof fn lemma_absorb_minus(sh: nat, eh: int, sl: nat, d: nat)
    requires
        pow2(52) <= sh < pow2(53),
        0 < sl < pow2(53),
        d >= 55,
        eh - d >= -1074,
        eh <= 971,
    ensures
        sh * pow2(d) > sl,
        nearest((sh * pow2(d) - sl) as nat, eh - d) == (eh + 1074) * pow2(52) + sh,
{
    let big = pow2(d);
    lemma2_to64_rest();
    lemma_pow2_le(55, d);
    lemma_pow2_adds(52, d);
    lemma_pow2_adds(53, d);
    assert(sh * big > sl) by (nonlinear_arith)
        requires
            sh >= 1,
            big > sl,
    ;
    let n = (sh * big - sl) as nat;
    assert((eh + 1074) * pow2(52) + sh < INFINITY) by (nonlinear_arith)
        requires
            eh + 1074 <= 2045,
            sh < 0x20_0000_0000_0000,
            pow2(52) == 0x10_0000_0000_0000,
            INFINITY == 0x7ff0_0000_0000_0000,
    ;
    if sh > pow2(52) {
        assert(n == (sh - 1) * big + (big - sl)) by (nonlinear_arith)
            requires
                n == sh * big - sl,
        ;
        assert(pow2(52) * big <= n < pow2(53) * big) by (nonlinear_arith)
            requires
                n == (sh - 1) * big + (big - sl),
                pow2(52) <= sh - 1,
                sh < pow2(53),
                0 < sl < big,
        ;
        lemma_bit_length_unique(n, 53 + d);
        assert(quantum(n, eh - d) == eh);
        lemma_fundamental_div_mod_converse(
            n as int,
            big as int,
            (sh - 1) as int,
            (big - sl) as int,
        );
        assert(round_half_even(n, big) == sh);
        assert(scaled_significand(n, eh - d) == sh);
    } else {
        let half = pow2((d - 1) as nat);
        lemma_pow2_unfold(d);
        lemma_pow2_le(54, (d - 1) as nat);
        lemma_pow2_adds(51, d);
        lemma_pow2_adds(52, d);
        let top = (pow2(53) - 1) as nat;
        assert(n == top * half + (half - sl)) by (nonlinear_arith)
            requires
                n == sh * big - sl,
                sh == pow2(52),
                big == 2 * half,
                pow2(53) == 2 * pow2(52),
                top == pow2(53) - 1,
        ;
        assert(pow2(51) * big <= n < pow2(52) * big) by (nonlinear_arith)
            requires
                n == sh * big - sl,
                sh == pow2(52),
                pow2(52) == 2 * pow2(51),
                0 < sl,
                sl < pow2(53),
                pow2(53) == 4 * pow2(51),
                big >= 4,
                pow2(51) > 0,
        ;
        lemma_bit_length_unique(n, 52 + d);
        assert(quantum(n, eh - d) == eh - 1);
        lemma_fundamental_div_mod_converse(
            n as int,
            half as int,
            top as int,
            (half - sl) as int,
        );
        assert(round_half_even(n, half) == pow2(53));
        assert(scaled_significand(n, eh - d) == pow2(53));
        assert((eh - 1 + 1074) * pow2(52) + pow2(53) == (eh + 1074) * pow2(52) + sh)
            by (nonlinear_arith)
            requires
                sh == pow2(52),
                pow2(53) == 2 * pow2(52),
        ;
    }
}

/// The double with the opposite sign.
#[verifier::when_used_as_spec(spec_negate)]
pub fn negate(a: u64) -> (r: u64)
    ensures
        r == spec_negate(a),
{
    if a >= SIGN_BIT {
        a - SIGN_BIT
    } else {
        a + SIGN_BIT
    }
}

/// Adds two finite doubles, the first with the greater or the same exponent.
fn sum_ordered(hi: u64, lo: u64) -> (r: u64)
    requires
        spec_is_finite(hi),
        spec_is_finite(lo),
        exponent(hi) >= exponent(lo),
    ensures
        r == spec_sum(hi, lo),
        r == spec_sum(lo, hi),
{
    let (sh, eh) = unpack(hi);
    let (sl, el) = unpack(lo);
    let nh: bool = is_negative(hi);
    let nl: bool = is_negative(lo);
    let d: i64 = eh - el;
    proof {
        lemma2_to64();
        lemma2_to64_rest();
        lemma_pack(hi);
        lemma_pack(lo);
        assert(signed_units(lo, el as int) == if nl {
            -(sl as int)
        } else {
            sl as int
        }) by (nonlinear_arith)
            requires
                signed_units(lo, el as int) == if nl {
                    -(sl * pow2(0))
                } else {
                    sl * pow2(0)
                },
                pow2(0) == 1,
        ;
    }
    if d > 64 {
        proof {
            let big = pow2(d as nat);
            lemma_pow2_pos(d as nat);
            if sl == 0 {
                lemma_absorb_plus(sh as nat, eh as int, 0, d as nat);
                assert(sh * big > 0) by (nonlinear_arith)
                    requires
                        sh > 0,
                        big > 0,
                ;
            } else if nh == nl {
                lemma_absorb_plus(sh as nat, eh as int, sl as nat, d as nat);
                assert(sh * big > 0) by (nonlinear_arith)
                    requires
                        sh > 0,
                        big > 0,
                ;
            } else {
                lemma_absorb_minus(sh as nat, eh as int, sl as nat, d as nat);
            }
        }
        return hi;
    }
    proof {
        lemma_pow2_128();
        lemma_pow2_le(d as nat, 64);
        assert(sh * pow2(d as nat) < 0x20_0000_0000_0000 * 0x1_0000_0000_0000_0000)
            by (nonlinear_arith)
            requires
                sh < 0x20_0000_0000_0000,
                pow2(d as nat) <= 0x1_0000_0000_0000_0000,
        ;
    }
    let th: u128 = (sh as u128) * power_of_two(d as u32);
    let tl: u128 = sl as u128;
    if nh == nl {
        with_sign(round_scaled(th + tl, el), nh)
    } else if th > tl {
        with_sign(round_scaled(th - tl, el), nh)
    } else if th < tl {
        with_sign(round_scaled(tl - th, el), nl)
    } else {
        0
    }
}

/// Adds two doubles.
#[verifier::when_used_as_spec(spec_sum)]
pub fn sum(a: u64, b: u64) -> (r: u64)
    ensures
        r == spec_sum(a, b),
{
    if is_nan(a) || is_nan(b) {
        return NAN;
    }
    if is_infinite(a) {
        if is_infinite(b) && is_negative(a) != is_negative(b) {
            return NAN;
        }
        return a;
    }
    if is_infinite(b) {
        return b;
    }
    let (_, ea) = unpack(a);
    let (_, eb) = unpack(b);
    if ea >= eb {
        sum_ordered(a, b)
    } else {
        sum_ordered(b, a)
    }
}

/// Takes the second double from the first.
#[verifier::when_used_as_spec(spec_difference)]
pub fn difference(a: u64, b: u64) -> (r: u64)
    ensures
        r == spec_difference(a, b),
{
    sum(a, negate(b))
}

/// The greatest integer whose square is at most `x`.
pub open spec fn integer_sqrt(x: nat) -> nat
    decreases x,
{
    if x == 0 {
        0
    } else {
        let r = integer_sqrt((x - 1) as nat);
        if (r + 1) * (r + 1) <= x {
            r + 1
        } else {
            r
        }
    }
}

/// The integer nearest to the square root of `x`. The root of an integer
/// never lies halfway between two integers, so there are no ties.
pub open spec fn round_sqrt(x: nat) -> nat {
    let r = integer_sqrt(x);
    if x > r * r + r {
        r + 1
    } else {
        r
    }
}

/// The pattern of the double nearest to the square root of `s * 2^e`, for
/// `0 < s < 2^53`: the significand is brought to 53 binary digits and, with
/// an even exponent, to 53 or 54; 52 more places are appended, and the
/// nearest integer to the root of that is a significand of 53 digits, at
/// half the exponent.
pub open spec fn root_pattern(s: nat, e: int) -> int {
    let j = 53 - bit_length(s);
    let s1 = s * pow2(j as nat);
    let e1 = e - j;
    let s2 = if e1 % 2 != 0 {
        2 * s1
    } else {
        s1
    };
    let e2 = if e1 % 2 != 0 {
        e1 - 1
    } else {
        e1
    };
    ((e2 - 52) / 2 + 1074) * pow2(52) + round_sqrt(s2 * pow2(52))
}

/// The double nearest to the square root of a double. The root of a
/// negative number is NaN; that of a zero is the zero itself.
pub open spec fn spec_square_root(a: u64) -> u64 {
    if spec_is_nan(a) {
        NAN
    } else if spec_is_zero(a) {
        a
    } else if spec_is_negative(a) {
        NAN
    } else if spec_is_infinite(a) {
        a
    } else {
        root_pattern(significand(a), exponent(a)) as u64
    }
}

/// The integer root lies between the squares that the definition names.
pub proof fn lemma_integer_sqrt(x: nat)
    ensures
        integer_sqrt(x) * integer_sqrt(x) <= x < (integer_sqrt(x) + 1) * (integer_sqrt(x) + 1),
    decreases x,
{
    if x > 0 {
        lemma_integer_sqrt((x - 1) as nat);
        let r = integer_sqrt((x - 1) as nat);
        assert((r + 1) * (r + 1) < (r + 2) * (r + 2)) by (nonlinear_arith)
            requires
                r >= 0,
        ;
        assert((r + 1 + 1) * (r + 1 + 1) == (r + 2) * (r + 2));
    } else {
        assert(integer_sqrt(0) == 0);
        assert((0 + 1) * (0 + 1) == 1) by (nonlinear_arith);
    }
}

/// The integer root is the only `r` with `r * r <= x < (r + 1) * (r + 1)`.
pub proof fn lemma_integer_sqrt_unique(x: nat, r: nat)
    requires
        r * r <= x < (r + 1) * (r + 1),
    ensures
        integer_sqrt(x) == r,
{
    lemma_integer_sqrt(x);
    let t = integer_sqrt(x);
    if t < r {
        assert((t + 1) * (t + 1) <= r * r) by (nonlinear_arith)
            requires
                t + 1 <= r,
        ;
    } else if t > r {
        assert((r + 1) * (r + 1) <= t * t) by (nonlinear_arith)
            requires
                r + 1 <= t,
        ;
    }
}

/// The greatest integer whose square is at most `x`.
fn integer_sqrt_of(x: u128) -> (r: u128)
    requires
        x < 0x400_0000_0000_0000_0000_0000_0000,
    ensures
        r == integer_sqrt(x as nat),
        r < 0x20_0000_0000_0000,
{
    let mut lo: u128 = 0;
    let mut hi: u128 = 0x20_0000_0000_0000;
    proof {
        assert(0x20_0000_0000_0000u128 * 0x20_0000_0000_0000u128
            == 0x400_0000_0000_0000_0000_0000_0000) by (nonlinear_arith);
    }
    while hi - lo > 1
        invariant
            lo < hi <= 0x20_0000_0000_0000,
            lo * lo <= x < hi * hi,
        decreases hi - lo,
    {
        let mid: u128 = lo + (hi - lo) / 2;
        proof {
            assert(mid * mid < 0x20_0000_0000_0000 * 0x20_0000_0000_0000) by (nonlinear_arith)
                requires
                    mid < 0x20_0000_0000_0000,
            ;
        }
        if mid * mid <= x {
            lo = mid;
        } else {
            hi = mid;
        }
    }
    proof {
        lemma_integer_sqrt_unique(x as nat, lo as nat);
    }
    lo
}

/// The square root of a double.
#[verifier::when_used_as_spec(spec_square_root)]
pub fn square_root(a: u64) -> (r: u64)
    ensures
        r == spec_square_root(a),
{
    if is_nan(a) {
        return NAN;
    }
    if is_zero(a) {
        return a;
    }
    if is_negative(a) {
        return NAN;
    }
    if is_infinite(a) {
        return a;
    }
    let (s, e) = unpack(a);
    let len: u32 = bit_length_of(s as u128);
    proof {
        lemma2_to64();
        lemma2_to64_rest();
        lemma_pack(a);
        lemma_bit_length(s as nat);
        crate::rounding::lemma_bit_length_le(s as nat, 53);
    }
    let j: u32 = 53 - len;
    proof {
        lemma_pow2_adds(len as nat, j as nat);
        lemma_pow2_adds((len - 1) as nat, j as nat);
        lemma_pow2_le(j as nat, 52);
        assert(pow2(52) <= s * pow2(j as nat) < pow2(53)) by (nonlinear_arith)
            requires
                pow2((len - 1) as nat) <= s < pow2(len as nat),
                pow2(len as nat) * pow2(j as nat) == pow2(53),
                pow2((len - 1) as nat) * pow2(j as nat) == pow2(52),
                pow2(j as nat) > 0,
        ;
    }
    let s1: u128 = (s as u128) * power_of_two(j);
    let e1: i64 = e - j as i64;
    let odd: bool = (e1 + 2000) % 2 == 1;
    let s2: u128 = if odd {
        2 * s1
    } else {
        s1
    };
    let e2: i64 = if odd {
        e1 - 1
    } else {
        e1
    };
    let x: u128 = s2 * 0x10_0000_0000_0000;
    let root: u128 = integer_sqrt_of(x);
    proof {
        lemma_integer_sqrt(x as nat);
        assert(root * root + root < 0x400_0000_0000_0000_0000_0000_0000 + 0x20_0000_0000_0000)
            by (nonlinear_arith)
            requires
                root * root <= x,
                x < 0x400_0000_0000_0000_0000_0000_0000,
                root < 0x20_0000_0000_0000,
        ;
    }
    let sig: u128 = if x > root * root + root {
        root + 1
    } else {
        root
    };
    let field: i64 = (e2 + 1948) / 2 + 74;
    proof {
        assert(field == (e2 - 52) / 2 + 1074);
        assert(sig == round_sqrt(x as nat));
        assert(x == s2 * pow2(52));
    }
    let bits: u128 = (field as u128) * 0x10_0000_0000_0000 + sig;
    bits as u64
}

/// The double nearest to a natural number.
pub open spec fn spec_from_usize(n: usize) -> u64 {
    nearest(n as nat, 0)
}

/// The whole part of a non-negative finite double.
pub open spec fn whole_part(bits: u64) -> nat {
    if exponent(bits) >= 0 {
        significand(bits) * pow2(exponent(bits) as nat)
    } else {
        significand(bits) / pow2((-exponent(bits)) as nat)
    }
}

/// Whether a finite double is a whole number.
pub open spec fn is_whole(bits: u64) -> bool {
    exponent(bits) >= 0 || significand(bits) % pow2((-exponent(bits)) as nat) == 0
}

/// A natural number as a `usize`, the greatest `usize` where it is too big.
pub open spec fn saturate(v: nat) -> usize {
    if v > usize::MAX {
        usize::MAX
    } else {
        v as usize
    }
}

/// The double rounded towards zero to a `usize`: 0 for NaN and for every
/// negative double, the greatest `usize` for what lies beyond it.
pub open spec fn spec_to_usize(bits: u64) -> usize {
    if spec_is_nan(bits) || spec_is_negative(bits) {
        0
    } else if spec_is_infinite(bits) {
        usize::MAX
    } else {
        saturate(whole_part(bits))
    }
}

/// The double rounded upwards to a `usize`: 0 for NaN and for every
/// negative double, the greatest `usize` for what lies beyond it.
pub open spec fn spec_ceiling_to_usize(bits: u64) -> usize {
    if spec_is_nan(bits) || spec_is_negative(bits) {
        0
    } else if spec_is_infinite(bits) {
        usize::MAX
    } else if is_whole(bits) {
        saturate(whole_part(bits))
    } else {
        saturate(whole_part(bits) + 1)
    }
}

/// The double nearest to a natural number.
#[verifier::when_used_as_spec(spec_from_usize)]
pub fn from_usize(n: usize) -> (r: u64)
    ensures
        r == spec_from_usize(n),
{
    round_scaled(n as u128, 0)
}

/// The whole part of a non-negative finite double, and whether the double
/// is a whole number. The whole part is given up to 2^64, and as 2^64 where
/// it is more.
fn split(bits: u64) -> (r: (u128, bool))
    requires
        spec_is_finite(bits),
        !spec_is_negative(bits),
    ensures
        r.0 <= 0x1_0000_0000_0000_0000,
        r.0 < 0x1_0000_0000_0000_0000 ==> r.0 == whole_part(bits),
        r.0 == 0x1_0000_0000_0000_0000 ==> whole_part(bits) >= 0x1_0000_0000_0000_0000,
        r.1 == is_whole(bits),
{
    let (s, e) = unpack(bits);
    proof {
        lemma2_to64();
        lemma2_to64_rest();
        lemma_pow2_128();
        lemma_pack(bits);
    }
    if e >= 0 {
        if e > 11 {
            proof {
                lemma_pow2_le(12, e as nat);
                assert(s * pow2(e as nat) >= 0x10_0000_0000_0000 * 0x1000) by (nonlinear_arith)
                    requires
                        s >= 0x10_0000_0000_0000,
                        pow2(e as nat) >= 0x1000,
                ;
            }
            (0x1_0000_0000_0000_0000, true)
        } else {
            proof {
                lemma_pow2_le(e as nat, 11);
                assert(s * pow2(e as nat) < 0x20_0000_0000_0000 * 0x800) by (nonlinear_arith)
                    requires
                        s < 0x20_0000_0000_0000,
                        pow2(e as nat) <= 0x800,
                ;
            }
            ((s as u128) * power_of_two(e as u32), true)
        }
    } else {
        let shift: i64 = -e;
        if shift >= 64 {
            proof {
                lemma_pow2_le(64, shift as nat);
                vstd::arithmetic::div_mod::lemma_basic_div(s as int, pow2(shift as nat) as int);
                vstd::arithmetic::div_mod::lemma_small_mod(s as nat, pow2(shift as nat));
            }
            (0, s == 0)
        } else {
            let unit: u128 = power_of_two(shift as u32);
            proof {
                lemma_pow2_pos(shift as nat);
                vstd::arithmetic::div_mod::lemma_div_decreases(s as int, unit as int);
                if unit == 1 {
                    lemma_pow2_le(1, shift as nat);
                }
                vstd::arithmetic::div_mod::lemma_div_pos_is_pos(s as int, unit as int);
            }
            ((s as u128) / unit, (s as u128) % unit == 0)
        }
    }
}

/// Rounds a double towards zero to a `usize`.
#[verifier::when_used_as_spec(spec_to_usize)]
pub fn to_usize(bits: u64) -> (r: usize)
    ensures
        r == spec_to_usize(bits),
{
    if is_nan(bits) || is_negative(bits) {
        return 0;
    }
    if is_infinite(bits) {
        return usize::MAX;
    }
    let (whole, _) = split(bits);
    if whole > usize::MAX as u128 {
        usize::MAX
    } else {
        whole as usize
    }
}

/// Rounds a double upwards to a `usize`.
#[verifier::when_used_as_spec(spec_ceiling_to_usize)]
pub fn ceiling_to_usize(bits: u64) -> (r: usize)
    ensures
        r == spec_ceiling_to_usize(bits),
{
    if is_nan(bits) || is_negative(bits) {
        return 0;
    }
    if is_infinite(bits) {
        return usize::MAX;
    }
    let (whole, exact) = split(bits);
    let up: u128 = if exact {
        whole
    } else {
        whole + 1
    };
    if up > usize::MAX as u128 {
        usize::MAX
    } else {
        up as usize
    }
}

} // verus!
