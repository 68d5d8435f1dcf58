//! Rounding keeps the order: of two numbers the greater never rounds to the
//! lesser double, and so adding what is not negative never gives less.

use vstd::prelude::*;
use vstd::arithmetic::power2::{
    lemma2_to64,
    lemma2_to64_rest,
    lemma_pow2_adds,
    lemma_pow2_pos,
    pow2,
};
use vstd::arithmetic::div_mod::{
    lemma_div_is_ordered,
    lemma_fundamental_div_mod,
    lemma_multiply_divide_lt,
    lemma_remainder,
};
use vstd::arithmetic::mul::lemma_mul_is_commutative;
use crate::arithmetic::{
    lemma_pack,
    signed_units,
    spec_difference,
    spec_negate,
    spec_product,
    spec_sum,
};
use crate::double::{
    exponent,
    key,
    significand,
    spec_is_finite,
    spec_is_nan,
    spec_is_negative,
    spec_magnitude,
};
use crate::exactness::{lemma_nearest_of_pattern, lemma_nearest_scaled};
use crate::rounding::{
    bit_length,
    lemma_bit_length,
    lemma_bit_length_le,
    lemma_pow2_le,
    nearest,
    quantum,
    round_half_even,
    scaled_significand,
};

verus! {

/// The greater number is not the shorter.
pub proof fn lemma_bit_length_increases(a: nat, b: nat)
    requires
        a <= b,
    ensures
        bit_length(a) <= bit_length(b),
{
    if b > 0 {
        lemma_bit_length(b);
        lemma_bit_length_le(a, bit_length(b));
    }
}

/// Of two numbers rounded in the same unit, the greater does not come out
/// less.
pub proof fn lemma_round_increases(a: nat, b: nat, d: nat)
    requires
        a <= b,
        d > 0,
    ensures
        round_half_even(a, d) <= round_half_even(b, d),
{
    lemma_div_is_ordered(a as int, b as int, d as int);
    lemma_fundamental_div_mod(a as int, d as int);
    lemma_fundamental_div_mod(b as int, d as int);
    lemma_remainder(a as int, d as int);
    lemma_remainder(b as int, d as int);
    if a / d == b / d {
        let whole = d * (a / d);
        assert(a == whole + a % d);
        assert(b == whole + b % d);
        assert(a % d <= b % d);
    }
}

/// A scaled significand has at most 53 digits, or is 2^53 by a carry; and
/// it has no fewer than 53 digits unless the number lies among the
/// subnormals.
pub proof fn lemma_significand_bounds(n: nat, e: int)
    requires
        n > 0,
    ensures
        scaled_significand(n, e) <= pow2(53),
        bit_length(n) - 53 + e >= -1074 ==> scaled_significand(n, e) >= pow2(52),
{
    let len = bit_length(n);
    let g = quantum(n, e);
    lemma_bit_length(n);
    lemma2_to64();
    lemma2_to64_rest();
    if g <= e {
        let shift = (e - g) as nat;
        lemma_pow2_pos(shift);
        lemma_pow2_adds(len, shift);
        lemma_pow2_le(len + shift, 53);
        assert(n * pow2(shift) < pow2(53)) by (nonlinear_arith)
            requires
                n < pow2(len),
                pow2(len) * pow2(shift) <= pow2(53),
                pow2(shift) > 0,
        ;
        if len - 53 + e >= -1074 {
            lemma_pow2_adds((len - 1) as nat, shift);
            assert(n * pow2(shift) >= pow2(52)) by (nonlinear_arith)
                requires
                    n >= pow2((len - 1) as nat),
                    pow2((len - 1) as nat) * pow2(shift) == pow2(52),
                    pow2(shift) > 0,
            ;
        }
    } else {
        let shift = (g - e) as nat;
        let d = pow2(shift);
        lemma_pow2_pos(shift);
        lemma_pow2_adds(53, shift);
        lemma_pow2_le(len, 53 + shift);
        lemma_mul_is_commutative(pow2(53) as int, d as int);
        lemma_multiply_divide_lt(n as int, d as int, pow2(53) as int);
        assert(n / d < pow2(53));
        if len - 53 + e >= -1074 {
            assert(len == 53 + shift);
            lemma_pow2_adds(52, shift);
            lemma_fundamental_div_mod(n as int, d as int);
            lemma_remainder(n as int, d as int);
            assert(n / d >= pow2(52)) by (nonlinear_arith)
                requires
                    n >= pow2(52) * d,
                    n == d * (n / d) + n % d,
                    0 <= n % d < d,
                    d > 0,
            ;
        }
    }
}

/// Of two numbers, the greater does not round to the lesser double.
pub proof fn lemma_nearest_increases(a: nat, b: nat, e: int)
    requires
        a <= b,
    ensures
        nearest(a, e) <= nearest(b, e),
{
    lemma2_to64_rest();
    if a > 0 {
        lemma_bit_length_increases(a, b);
        lemma_significand_bounds(a, e);
        lemma_significand_bounds(b, e);
        let ga = quantum(a, e);
        let gb = quantum(b, e);
        let sa = scaled_significand(a, e);
        let sb = scaled_significand(b, e);
        if ga == gb {
            if ga <= e {
                lemma_pow2_pos((e - ga) as nat);
                assert(sa <= sb) by (nonlinear_arith)
                    requires
                        sa == a * pow2((e - ga) as nat),
                        sb == b * pow2((e - ga) as nat),
                        a <= b,
                ;
            } else {
                lemma_pow2_pos((ga - e) as nat);
                lemma_round_increases(a, b, pow2((ga - e) as nat));
            }
        } else {
            assert((ga + 1074) * pow2(52) + sa <= (gb + 1074) * pow2(52) + sb) by (nonlinear_arith)
                requires
                    ga + 1 <= gb,
                    sa <= 2 * pow2(52),
                    sb >= pow2(52),
            ;
        }
    }
}

/// The magnitude of a finite double is the nearest double to its units.
proof fn lemma_nearest_of_units(bits: u64, e: int)
    requires
        spec_is_finite(bits),
        e <= exponent(bits),
    ensures
        nearest(significand(bits) * pow2((exponent(bits) - e) as nat), e) == spec_magnitude(bits),
{
    lemma_nearest_of_pattern(bits);
    lemma_nearest_scaled(significand(bits), (exponent(bits) - e) as nat, e);
}

/// Adding a double that is not negative gives no less: the sum of a finite
/// `m` and any `t` from 0.0 upwards, infinity included, is a number and is
/// at least `m`.
pub proof fn lemma_sum_not_below(m: u64, t: u64)
    requires
        spec_is_finite(m),
        !spec_is_nan(t),
        key(t) >= 0,
    ensures
        !spec_is_nan(spec_sum(m, t)),
        key(spec_sum(m, t)) >= key(m),
{
    lemma2_to64_rest();
    if spec_is_finite(t) {
        let e = if exponent(m) <= exponent(t) {
            exponent(m)
        } else {
            exponent(t)
        };
        let um = significand(m) * pow2((exponent(m) - e) as nat);
        let ut = significand(t) * pow2((exponent(t) - e) as nat);
        lemma_nearest_of_units(m, e);
        lemma_pow2_pos((exponent(m) - e) as nat);
        lemma_pow2_pos((exponent(t) - e) as nat);
        lemma_pack(m);
        lemma_pack(t);
        if spec_is_negative(t) {
            assert(significand(t) == 0);
            assert(ut == 0) by (nonlinear_arith)
                requires
                    ut == significand(t) * pow2((exponent(t) - e) as nat),
                    significand(t) == 0,
            ;
        }
        assert(signed_units(t, e) == ut);
        let total = signed_units(m, e) + signed_units(t, e);
        if um == 0 {
            assert(significand(m) == 0) by (nonlinear_arith)
                requires
                    um == significand(m) * pow2((exponent(m) - e) as nat),
                    um == 0,
                    pow2((exponent(m) - e) as nat) > 0,
            ;
            assert(key(m) == 0);
        }
        if total > 0 {
            crate::arithmetic::lemma_nearest_bound(total as nat, e);
            if !spec_is_negative(m) {
                lemma_nearest_increases(um, total as nat, e);
            }
        } else if total < 0 {
            crate::arithmetic::lemma_nearest_bound((-total) as nat, e);
            lemma_nearest_increases((-total) as nat, um, e);
        }
    }
}

/// Taking away a double that is not negative gives no more: the difference
/// of a finite `m` and any `t` from 0.0 upwards, infinity included, is a
/// number and is at most `m`.
pub proof fn lemma_difference_not_above(m: u64, t: u64)
    requires
        spec_is_finite(m),
        !spec_is_nan(t),
        key(t) >= 0,
    ensures
        !spec_is_nan(spec_difference(m, t)),
        key(spec_difference(m, t)) <= key(m),
{
    lemma2_to64_rest();
    let u = spec_negate(t);
    assert(spec_magnitude(u) == spec_magnitude(t));
    if spec_is_finite(t) {
        let e = if exponent(m) <= exponent(u) {
            exponent(m)
        } else {
            exponent(u)
        };
        let um = significand(m) * pow2((exponent(m) - e) as nat);
        let ut = significand(u) * pow2((exponent(u) - e) as nat);
        lemma_nearest_of_units(m, e);
        lemma_pow2_pos((exponent(m) - e) as nat);
        lemma_pow2_pos((exponent(u) - e) as nat);
        lemma_pack(m);
        lemma_pack(u);
        if !spec_is_negative(u) {
            assert(significand(u) == 0);
            assert(ut == 0) by (nonlinear_arith)
                requires
                    ut == significand(u) * pow2((exponent(u) - e) as nat),
                    significand(u) == 0,
            ;
        }
        assert(signed_units(u, e) == -(ut as int));
        let total = signed_units(m, e) + signed_units(u, e);
        if um == 0 {
            assert(significand(m) == 0) by (nonlinear_arith)
                requires
                    um == significand(m) * pow2((exponent(m) - e) as nat),
                    um == 0,
                    pow2((exponent(m) - e) as nat) > 0,
            ;
            assert(key(m) == 0);
        }
        if total > 0 {
            crate::arithmetic::lemma_nearest_bound(total as nat, e);
            lemma_nearest_increases(total as nat, um, e);
        } else if total < 0 {
            crate::arithmetic::lemma_nearest_bound((-total) as nat, e);
            if spec_is_negative(m) {
                lemma_nearest_increases(um, (-total) as nat, e);
            }
        }
    }
}

/// The key of the double nearest to `total * 2^e`, `total` of either sign.
pub open spec fn rounded_key(total: int, e: int) -> int {
    if total >= 0 {
        nearest(total as nat, e) as int
    } else {
        -(nearest((-total) as nat, e) as int)
    }
}

/// The greater total does not round to the lesser key.
pub proof fn lemma_rounded_key_increases(a: int, b: int, e: int)
    requires
        a <= b,
    ensures
        rounded_key(a, e) <= rounded_key(b, e),
{
    if a >= 0 {
        lemma_nearest_increases(a as nat, b as nat, e);
    } else if b < 0 {
        lemma_nearest_increases((-b) as nat, (-a) as nat, e);
    }
}

/// A finite double counts in finer units as many times more as the units
/// are finer.
pub proof fn lemma_signed_units_scaled(bits: u64, e: int, f: int)
    requires
        f <= e <= exponent(bits),
    ensures
        signed_units(bits, f) == signed_units(bits, e) * pow2((e - f) as nat),
{
    lemma_pow2_adds((exponent(bits) - e) as nat, (e - f) as nat);
    let s = significand(bits);
    let p = pow2((exponent(bits) - e) as nat);
    let q = pow2((e - f) as nat);
    assert(s * (p * q) == (s * p) * q) by (nonlinear_arith);
    assert(-(s * (p * q)) == (-(s * p)) * q) by (nonlinear_arith);
}

/// The key of a finite double is the rounded key of its own units.
pub proof fn lemma_key_of_units(bits: u64, e: int)
    requires
        spec_is_finite(bits),
        e <= exponent(bits),
    ensures
        key(bits) == rounded_key(signed_units(bits, e), e),
{
    lemma_nearest_of_units(bits, e);
    lemma_pack(bits);
    let units = significand(bits) * pow2((exponent(bits) - e) as nat);
    lemma_pow2_pos((exponent(bits) - e) as nat);
    if spec_is_negative(bits) && units == 0 {
        assert(significand(bits) == 0) by (nonlinear_arith)
            requires
                units == significand(bits) * pow2((exponent(bits) - e) as nat),
                units == 0,
                pow2((exponent(bits) - e) as nat) > 0,
        ;
    }
}

/// The key of a sum of finite doubles is the rounded key of their units
/// added up, in any units that both can be counted in.
pub proof fn lemma_key_of_sum(a: u64, b: u64, f: int)
    requires
        spec_is_finite(a),
        spec_is_finite(b),
        f <= exponent(a),
        f <= exponent(b),
    ensures
        !spec_is_nan(spec_sum(a, b)),
        key(spec_sum(a, b)) == rounded_key(signed_units(a, f) + signed_units(b, f), f),
{
    lemma2_to64_rest();
    let e = if exponent(a) <= exponent(b) {
        exponent(a)
    } else {
        exponent(b)
    };
    let total = signed_units(a, e) + signed_units(b, e);
    let scale = pow2((e - f) as nat);
    lemma_pow2_pos((e - f) as nat);
    lemma_signed_units_scaled(a, e, f);
    lemma_signed_units_scaled(b, e, f);
    let fine = signed_units(a, f) + signed_units(b, f);
    assert(fine == total * scale) by (nonlinear_arith)
        requires
            fine == signed_units(a, e) * scale + signed_units(b, e) * scale,
            total == signed_units(a, e) + signed_units(b, e),
    ;
    if total > 0 {
        crate::arithmetic::lemma_nearest_bound(total as nat, e);
        lemma_nearest_scaled(total as nat, (e - f) as nat, f);
        assert(fine > 0) by (nonlinear_arith)
            requires
                fine == total * scale,
                total > 0,
                scale > 0,
        ;
    } else if total < 0 {
        crate::arithmetic::lemma_nearest_bound((-total) as nat, e);
        lemma_nearest_scaled((-total) as nat, (e - f) as nat, f);
        assert(fine < 0 && -fine == (-total) * scale) by (nonlinear_arith)
            requires
                fine == total * scale,
                total < 0,
                scale > 0,
        ;
    } else {
        assert(fine == 0) by (nonlinear_arith)
            requires
                fine == total * scale,
                total == 0,
        ;
    }
}

/// Of two finite doubles the one with the lesser key counts no more units.
pub proof fn lemma_units_increase(a: u64, b: u64, f: int)
    requires
        spec_is_finite(a),
        spec_is_finite(b),
        key(a) <= key(b),
        f <= exponent(a),
        f <= exponent(b),
    ensures
        signed_units(a, f) <= signed_units(b, f),
{
    lemma_key_of_units(a, f);
    lemma_key_of_units(b, f);
    let ua = significand(a) * pow2((exponent(a) - f) as nat);
    let ub = significand(b) * pow2((exponent(b) - f) as nat);
    lemma_pow2_pos((exponent(a) - f) as nat);
    lemma_pow2_pos((exponent(b) - f) as nat);
    lemma_pack(a);
    lemma_pack(b);
    assert(ua >= 0 && ub >= 0) by (nonlinear_arith)
        requires
            ua == significand(a) * pow2((exponent(a) - f) as nat),
            ub == significand(b) * pow2((exponent(b) - f) as nat),
            pow2((exponent(a) - f) as nat) > 0,
            pow2((exponent(b) - f) as nat) > 0,
    ;
    if !spec_is_negative(a) && !spec_is_negative(b) {
        crate::ratios::lemma_value_order(a, b, f);
    } else if spec_is_negative(a) && spec_is_negative(b) {
        crate::ratios::lemma_value_order(b, a, f);
    } else if spec_is_negative(b) {
        assert(spec_magnitude(a) == 0 && spec_magnitude(b) == 0);
        assert(significand(a) == 0 && significand(b) == 0);
        assert(ua == 0 && ub == 0) by (nonlinear_arith)
            requires
                ua == significand(a) * pow2((exponent(a) - f) as nat),
                ub == significand(b) * pow2((exponent(b) - f) as nat),
                significand(a) == 0,
                significand(b) == 0,
        ;
    }
}

/// Adding the greater of two numbers gives no less: for a finite `m` and
/// numbers `a` and `b`, infinities included, with `a` at most `b`, the sum
/// of `m` and `a` is at most the sum of `m` and `b`.
pub proof fn lemma_sum_increases(m: u64, a: u64, b: u64)
    requires
        spec_is_finite(m),
        !spec_is_nan(a),
        !spec_is_nan(b),
        key(a) <= key(b),
    ensures
        !spec_is_nan(spec_sum(m, a)),
        !spec_is_nan(spec_sum(m, b)),
        key(spec_sum(m, a)) <= key(spec_sum(m, b)),
{
    lemma2_to64_rest();
    if spec_is_finite(a) && spec_is_finite(b) {
        let e1 = if exponent(m) <= exponent(a) {
            exponent(m)
        } else {
            exponent(a)
        };
        let f = if e1 <= exponent(b) {
            e1
        } else {
            exponent(b)
        };
        lemma_key_of_sum(m, a, f);
        lemma_key_of_sum(m, b, f);
        lemma_units_increase(a, b, f);
        lemma_rounded_key_increases(
            signed_units(m, f) + signed_units(a, f),
            signed_units(m, f) + signed_units(b, f),
            f,
        );
    } else if spec_is_finite(a) {
        lemma_key_of_sum(m, a, -1074);
        lemma_pack(m);
        lemma_pack(a);
        crate::arithmetic::lemma_nearest_bound(
            (signed_units(m, -1074) + signed_units(a, -1074)) as nat,
            -1074,
        );
    } else if spec_is_finite(b) {
        lemma_key_of_sum(m, b, -1074);
        lemma_pack(m);
        lemma_pack(b);
        crate::arithmetic::lemma_nearest_bound(
            (-(signed_units(m, -1074) + signed_units(b, -1074))) as nat,
            -1074,
        );
    }
}

/// The greater of two factors gives no less a product: for finite doubles
/// `a` at most `b`, neither negative, and a finite `s` from 0.0 upwards,
/// the product of `a` and `s` is at most that of `b` and `s`.
pub proof fn lemma_product_increases(a: u64, b: u64, s: u64)
    requires
        spec_is_finite(a),
        spec_is_finite(b),
        spec_is_finite(s),
        !spec_is_negative(a),
        !spec_is_negative(b),
        a <= b,
        key(s) >= 0,
    ensures
        !spec_is_nan(spec_product(a, s)),
        !spec_is_nan(spec_product(b, s)),
        0 <= key(spec_product(a, s)) <= key(spec_product(b, s)),
{
    lemma2_to64_rest();
    lemma_pack(a);
    lemma_pack(b);
    lemma_pack(s);
    let f = if exponent(a) <= exponent(b) {
        exponent(a)
    } else {
        exponent(b)
    };
    let ja = (exponent(a) - f) as nat;
    let jb = (exponent(b) - f) as nat;
    let ss = significand(s);
    crate::ratios::lemma_value_order(a, b, f);
    let ua = significand(a) * pow2(ja);
    let ub = significand(b) * pow2(jb);
    assert(ua * ss <= ub * ss) by (nonlinear_arith)
        requires
            ua <= ub,
            ss >= 0,
    ;
    assert(ua * ss == (significand(a) * ss) * pow2(ja)) by (nonlinear_arith)
        requires
            ua == significand(a) * pow2(ja),
    ;
    assert(ub * ss == (significand(b) * ss) * pow2(jb)) by (nonlinear_arith)
        requires
            ub == significand(b) * pow2(jb),
    ;
    lemma_nearest_scaled(significand(a) * ss, ja, f + exponent(s));
    lemma_nearest_scaled(significand(b) * ss, jb, f + exponent(s));
    lemma_nearest_increases(ua * ss, ub * ss, f + exponent(s));
    crate::arithmetic::lemma_nearest_bound(significand(a) * ss, exponent(a) + exponent(s));
    crate::arithmetic::lemma_nearest_bound(significand(b) * ss, exponent(b) + exponent(s));
    if spec_is_negative(s) {
        assert(ss == 0);
        assert(significand(a) * ss == 0 && significand(b) * ss == 0) by (nonlinear_arith)
            requires
                ss == 0,
        ;
    }
}

} // verus!
