//! Where rounding changes nothing: what the arithmetic gives when the exact
//! result is a double.

use vstd::prelude::*;
use vstd::arithmetic::power2::{
    lemma2_to64,
    lemma2_to64_rest,
    lemma_pow2_adds,
    lemma_pow2_pos,
    pow2,
};
use vstd::arithmetic::div_mod::{
    lemma_div_multiples_vanish_quotient,
    lemma_fundamental_div_mod_converse,
    lemma_truncate_middle,
};
use vstd::arithmetic::mul::{lemma_mul_is_associative, lemma_mul_is_commutative};
use crate::arithmetic::{
    integer_sqrt,
    is_whole,
    lemma_integer_sqrt,
    lemma_integer_sqrt_unique,
    lemma_pack,
    root_pattern,
    round_sqrt,
    signed_units,
    spec_ceiling_to_usize,
    spec_difference,
    spec_negate,
    spec_product,
    spec_quotient,
    spec_square_root,
    spec_to_usize,
    whole_part,
};
use crate::double::{
    HALF,
    HIDDEN_BIT,
    HUNDRED,
    INFINITY,
    ONE,
    SIGN_BIT,
    exponent,
    key,
    significand,
    spec_is_finite,
    spec_is_nan,
    spec_is_negative,
    spec_is_zero,
    spec_magnitude,
};
use crate::rounding::{
    bit_length,
    lemma_bit_length,
    lemma_bit_length_le,
    lemma_bit_length_unique,
    lemma_pow2_le,
    nearest,
    nearest_ratio,
    quantum,
    ratio_length,
    ratio_quantum,
    ratio_significand,
    round_half_even,
    scaled_significand,
};

verus! {

/// Appending `j` zero digits makes a positive number `j` digits longer.
pub proof fn lemma_bit_length_scaled(n: nat, j: nat)
    requires
        n > 0,
    ensures
        bit_length(n * pow2(j)) == bit_length(n) + j,
{
    lemma_bit_length(n);
    let len = bit_length(n);
    lemma_pow2_adds((len - 1) as nat, j);
    lemma_pow2_adds(len, j);
    lemma_pow2_pos(j);
    assert(pow2((len - 1) as nat) * pow2(j) <= n * pow2(j) < pow2(len) * pow2(j))
        by (nonlinear_arith)
        requires
            pow2((len - 1) as nat) <= n < pow2(len),
            pow2(j) > 0,
    ;
    lemma_bit_length_unique(n * pow2(j), len + j);
}

/// A quotient that comes out even is not changed by rounding.
pub proof fn lemma_round_exact(q: nat, d: nat)
    requires
        d > 0,
    ensures
        round_half_even(q * d, d) == q,
{
    lemma_fundamental_div_mod_converse((q * d) as int, d as int, q as int, 0);
}

/// Rounding a quotient does not depend on a common factor of its two parts.
pub proof fn lemma_round_common_factor(n: nat, d: nat, c: nat)
    requires
        d > 0,
        c > 0,
    ensures
        round_half_even(n * c, d * c) == round_half_even(n, d),
{
    lemma_div_multiples_vanish_quotient(c as int, n as int, d as int);
    lemma_truncate_middle(n as int, c as int, d as int);
    lemma_mul_is_commutative(n as int, c as int);
    lemma_mul_is_commutative(d as int, c as int);
    let r = n % d;
    assert((n * c) % (d * c) == c * r);
    assert((2 * (c * r) < d * c) == (2 * r < d)) by (nonlinear_arith)
        requires
            c > 0,
    ;
    assert((2 * (c * r) == d * c) == (2 * r == d)) by (nonlinear_arith)
        requires
            c > 0,
    ;
}

/// What matters to rounding is the number that is rounded, whichever way it
/// is split into an integer and a power of two.
pub proof fn lemma_nearest_scaled(n: nat, j: nat, e: int)
    ensures
        nearest(n * pow2(j), e) == nearest(n, e + j),
{
    lemma_pow2_pos(j);
    if n == 0 {
        assert(n * pow2(j) == 0) by (nonlinear_arith)
            requires
                n == 0,
        ;
    } else {
        let big = n * pow2(j);
        assert(big > 0) by (nonlinear_arith)
            requires
                big == n * pow2(j),
                n > 0,
                pow2(j) > 0,
        ;
        lemma_bit_length_scaled(n, j);
        let g = quantum(n, e + j);
        assert(quantum(big, e) == g);
        if g <= e {
            lemma_pow2_adds(j, (e - g) as nat);
            lemma_mul_is_associative(n as int, pow2(j) as int, pow2((e - g) as nat) as int);
        } else if g <= e + j {
            let d = pow2((g - e) as nat);
            let rest = pow2((e + j - g) as nat);
            lemma_pow2_pos((g - e) as nat);
            lemma_pow2_adds((e + j - g) as nat, (g - e) as nat);
            lemma_mul_is_associative(n as int, rest as int, d as int);
            lemma_round_exact(n * rest, d);
        } else {
            let d = pow2((g - e - j) as nat);
            lemma_pow2_pos((g - e - j) as nat);
            lemma_pow2_adds((g - e - j) as nat, j);
            lemma_round_common_factor(n, d, pow2(j));
        }
        assert(scaled_significand(big, e) == scaled_significand(n, e + j));
    }
}

/// What rounding gives where nothing is cut off: the significand is the
/// number itself, brought to the quantum, and the exponent is the quantum.
pub proof fn lemma_nearest_unpacked(n: nat, e: int)
    requires
        n > 0,
        quantum(n, e) <= e,
        quantum(n, e) <= 971,
    ensures
        spec_is_finite(nearest(n, e)),
        !spec_is_negative(nearest(n, e)),
        significand(nearest(n, e)) == n * pow2((e - quantum(n, e)) as nat),
        exponent(nearest(n, e)) == quantum(n, e),
{
    let g = quantum(n, e);
    let len = bit_length(n);
    let shift = (e - g) as nat;
    let sig = n * pow2(shift);
    lemma2_to64();
    lemma2_to64_rest();
    lemma_bit_length(n);
    lemma_pow2_pos(shift);
    lemma_pow2_adds(len, shift);
    lemma_pow2_le(len + shift, 53);
    assert(sig < pow2(53)) by (nonlinear_arith)
        requires
            sig == n * pow2(shift),
            n < pow2(len),
            pow2(len) * pow2(shift) <= pow2(53),
            pow2(shift) > 0,
    ;
    if g > -1074 {
        lemma_pow2_adds((len - 1) as nat, shift);
        assert(sig >= pow2(52)) by (nonlinear_arith)
            requires
                sig == n * pow2(shift),
                n >= pow2((len - 1) as nat),
                pow2((len - 1) as nat) * pow2(shift) == pow2(52),
                pow2(shift) > 0,
        ;
    }
    assert(scaled_significand(n, e) == sig);
    let bits = (g + 1074) * pow2(52) + sig;
    assert(bits < INFINITY);
    assert(nearest(n, e) == bits);
}

/// A finite double is the nearest double to itself.
pub proof fn lemma_nearest_of_pattern(bits: u64)
    requires
        spec_is_finite(bits),
    ensures
        nearest(significand(bits), exponent(bits)) == spec_magnitude(bits),
{
    let s = significand(bits);
    let x = exponent(bits);
    lemma_pack(bits);
    lemma2_to64();
    lemma2_to64_rest();
    if s > 0 {
        if x > -1074 {
            lemma_bit_length_unique(s, 53);
        } else {
            lemma_bit_length_le(s, 53);
        }
        assert(quantum(s, x) == x);
        assert(s * pow2(0) == s);
    }
}

/// The nearest double to 1/2, to 1 and to 2.
pub proof fn lemma_nearest_of_one(e: int)
    requires
        -1 <= e <= 1,
    ensures
        nearest(1, e) == (e + 1023) * HIDDEN_BIT,
{
    lemma2_to64();
    lemma2_to64_rest();
    lemma_bit_length_unique(1, 1);
    assert(quantum(1, e) == e - 52);
    assert(1 * pow2(52) == pow2(52));
}

/// The ratio of a number to itself rounds as the number one does.
pub proof fn lemma_ratio_of_equals(n: nat, e: int)
    requires
        n > 0,
    ensures
        nearest_ratio(n, n, e) == nearest(1, e),
{
    let k = bit_length(n);
    lemma2_to64();
    lemma_pow2_pos(k);
    lemma_round_exact(pow2(k), n);
    lemma_mul_is_commutative(n as int, pow2(k) as int);
    lemma_fundamental_div_mod_converse((n * pow2(k)) as int, n as int, pow2(k) as int, 0);
    assert((n * pow2(k)) / n == pow2(k));
    assert(pow2(k) == 1 * pow2(k));
    lemma_bit_length_unique(1, 1);
    lemma_bit_length_scaled(1, k);
    assert(ratio_length(n, n) == 1);
    let g = ratio_quantum(n, n, e);
    assert(g == quantum(1, e));
    if g <= e {
        let scale = pow2((e - g) as nat);
        lemma_mul_is_commutative(n as int, scale as int);
        lemma_round_exact(scale, n);
        assert(1 * scale == scale);
    } else {
        let scale = pow2((g - e) as nat);
        lemma_pow2_pos((g - e) as nat);
        lemma_mul_is_commutative(n as int, scale as int);
        assert(1 * n == n);
        lemma_round_common_factor(1, scale, n);
    }
    assert(ratio_significand(n, n, e) == scaled_significand(1, e));
}

/// The double of a natural number below 2^53 is the number itself: its
/// significand is the number with zero digits appended to make 53.
pub proof fn lemma_whole_unpacked(n: nat)
    requires
        0 < n < pow2(53),
    ensures
        1 <= bit_length(n) <= 53,
        spec_is_finite(nearest(n, 0)),
        !spec_is_negative(nearest(n, 0)),
        significand(nearest(n, 0)) == n * pow2((53 - bit_length(n)) as nat),
        exponent(nearest(n, 0)) == bit_length(n) - 53,
{
    lemma_bit_length(n);
    lemma_bit_length_le(n, 53);
    lemma_nearest_unpacked(n, 0);
}

/// One less than the double of a natural number is the double of the
/// number before it.
pub proof fn lemma_less_one(n: nat)
    requires
        1 <= n < pow2(53),
    ensures
        spec_difference(nearest(n, 0), ONE) == nearest((n - 1) as nat, 0),
{
    lemma2_to64();
    lemma2_to64_rest();
    lemma_whole_unpacked(n);
    let a = nearest(n, 0);
    let b = spec_negate(ONE);
    let len = bit_length(n);
    assert(significand(b) == pow2(52) && exponent(b) == -52 && spec_is_negative(b));
    assert(spec_is_finite(b));
    lemma_pow2_adds((53 - len) as nat, (len - 1) as nat);
    lemma_mul_is_associative(
        n as int,
        pow2((53 - len) as nat) as int,
        pow2((len - 1) as nat) as int,
    );
    assert(signed_units(a, -52) == n * pow2(52));
    assert(signed_units(b, -52) == -(pow2(52) as int)) by (nonlinear_arith)
        requires
            signed_units(b, -52) == -(pow2(52) * pow2(0)),
            pow2(0) == 1,
    ;
    let total = signed_units(a, -52) + signed_units(b, -52);
    assert(total == (n - 1) * pow2(52)) by (nonlinear_arith)
        requires
            total == n * pow2(52) - pow2(52),
    ;
    if n > 1 {
        assert(total > 0) by (nonlinear_arith)
            requires
                total == (n - 1) * pow2(52),
                n > 1,
                pow2(52) > 0,
        ;
        lemma_nearest_scaled((n - 1) as nat, 52, -52);
        crate::arithmetic::lemma_nearest_bound(total as nat, -52);
    }
}

/// Half the double of a natural number below 2^53 is the nearest double to
/// half the number, which is exact.
pub proof fn lemma_half_of_whole(k: nat)
    requires
        k < pow2(53),
    ensures
        spec_product(HALF, nearest(k, 0)) == nearest(k, -1),
{
    lemma2_to64();
    lemma2_to64_rest();
    assert(significand(HALF) == pow2(52) && exponent(HALF) == -53);
    if k == 0 {
        assert(significand(0) == 0);
        assert(pow2(52) * 0 == 0);
    } else {
        lemma_whole_unpacked(k);
        let len = bit_length(k);
        let c = nearest(k, 0);
        let pad = pow2((53 - len) as nat);
        lemma_pow2_adds((53 - len) as nat, 52);
        assert(significand(HALF) * significand(c) == k * pow2((105 - len) as nat))
            by (nonlinear_arith)
            requires
                significand(HALF) == pow2(52),
                significand(c) == k * pad,
                pad * pow2(52) == pow2((105 - len) as nat),
        ;
        lemma_nearest_scaled(k, (105 - len) as nat, -53 + len - 53);
        crate::arithmetic::lemma_nearest_bound(k, -1);
    }
}

/// The whole parts of half a natural number: rounded down it is the
/// quotient by two, rounded up one more where the number is odd.
pub proof fn lemma_half_whole_parts(k: nat)
    requires
        k < pow2(53),
        k <= usize::MAX,
    ensures
        spec_to_usize(nearest(k, -1)) == k / 2,
        spec_ceiling_to_usize(nearest(k, -1)) == (k + 1) / 2,
{
    lemma2_to64();
    lemma2_to64_rest();
    let r = nearest(k, -1);
    if k == 0 {
        assert(significand(0) == 0 && exponent(0) == -1074);
        lemma_pow2_pos(1074);
        vstd::arithmetic::div_mod::lemma_basic_div(0, pow2(1074) as int);
        vstd::arithmetic::div_mod::lemma_small_mod(0, pow2(1074));
    } else {
        lemma_bit_length(k);
        lemma_bit_length_le(k, 53);
        lemma_nearest_unpacked(k, -1);
        let len = bit_length(k);
        let pad = pow2((53 - len) as nat);
        lemma_pow2_pos((53 - len) as nat);
        vstd::arithmetic::power2::lemma_pow2_unfold((54 - len) as nat);
        assert(pow2((54 - len) as nat) == pad * 2) by (nonlinear_arith)
            requires
                pow2((54 - len) as nat) == 2 * pad,
        ;
        lemma_div_multiples_vanish_quotient(pad as int, k as int, 2);
        lemma_truncate_middle(k as int, pad as int, 2);
        lemma_mul_is_commutative(k as int, pad as int);
        assert(whole_part(r) == k / 2);
        assert((k * pad) % (pad * 2) == pad * (k % 2));
        assert((pad * (k % 2) == 0) == (k % 2 == 0)) by (nonlinear_arith)
            requires
                pad > 0,
                0 <= k % 2 < 2,
        ;
        assert(is_whole(r) == (k % 2 == 0));
    }
}

/// Half an odd number is one half more than the half rounded down.
pub proof fn lemma_half_step(k: nat)
    requires
        k < pow2(53),
        k % 2 == 1,
    ensures
        spec_difference(nearest(k, -1), nearest(k / 2, 0)) == HALF,
{
    lemma2_to64();
    lemma2_to64_rest();
    let j = k / 2;
    let r = nearest(k, -1);
    let c = nearest(j, 0);
    let b = spec_negate(c);
    lemma_bit_length(k);
    lemma_bit_length_le(k, 53);
    lemma_nearest_unpacked(k, -1);
    lemma_nearest_of_one(-1);
    let len = bit_length(k);
    let pad = pow2((53 - len) as nat);
    lemma_pow2_pos((53 - len) as nat);
    if j == 0 {
        assert(k == 1);
        assert(c == 0);
        assert(b == SIGN_BIT);
        assert(significand(b) == 0 && exponent(b) == -1074 && spec_is_negative(b));
        assert(r == HALF);
        assert(significand(r) == pow2(52) && exponent(r) == -53);
        assert(0 * pow2(0) == 0);
        assert(signed_units(b, -1074) == 0);
        lemma_pow2_adds(52, 1021);
        assert(signed_units(r, -1074) == pow2(1073));
        assert(pow2(1073) == 1 * pow2(1073));
        lemma_pow2_pos(1073);
        lemma_nearest_scaled(1, 1073, -1074);
    } else {
        lemma_whole_unpacked(j);
        assert(bit_length(k) == 1 + bit_length(j));
        vstd::arithmetic::power2::lemma_pow2_unfold((54 - len) as nat);
        assert(significand(c) == 2 * j * pad) by (nonlinear_arith)
            requires
                significand(c) == j * pow2((54 - len) as nat),
                pow2((54 - len) as nat) == 2 * pad,
        ;
        assert(significand(b) == significand(c) && exponent(b) == exponent(c));
        assert(spec_is_negative(b) && spec_is_finite(b));
        let e = len - 54;
        assert(signed_units(r, e) == k * pad) by (nonlinear_arith)
            requires
                signed_units(r, e) == (k * pad) * pow2(0),
                pow2(0) == 1,
        ;
        assert(signed_units(b, e) == -(2 * j * pad)) by (nonlinear_arith)
            requires
                signed_units(b, e) == -((2 * j * pad) * pow2(0)),
                pow2(0) == 1,
        ;
        assert(signed_units(r, e) + signed_units(b, e) == pad) by (nonlinear_arith)
            requires
                signed_units(r, e) == k * pad,
                signed_units(b, e) == -(2 * j * pad),
                k == 2 * j + 1,
        ;
        assert(pad == 1 * pad);
        lemma_nearest_scaled(1, (53 - len) as nat, e);
    }
}

/// Fifty hundredths are one half.
pub proof fn lemma_half_of_hundred()
    ensures
        spec_quotient(crate::descriptive_statistics::order::FIFTY, HUNDRED) == HALF,
{
    lemma2_to64();
    lemma2_to64_rest();
    let fifty = crate::descriptive_statistics::order::FIFTY;
    assert(significand(fifty) == 0x19_0000_0000_0000 && exponent(fifty) == -47);
    assert(significand(HUNDRED) == 0x19_0000_0000_0000 && exponent(HUNDRED) == -46);
    lemma_ratio_of_equals(0x19_0000_0000_0000, -1);
    lemma_nearest_of_one(-1);
}

/// Rounding moves a quotient by no more than half a unit.
pub proof fn lemma_round_error(n: nat, d: nat)
    requires
        d > 0,
    ensures
        2 * (round_half_even(n, d) * d - n) <= d,
        2 * (n - round_half_even(n, d) * d) <= d,
{
    vstd::arithmetic::div_mod::lemma_fundamental_div_mod(n as int, d as int);
    vstd::arithmetic::div_mod::lemma_remainder(n as int, d as int);
    let q = n / d;
    let r = n % d;
    assert(q * d == d * q) by (nonlinear_arith);
    assert((q + 1) * d == d * q + d) by (nonlinear_arith);
}

/// The integer nearest to the root of a number that lies within `s` of the
/// square of `s` is `s`.
pub proof fn lemma_round_sqrt_unique(x: nat, s: nat)
    requires
        s >= 1,
        s * s - s < x <= s * s + s,
    ensures
        round_sqrt(x) == s,
{
    if x >= s * s {
        assert((s + 1) * (s + 1) == s * s + 2 * s + 1) by (nonlinear_arith);
        lemma_integer_sqrt_unique(x, s);
    } else {
        let r = (s - 1) as nat;
        assert(r * r == s * s - 2 * s + 1) by (nonlinear_arith)
            requires
                r == s - 1,
        ;
        assert((r + 1) * (r + 1) == s * s) by (nonlinear_arith)
            requires
                r == s - 1,
        ;
        lemma_integer_sqrt_unique(x, r);
        assert(r * r + r == s * s - s) by (nonlinear_arith)
            requires
                r == s - 1,
        ;
    }
}

/// The root of the square of a positive normal double is the double
/// itself, where the square is itself in the range of the normal doubles:
/// it is finite, and the double is not below 2^-511.
pub proof fn lemma_root_of_square(a: u64)
    requires
        spec_is_finite(a),
        !spec_is_negative(a),
        exponent(a) >= -563,
        spec_is_finite(spec_product(a, a)),
    ensures
        spec_square_root(spec_product(a, a)) == a,
{
    lemma2_to64();
    lemma2_to64_rest();
    lemma_pack(a);
    let s = significand(a);
    let x = exponent(a);
    let n = s * s;
    assert(pow2(104) == pow2(52) * pow2(52)) by {
        lemma_pow2_adds(52, 52);
    }
    assert(pow2(105) == 2 * pow2(104) && pow2(106) == 4 * pow2(104)) by {
        vstd::arithmetic::power2::lemma_pow2_unfold(105);
        vstd::arithmetic::power2::lemma_pow2_unfold(106);
    }
    assert(pow2(104) <= n) by (nonlinear_arith)
        requires
            n == s * s,
            s >= pow2(52),
            pow2(104) == pow2(52) * pow2(52),
    ;
    assert(n <= (pow2(53) - 1) * (pow2(53) - 1)) by (nonlinear_arith)
        requires
            n == s * s,
            0 <= s <= pow2(53) - 1,
    ;
    assert((pow2(53) - 1) * (pow2(53) - 1) == pow2(106) - 2 * pow2(53) + 1) by (nonlinear_arith)
        requires
            pow2(106) == 4 * pow2(104),
            pow2(104) == pow2(52) * pow2(52),
            pow2(53) == 2 * pow2(52),
    ;
    let k: nat = if n < pow2(105) {
        52
    } else {
        53
    };
    lemma_bit_length_unique(n, 53 + k);
    let g = k + 2 * x;
    assert(quantum(n, 2 * x) == g);
    let d = pow2(k);
    let t = round_half_even(n, d);
    assert(scaled_significand(n, 2 * x) == t);
    crate::monotonicity::lemma_significand_bounds(n, 2 * x);
    lemma_round_error(n, d);
    let y = spec_product(a, a);
    assert(y == nearest(n, 2 * x));
    assert(y == (g + 1074) * pow2(52) + t);
    if k == 53 {
        if s <= pow2(52) {
            assert(s * s <= pow2(52) * pow2(52)) by (nonlinear_arith)
                requires
                    0 <= s <= pow2(52),
            ;
        }
        assert(s > pow2(52));
        lemma_pow2_adds(53, 53);
        assert(t < pow2(53)) by (nonlinear_arith)
            requires
                2 * (t * d - n) <= d,
                d == pow2(53),
                n <= pow2(106) - 2 * pow2(53) + 1,
                pow2(106) == pow2(53) * pow2(53),
                pow2(53) == 0x20_0000_0000_0000,
        ;
    }
    let (sy, ey): (nat, int) = if t < pow2(53) {
        (t, g)
    } else {
        (pow2(52), g + 1)
    };
    lemma_pack(y);
    assert(significand(y) == sy && exponent(y) == ey);
    lemma_bit_length_unique(sy, 53);
    assert(sy * pow2(0) == sy);
    let big = t * d;
    assert(root_pattern(sy, ey) == (x + 1074) * pow2(52) + round_sqrt(big)) by {
        if t < pow2(53) {
            if k == 52 {
                assert(ey % 2 == 0);
            } else {
                assert(ey % 2 != 0);
                assert((2 * t) * pow2(52) == t * pow2(53)) by (nonlinear_arith)
                    requires
                        pow2(53) == 2 * pow2(52),
                ;
            }
        } else {
            assert(k == 52);
            assert(ey % 2 != 0);
            assert((2 * pow2(52)) * pow2(52) == pow2(53) * pow2(52)) by (nonlinear_arith)
                requires
                    pow2(53) == 2 * pow2(52),
            ;
        }
    }
    assert(s * s - s < big <= s * s + s) by (nonlinear_arith)
        requires
            n == s * s,
            2 * (big - n) <= d,
            2 * (n - big) <= d,
            d <= 2 * pow2(52),
            s >= pow2(52),
            d == 2 * pow2(52) ==> s > pow2(52),
            pow2(52) > 0,
    ;
    lemma_round_sqrt_unique(big, s);
    assert(!crate::double::spec_is_zero(y));
}

/// A square root is NaN or a finite double that is not below zero, or
/// infinity where it is the root of infinity.
pub proof fn lemma_root_not_negative(a: u64)
    ensures
        spec_is_nan(spec_square_root(a)) || key(spec_square_root(a)) >= 0,
        spec_is_finite(a) ==> spec_is_nan(spec_square_root(a)) || spec_is_finite(
            spec_square_root(a),
        ),
{
    lemma2_to64();
    lemma2_to64_rest();
    if spec_is_finite(a) && !spec_is_negative(a) && !spec_is_zero(a) {
        lemma_pack(a);
        let s = significand(a);
        let e = exponent(a);
        lemma_bit_length(s);
        lemma_bit_length_le(s, 53);
        let len = bit_length(s);
        let j = (53 - len) as nat;
        lemma_pow2_adds(len, j);
        lemma_pow2_pos(j);
        let s1 = s * pow2(j);
        assert(s1 < pow2(53)) by (nonlinear_arith)
            requires
                s1 == s * pow2(j),
                s < pow2(len),
                pow2(len) * pow2(j) == pow2(53),
                pow2(j) > 0,
        ;
        let e1 = e - j;
        let s2 = if e1 % 2 != 0 {
            2 * s1
        } else {
            s1
        };
        let x = s2 * pow2(52);
        lemma_integer_sqrt(x);
        let r = integer_sqrt(x);
        assert(r < pow2(53)) by (nonlinear_arith)
            requires
                r * r <= x,
                x < 0x40_0000_0000_0000 * 0x10_0000_0000_0000,
                pow2(53) == 0x20_0000_0000_0000,
                r >= 0,
        ;
        assert(round_sqrt(x) <= pow2(53));
    }
}

/// Rounding to the nearest double moves a number by no more than half the
/// quantum, and not at all where the number is a multiple of the quantum.
pub proof fn lemma_nearest_is_near(n: nat, e: int)
    ensures
        quantum(n, e) <= e ==> scaled_significand(n, e) == n * pow2((e - quantum(n, e)) as nat),
        quantum(n, e) > e ==> 2 * (scaled_significand(n, e) * pow2((quantum(n, e) - e) as nat) - n)
            <= pow2((quantum(n, e) - e) as nat) && 2 * (n - scaled_significand(n, e) * pow2(
            (quantum(n, e) - e) as nat,
        )) <= pow2((quantum(n, e) - e) as nat),
{
    if quantum(n, e) > e {
        lemma_pow2_pos((quantum(n, e) - e) as nat);
        lemma_round_error(n, pow2((quantum(n, e) - e) as nat));
    }
}

} // verus!
