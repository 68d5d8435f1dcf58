//! Rounded quotients: how the nearest double to a ratio depends on the two
//! parts of the ratio.

use vstd::prelude::*;
use vstd::arithmetic::power2::{
    lemma2_to64,
    lemma2_to64_rest,
    lemma_pow2_adds,
    lemma_pow2_pos,
    pow2,
};
use vstd::arithmetic::div_mod::{
    lemma_div_is_ordered,
    lemma_div_multiples_vanish_quotient,
    lemma_fundamental_div_mod,
    lemma_multiply_divide_lt,
    lemma_remainder,
};
use vstd::arithmetic::mul::{lemma_mul_is_associative, lemma_mul_is_commutative};
use crate::arithmetic::{
    lemma_pack,
    spec_ceiling_to_usize,
    spec_product,
    spec_quotient,
    spec_to_usize,
};
use crate::double::{
    ONE,
    exponent,
    key,
    significand,
    spec_is_finite,
    spec_is_nan,
    spec_is_negative,
    spec_is_zero,
    spec_magnitude,
};
use crate::exactness::{
    lemma_nearest_of_one,
    lemma_nearest_of_pattern,
    lemma_nearest_scaled,
    lemma_ratio_of_equals,
    lemma_round_common_factor,
    lemma_whole_unpacked,
};
use crate::monotonicity::{
    lemma_bit_length_increases,
    lemma_nearest_increases,
    lemma_round_increases,
};
use crate::rounding::{
    bit_length,
    lemma_bit_length,
    lemma_bit_length_unique,
    lemma_pow2_le,
    lemma_rescale,
    nearest,
    nearest_ratio,
    ratio_length,
    ratio_quantum,
    ratio_significand,
};

verus! {

/// The ratio carried to as many binary places as the denominator has
/// digits: what its length is read off.
pub open spec fn carried(n: nat, d: nat) -> nat {
    (n * pow2(bit_length(d))) / d
}

/// The length of a ratio bounds the ratio: with `k` the digits of the
/// denominator and `len` the length plus `k`,
/// `d * 2^(len - 1) <= n * 2^k < d * 2^len`.
pub proof fn lemma_ratio_length(n: nat, d: nat)
    requires
        n > 0,
        d > 0,
    ensures
        carried(n, d) >= 1,
        ratio_length(n, d) + bit_length(d) >= 1,
        d * pow2((ratio_length(n, d) + bit_length(d) - 1) as nat) <= n * pow2(bit_length(d)),
        n * pow2(bit_length(d)) < d * pow2((ratio_length(n, d) + bit_length(d)) as nat),
{
    let k = bit_length(d);
    let scaled = n * pow2(k);
    let x = carried(n, d);
    lemma_bit_length(d);
    assert(scaled >= d) by (nonlinear_arith)
        requires
            scaled == n * pow2(k),
            n >= 1,
            d < pow2(k),
    ;
    lemma_fundamental_div_mod(scaled as int, d as int);
    lemma_remainder(scaled as int, d as int);
    assert(x >= 1) by (nonlinear_arith)
        requires
            scaled >= d,
            scaled == d * x + scaled % d,
            0 <= scaled % d < d,
            d > 0,
    ;
    lemma_bit_length(x);
    let len = bit_length(x);
    assert(scaled < d * pow2(len)) by (nonlinear_arith)
        requires
            scaled == d * x + scaled % d,
            0 <= scaled % d < d,
            x < pow2(len),
    ;
    assert(d * pow2((len - 1) as nat) <= scaled) by (nonlinear_arith)
        requires
            scaled == d * x + scaled % d,
            0 <= scaled % d,
            x >= pow2((len - 1) as nat),
            d > 0,
    ;
}

/// The significand of a rounded ratio has at most 53 digits, or is 2^53 by
/// a carry; and it has no fewer than 53 digits unless the ratio lies among
/// the subnormals.
pub proof fn lemma_ratio_significand_bounds(n: nat, d: nat, e: int)
    requires
        n > 0,
        d > 0,
    ensures
        ratio_significand(n, d, e) <= pow2(53),
        ratio_length(n, d) - 53 + e >= -1074 ==> ratio_significand(n, d, e) >= pow2(52),
{
    let k = bit_length(d);
    let len = (ratio_length(n, d) + k) as nat;
    let g = ratio_quantum(n, d, e);
    lemma_ratio_length(n, d);
    lemma2_to64();
    lemma2_to64_rest();
    lemma_pow2_pos(k);
    lemma_pow2_pos(len);
    if g <= e {
        let shift = (e - g) as nat;
        let num = n * pow2(shift);
        lemma_pow2_pos(shift);
        lemma_pow2_adds(len, shift);
        lemma_pow2_adds(53, k);
        lemma_pow2_le(len + shift, 53 + k);
        lemma_rescale(
            n as int,
            d as int,
            pow2(k) as int,
            pow2(len) as int,
            pow2(shift) as int,
            pow2(53) as int,
        );
        lemma_mul_is_commutative(d as int, pow2(53) as int);
        lemma_multiply_divide_lt(num as int, d as int, pow2(53) as int);
        if ratio_length(n, d) - 53 + e >= -1074 {
            assert(len - 1 + shift == 52 + k);
            lemma_pow2_adds((len - 1) as nat, shift);
            lemma_pow2_adds(52, k);
            assert(d * pow2(52) <= num) by (nonlinear_arith)
                requires
                    d * pow2((len - 1) as nat) <= n * pow2(k),
                    pow2((len - 1) as nat) * pow2(shift) == pow2(52) * pow2(k),
                    num == n * pow2(shift),
                    pow2(shift) > 0,
                    pow2(k) > 0,
                    d > 0,
            ;
            lemma_mul_is_commutative(d as int, pow2(52) as int);
            lemma_div_is_ordered((pow2(52) * d) as int, num as int, d as int);
            vstd::arithmetic::div_mod::lemma_div_multiples_vanish(pow2(52) as int, d as int);
        }
    } else {
        let shift = (g - e) as nat;
        let den = d * pow2(shift);
        lemma_pow2_pos(shift);
        assert(den > 0) by (nonlinear_arith)
            requires
                den == d * pow2(shift),
                d > 0,
                pow2(shift) > 0,
        ;
        lemma_pow2_adds(53, k);
        lemma_pow2_adds(53 + k, shift);
        lemma_pow2_le(len, 53 + k + shift);
        assert(n < den * pow2(53)) by (nonlinear_arith)
            requires
                n * pow2(k) < d * pow2(len),
                pow2(len) <= pow2(53) * pow2(k) * pow2(shift),
                den == d * pow2(shift),
                pow2(k) > 0,
                d > 0,
        ;
        lemma_mul_is_commutative(den as int, pow2(53) as int);
        lemma_multiply_divide_lt(n as int, den as int, pow2(53) as int);
        if ratio_length(n, d) - 53 + e >= -1074 {
            assert(len - 1 == 52 + k + shift);
            lemma_pow2_adds(52, k);
            lemma_pow2_adds(52 + k, shift);
            assert(den * pow2(52) <= n) by (nonlinear_arith)
                requires
                    d * pow2((len - 1) as nat) <= n * pow2(k),
                    pow2((len - 1) as nat) == pow2(52) * pow2(k) * pow2(shift),
                    den == d * pow2(shift),
                    pow2(k) > 0,
            ;
            lemma_mul_is_commutative(den as int, pow2(52) as int);
            lemma_div_is_ordered((pow2(52) * den) as int, n as int, den as int);
            vstd::arithmetic::div_mod::lemma_div_multiples_vanish(pow2(52) as int, den as int);
        }
    }
}

/// Of two ratios with one denominator, the greater does not round to the
/// lesser double.
pub proof fn lemma_ratio_increases(a: nat, b: nat, d: nat, e: int)
    requires
        a <= b,
        d > 0,
    ensures
        nearest_ratio(a, d, e) <= nearest_ratio(b, d, e),
{
    lemma2_to64_rest();
    if a > 0 {
        let k = bit_length(d);
        lemma_pow2_pos(k);
        assert(a * pow2(k) <= b * pow2(k)) by (nonlinear_arith)
            requires
                a <= b,
                pow2(k) > 0,
        ;
        lemma_div_is_ordered((a * pow2(k)) as int, (b * pow2(k)) as int, d as int);
        lemma_bit_length_increases(carried(a, d), carried(b, d));
        lemma_ratio_significand_bounds(a, d, e);
        lemma_ratio_significand_bounds(b, d, e);
        let ga = ratio_quantum(a, d, e);
        let gb = ratio_quantum(b, d, e);
        let sa = ratio_significand(a, d, e);
        let sb = ratio_significand(b, d, e);
        if ga == gb {
            if ga <= e {
                let scale = pow2((e - ga) as nat);
                lemma_pow2_pos((e - ga) as nat);
                assert(a * scale <= b * scale) by (nonlinear_arith)
                    requires
                        a <= b,
                        scale > 0,
                ;
                lemma_round_increases(a * scale, b * scale, d);
            } else {
                let scale = pow2((ga - e) as nat);
                lemma_pow2_pos((ga - e) as nat);
                assert(d * scale > 0) by (nonlinear_arith)
                    requires
                        d > 0,
                        scale > 0,
                ;
                lemma_round_increases(a, b, d * scale);
            }
        } else {
            assert((ga + 1074) * pow2(52) + sa <= (gb + 1074) * pow2(52) + sb) by (nonlinear_arith)
                requires
                    ga + 1 <= gb,
                    sa <= 2 * pow2(52),
                    sb >= pow2(52),
            ;
        }
    }
}

/// Zero digits appended to the numerator are as much added to the exponent.
pub proof fn lemma_ratio_scaled_above(n: nat, j: nat, d: nat, e: int)
    requires
        d > 0,
    ensures
        nearest_ratio(n * pow2(j), d, e) == nearest_ratio(n, d, e + j),
{
    lemma_pow2_pos(j);
    if n == 0 {
        assert(n * pow2(j) == 0) by (nonlinear_arith)
            requires
                n == 0,
        ;
    } else {
        let big = n * pow2(j);
        let k = bit_length(d);
        assert(big > 0) by (nonlinear_arith)
            requires
                big == n * pow2(j),
                n > 0,
                pow2(j) > 0,
        ;
        lemma_ratio_length(n, d);
        let x = carried(n, d);
        let y = carried(big, d);
        let len = bit_length(x);
        lemma_bit_length(x);
        lemma_pow2_pos(k);
        lemma_fundamental_div_mod((n * pow2(k)) as int, d as int);
        lemma_remainder((n * pow2(k)) as int, d as int);
        lemma_fundamental_div_mod((big * pow2(k)) as int, d as int);
        lemma_remainder((big * pow2(k)) as int, d as int);
        lemma_pow2_adds((len - 1) as nat, j);
        lemma_pow2_adds(len, j);
        let r = (n * pow2(k)) % d;
        let r2 = (big * pow2(k)) % d;
        assert(big * pow2(k) == (n * pow2(k)) * pow2(j)) by (nonlinear_arith)
            requires
                big == n * pow2(j),
        ;
        assert(pow2((len - 1) as nat) * pow2(j) <= y < pow2(len) * pow2(j)) by (nonlinear_arith)
            requires
                big * pow2(k) == (n * pow2(k)) * pow2(j),
                n * pow2(k) == d * x + r,
                big * pow2(k) == d * y + r2,
                0 <= r < d,
                0 <= r2 < d,
                pow2((len - 1) as nat) <= x < pow2(len),
                pow2(j) > 0,
                d > 0,
        ;
        lemma_bit_length_unique(y, len + j);
        assert(ratio_length(big, d) == ratio_length(n, d) + j);
        let g = ratio_quantum(n, d, e + j);
        assert(ratio_quantum(big, d, e) == g);
        if g <= e {
            lemma_pow2_adds(j, (e - g) as nat);
            lemma_mul_is_associative(n as int, pow2(j) as int, pow2((e - g) as nat) as int);
        } else if g <= e + j {
            let common = pow2((g - e) as nat);
            let rest = pow2((e + j - g) as nat);
            lemma_pow2_pos((g - e) as nat);
            lemma_pow2_adds((e + j - g) as nat, (g - e) as nat);
            lemma_mul_is_associative(n as int, rest as int, common as int);
            lemma_round_common_factor(n * rest, d, common);
        } else {
            let rest = pow2((g - e - j) as nat);
            lemma_pow2_pos((g - e - j) as nat);
            lemma_pow2_adds((g - e - j) as nat, j);
            lemma_mul_is_associative(d as int, rest as int, pow2(j) as int);
            assert(d * rest > 0) by (nonlinear_arith)
                requires
                    d > 0,
                    rest > 0,
            ;
            lemma_round_common_factor(n, d * rest, pow2(j));
        }
        assert(ratio_significand(big, d, e) == ratio_significand(n, d, e + j));
    }
}

/// Zero digits appended to the denominator are as much taken from the
/// exponent.
pub proof fn lemma_ratio_scaled_below(n: nat, d: nat, i: nat, e: int)
    requires
        d > 0,
    ensures
        nearest_ratio(n, d * pow2(i), e) == nearest_ratio(n, d, e - i),
{
    lemma_pow2_pos(i);
    if n > 0 {
        let wide = d * pow2(i);
        let k = bit_length(d);
        assert(wide > 0) by (nonlinear_arith)
            requires
                wide == d * pow2(i),
                d > 0,
                pow2(i) > 0,
        ;
        crate::exactness::lemma_bit_length_scaled(d, i);
        lemma_pow2_adds(k, i);
        lemma_div_multiples_vanish_quotient(pow2(i) as int, (n * pow2(k)) as int, d as int);
        assert(pow2(i) * (n * pow2(k)) == n * pow2(k + i)) by (nonlinear_arith)
            requires
                pow2(k + i) == pow2(k) * pow2(i),
        ;
        lemma_mul_is_commutative(pow2(i) as int, d as int);
        assert(carried(n, wide) == carried(n, d));
        assert(ratio_length(n, wide) == ratio_length(n, d) - i);
        let g = ratio_quantum(n, d, e - i);
        assert(ratio_quantum(n, wide, e) == g);
        if g <= e - i {
            let rest = pow2((e - i - g) as nat);
            lemma_pow2_adds((e - i - g) as nat, i);
            lemma_mul_is_associative(n as int, rest as int, pow2(i) as int);
            lemma_round_common_factor(n * rest, d, pow2(i));
        } else if g <= e {
            let common = pow2((e - g) as nat);
            let rest = pow2((g - e + i) as nat);
            lemma_pow2_pos((e - g) as nat);
            lemma_pow2_pos((g - e + i) as nat);
            lemma_pow2_adds((g - e + i) as nat, (e - g) as nat);
            lemma_mul_is_associative(d as int, rest as int, common as int);
            assert(d * rest > 0) by (nonlinear_arith)
                requires
                    d > 0,
                    rest > 0,
            ;
            lemma_round_common_factor(n, d * rest, common);
        } else {
            lemma_pow2_adds(i, (g - e) as nat);
            lemma_mul_is_associative(d as int, pow2(i) as int, pow2((g - e) as nat) as int);
        }
        assert(ratio_significand(n, wide, e) == ratio_significand(n, d, e - i));
    }
}

/// Of two finite doubles the one with the lesser pattern of its magnitude
/// has the lesser magnitude: in units of the lesser exponent of the two it
/// counts no more.
pub proof fn lemma_value_order(a: u64, b: u64, e: int)
    requires
        spec_is_finite(a),
        spec_is_finite(b),
        spec_magnitude(a) <= spec_magnitude(b),
        e <= exponent(a),
        e <= exponent(b),
    ensures
        significand(a) * pow2((exponent(a) - e) as nat) <= significand(b) * pow2(
            (exponent(b) - e) as nat,
        ),
{
    lemma2_to64_rest();
    lemma_pack(a);
    lemma_pack(b);
    let pa = pow2((exponent(a) - e) as nat);
    let pb = pow2((exponent(b) - e) as nat);
    lemma_pow2_pos((exponent(a) - e) as nat);
    lemma_pow2_pos((exponent(b) - e) as nat);
    if exponent(a) == exponent(b) {
        assert(significand(a) * pa <= significand(b) * pb) by (nonlinear_arith)
            requires
                significand(a) <= significand(b),
                pa == pb,
                pa > 0,
        ;
    } else if exponent(a) < exponent(b) {
        let gap = (exponent(b) - exponent(a)) as nat;
        lemma_pow2_adds((exponent(a) - e) as nat, gap);
        lemma_pow2_le(1, gap);
        lemma2_to64();
        assert(significand(a) * pa <= significand(b) * pb) by (nonlinear_arith)
            requires
                significand(a) < 2 * pow2(52),
                significand(b) >= pow2(52),
                pb == pa * pow2(gap),
                pow2(gap) >= 2,
                pa > 0,
        ;
    } else {
        assert(false) by (nonlinear_arith)
            requires
                spec_magnitude(a) == (exponent(a) + 1074) * pow2(52) + significand(a),
                spec_magnitude(b) == (exponent(b) + 1074) * pow2(52) + significand(b),
                spec_magnitude(a) <= spec_magnitude(b),
                exponent(a) >= exponent(b) + 1,
                significand(a) >= pow2(52),
                significand(b) < 2 * pow2(52),
        ;
    }
}

/// A double that is not negative, by one that is positive and no less, is
/// a number from 0.0 to 1.0.
pub proof fn lemma_quotient_of_part(a: u64, b: u64)
    requires
        spec_is_finite(a),
        spec_is_finite(b),
        !spec_is_negative(a),
        !spec_is_negative(b),
        !spec_is_zero(b),
        a <= b,
    ensures
        !spec_is_nan(spec_quotient(a, b)),
        0 <= key(spec_quotient(a, b)) <= key(ONE),
{
    lemma2_to64_rest();
    lemma_pack(a);
    lemma_pack(b);
    let e = if exponent(a) <= exponent(b) {
        exponent(a)
    } else {
        exponent(b)
    };
    let ja = (exponent(a) - e) as nat;
    let jb = (exponent(b) - e) as nat;
    let sa = significand(a);
    let sb = significand(b);
    let ua = sa * pow2(ja);
    let ub = sb * pow2(jb);
    lemma_value_order(a, b, e);
    lemma_pow2_pos(jb);
    assert(ub > 0) by (nonlinear_arith)
        requires
            ub == sb * pow2(jb),
            sb > 0,
            pow2(jb) > 0,
    ;
    lemma_ratio_scaled_above(sa, ja, ub, 0);
    lemma_ratio_scaled_below(sa, sb, jb, ja as int);
    assert(nearest_ratio(ua, ub, 0) == nearest_ratio(sa, sb, exponent(a) - exponent(b)));
    lemma_ratio_increases(ua, ub, ub, 0);
    lemma_ratio_of_equals(ub, 0);
    lemma_nearest_of_one(0);
}

/// A part of a double is no more than the double: the product of a number
/// from 0.0 to 1.0 and a finite double that is not negative is a number
/// from 0.0 to that double.
pub proof fn lemma_product_of_part(q: u64, b: u64)
    requires
        spec_is_finite(q),
        !spec_is_negative(q),
        q <= ONE,
        spec_is_finite(b),
        !spec_is_negative(b),
    ensures
        spec_is_finite(spec_product(q, b)),
        !spec_is_negative(spec_product(q, b)),
        spec_product(q, b) <= b,
{
    lemma2_to64();
    lemma2_to64_rest();
    lemma_pack(q);
    lemma_pack(b);
    assert(significand(ONE) == pow2(52) && exponent(ONE) == -52);
    let e = if exponent(q) <= -52 {
        exponent(q)
    } else {
        -52
    };
    let jq = (exponent(q) - e) as nat;
    let j1 = (-52 - e) as nat;
    let sq = significand(q);
    let sb = significand(b);
    lemma_value_order(q, ONE, e);
    let uq = sq * pow2(jq);
    let u1 = pow2(52) * pow2(j1);
    assert(uq * sb <= u1 * sb) by (nonlinear_arith)
        requires
            uq <= u1,
            sb >= 0,
    ;
    assert(uq * sb == (sq * sb) * pow2(jq)) by (nonlinear_arith)
        requires
            uq == sq * pow2(jq),
    ;
    assert(u1 * sb == (pow2(52) * sb) * pow2(j1)) by (nonlinear_arith)
        requires
            u1 == pow2(52) * pow2(j1),
    ;
    lemma_nearest_scaled(sq * sb, jq, e + exponent(b));
    lemma_nearest_scaled(pow2(52) * sb, j1, e + exponent(b));
    lemma_nearest_increases(uq * sb, u1 * sb, e + exponent(b));
    lemma_mul_is_commutative(pow2(52) as int, sb as int);
    lemma_nearest_scaled(sb, 52, -52 + exponent(b));
    lemma_nearest_of_pattern(b);
    assert(nearest(sq * sb, exponent(q) + exponent(b)) <= b);
}

/// A double that is not negative and no more than the double of a natural
/// number below 2^53 rounds, down or up, to no more than that number.
pub proof fn lemma_whole_parts_bounded(r: u64, m: nat)
    requires
        spec_is_finite(r),
        !spec_is_negative(r),
        m < pow2(53),
        m <= usize::MAX,
        r <= nearest(m, 0),
    ensures
        spec_to_usize(r) <= spec_ceiling_to_usize(r) <= m,
{
    lemma2_to64();
    lemma2_to64_rest();
    lemma_pack(r);
    let top = nearest(m, 0);
    let sr = significand(r);
    let er = exponent(r);
    if m == 0 {
        assert(sr == 0);
        assert(er == -1074);
        lemma_pow2_pos(1074);
        vstd::arithmetic::div_mod::lemma_basic_div(0, pow2(1074) as int);
        vstd::arithmetic::div_mod::lemma_small_mod(0, pow2(1074));
    } else {
        lemma_whole_unpacked(m);
        lemma_pack(top);
        let len = bit_length(m);
        let et = len - 53;
        let e = if er <= et {
            er
        } else {
            et
        };
        lemma_value_order(r, top, e);
        let jr = (er - e) as nat;
        let jt = (et - e) as nat;
        lemma_pow2_pos(jr);
        lemma_pow2_pos(jt);
        lemma_pow2_adds((53 - len) as nat, jt);
        assert(significand(top) * pow2(jt) == m * pow2((-e) as nat)) by (nonlinear_arith)
            requires
                significand(top) == m * pow2((53 - len) as nat),
                pow2((53 - len) as nat) * pow2(jt) == pow2((-e) as nat),
        ;
        assert(sr * pow2(jr) <= m * pow2((-e) as nat));
        if er >= 0 {
            lemma_pow2_adds(er as nat, (-e) as nat);
            lemma_pow2_pos((-e) as nat);
            assert(sr * pow2(er as nat) <= m) by (nonlinear_arith)
                requires
                    sr * (pow2(er as nat) * pow2((-e) as nat)) <= m * pow2((-e) as nat),
                    pow2((-e) as nat) > 0,
            ;
        } else {
            assert(e == er);
            let unit = pow2((-er) as nat);
            lemma_pow2_pos((-er) as nat);
            assert(sr * pow2(0) == sr);
            assert(sr <= m * unit);
            lemma_fundamental_div_mod(sr as int, unit as int);
            lemma_remainder(sr as int, unit as int);
            let whole = sr / unit;
            let rest = sr % unit;
            assert(whole <= m && (rest > 0 ==> whole < m)) by (nonlinear_arith)
                requires
                    sr == unit * whole + rest,
                    0 <= rest < unit,
                    sr <= m * unit,
                    unit > 0,
                    whole >= 0,
            ;
        }
    }
}

} // verus!
