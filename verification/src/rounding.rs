//! Rounding to the nearest double: from an integer times a power of two to
//! the bit pattern of the double that lies nearest to it, ties going to the
//! double whose last significand bit is zero.

use vstd::prelude::*;
use vstd::arithmetic::power2::{
    lemma2_to64,
    lemma2_to64_rest,
    lemma_pow2_adds,
    lemma_pow2_pos,
    lemma_pow2_strictly_increases,
    lemma_pow2_unfold,
    pow2,
};
use vstd::arithmetic::div_mod::{
    lemma_fundamental_div_mod,
    lemma_multiply_divide_lt,
    lemma_remainder,
};
use vstd::arithmetic::mul::{
    lemma_mul_inequality,
    lemma_mul_is_commutative,
    lemma_mul_strict_inequality,
};
use crate::double::INFINITY;

verus! {

/// The number of binary digits of `n`: 0 for 0, else the `k` with
/// `2^(k-1) <= n < 2^k`.
pub open spec fn bit_length(n: nat) -> nat
    decreases n,
{
    if n == 0 {
        0
    } else {
        1 + bit_length(n / 2)
    }
}

/// The integer nearest to `n / d`; where two are equally near, the even one.
pub open spec fn round_half_even(n: nat, d: nat) -> nat
    recommends
        d > 0,
{
    let q = n / d;
    let r = n % d;
    if 2 * r < d || (2 * r == d && q % 2 == 0) {
        q
    } else {
        q + 1
    }
}

/// The exponent of the last place of the double nearest to `n * 2^e`: it
/// leaves `n` 53 binary digits, and is never below that of the subnormals.
pub open spec fn quantum(n: nat, e: int) -> int {
    let g = bit_length(n) - 53 + e;
    if g < -1074 {
        -1074
    } else {
        g
    }
}

/// `n * 2^e` in units of its quantum, rounded to an integer.
pub open spec fn scaled_significand(n: nat, e: int) -> nat {
    let g = quantum(n, e);
    if g <= e {
        n * pow2((e - g) as nat)
    } else {
        round_half_even(n, pow2((g - e) as nat))
    }
}

/// The bit pattern of the non-negative double nearest to `n * 2^e`, ties to
/// even; `INFINITY` where that lies beyond the largest finite double. With
/// `s` the scaled significand and `g` the quantum, the double is `s * 2^g`:
/// its pattern is `s` itself for a subnormal, and for a normal number the
/// exponent field `g + 1075` in front of the low 52 bits of `s`; both are
/// `(g + 1074) * 2^52 + s`, also where rounding carried `s` up to `2^53`.
pub open spec fn nearest(n: nat, e: int) -> u64 {
    if n == 0 {
        0
    } else {
        let bits = (quantum(n, e) + 1074) * pow2(52) + scaled_significand(n, e);
        if bits >= INFINITY {
            INFINITY
        } else {
            bits as u64
        }
    }
}

/// A positive number lies between the powers of two that its length names.
pub proof fn lemma_bit_length(n: nat)
    requires
        n > 0,
    ensures
        bit_length(n) >= 1,
        pow2((bit_length(n) - 1) as nat) <= n < pow2(bit_length(n)),
    decreases n,
{
    lemma2_to64();
    if n == 1 {
        assert(bit_length(0) == 0);
        assert(bit_length(1) == 1);
    } else {
        lemma_bit_length(n / 2);
        lemma_pow2_unfold(bit_length(n));
        lemma_pow2_unfold(bit_length(n / 2));
    }
}

/// The length of `n` is the only `k` with `2^(k-1) <= n < 2^k`.
pub proof fn lemma_bit_length_unique(n: nat, k: nat)
    requires
        k >= 1,
        pow2((k - 1) as nat) <= n < pow2(k),
    ensures
        bit_length(n) == k,
{
    lemma_pow2_pos((k - 1) as nat);
    lemma_bit_length(n);
    let len = bit_length(n);
    if len < k {
        if len < k - 1 {
            lemma_pow2_strictly_increases(len, (k - 1) as nat);
        }
    } else if len > k {
        if k < len - 1 {
            lemma_pow2_strictly_increases(k, (len - 1) as nat);
        }
    }
}

/// 2^128, one more than the largest `u128`.
pub proof fn lemma_pow2_128()
    ensures
        pow2(128) == 0x1_0000_0000_0000_0000_0000_0000_0000_0000,
        pow2(127) == 0x8000_0000_0000_0000_0000_0000_0000_0000,
        pow2(64) == 0x1_0000_0000_0000_0000,
{
    lemma2_to64();
    lemma2_to64_rest();
    lemma_pow2_adds(64, 64);
    lemma_pow2_unfold(128);
}

/// Shifting one to the left gives the powers of two.
proof fn lemma_shift_is_pow2(k: u128)
    requires
        k < 128,
    ensures
        (1u128 << k) == pow2(k as nat),
    decreases k,
{
    if k == 0 {
        lemma2_to64();
        assert(1u128 << 0u128 == 1) by (bit_vector);
    } else {
        let j = (k - 1) as u128;
        lemma_shift_is_pow2(j);
        lemma_pow2_unfold(k as nat);
        lemma_pow2_128();
        if k < 127 {
            lemma_pow2_strictly_increases(k as nat, 127);
        }
        assert((1u128 << k) == 2 * (1u128 << j)) by (bit_vector)
            requires
                0 < k < 128,
                j == k - 1,
        ;
    }
}

/// 2 to the power `k`.
pub fn power_of_two(k: u32) -> (r: u128)
    requires
        k < 128,
    ensures
        r == pow2(k as nat),
{
    proof {
        lemma_shift_is_pow2(k as u128);
    }
    1u128 << (k as u128)
}

/// Cutting `j` digits off a number that has more than `j` leaves `j` fewer.
pub proof fn lemma_bit_length_cut(n: nat, j: nat)
    requires
        n >= pow2(j),
    ensures
        bit_length(n) == bit_length(n / pow2(j)) + j,
    decreases j,
{
    lemma2_to64();
    lemma_pow2_pos(j);
    if j > 0 {
        let half = pow2((j - 1) as nat);
        lemma_pow2_unfold(j);
        lemma_pow2_pos((j - 1) as nat);
        vstd::arithmetic::div_mod::lemma_div_denominator(n as int, 2, half as int);
        assert((n / 2) / half == n / (2 * half));
        assert(n / 2 >= half);
        lemma_bit_length_cut(n / 2, (j - 1) as nat);
        assert(bit_length(n) == 1 + bit_length(n / 2));
    } else {
        assert(n / 1 == n);
    }
}

/// Cuts the last `j` digits off a number that has more than `j`, and
/// counts them.
fn cut_digits(rest: u128, len: u32, j: u32) -> (r: (u128, u32))
    requires
        0 < j <= 64,
        rest < pow2(2 * j as nat),
        len + j <= 128,
    ensures
        bit_length(r.0 as nat) + r.1 == bit_length(rest as nat) + len,
        r.0 < pow2(j as nat),
        r.1 <= len + j,
{
    let limit: u128 = power_of_two(j);
    if rest >= limit {
        proof {
            lemma_bit_length_cut(rest as nat, j as nat);
            lemma_pow2_adds(j as nat, j as nat);
            lemma_pow2_pos(j as nat);
            vstd::bits::lemma_u128_shr_is_div(rest, j as u128);
            lemma_multiply_divide_lt(rest as int, limit as int, limit as int);
        }
        (rest >> (j as u128), len + j)
    } else {
        (rest, len)
    }
}

/// The number of binary digits of `n`.
pub fn bit_length_of(n: u128) -> (r: u32)
    ensures
        r == bit_length(n as nat),
        r <= 128,
{
    proof {
        lemma2_to64();
        lemma_pow2_128();
    }
    let (rest, len) = cut_digits(n, 0, 64);
    let (rest, len) = cut_digits(rest, len, 32);
    let (rest, len) = cut_digits(rest, len, 16);
    let (rest, len) = cut_digits(rest, len, 8);
    let (rest, len) = cut_digits(rest, len, 4);
    let (rest, len) = cut_digits(rest, len, 2);
    let (rest, len) = cut_digits(rest, len, 1);
    proof {
        assert(bit_length(0) == 0);
        assert(bit_length(1) == 1);
    }
    if rest >= 1 {
        len + 1
    } else {
        len
    }
}

/// The bit pattern of the non-negative double nearest to `n * 2^e`.
pub fn round_scaled(n: u128, e: i64) -> (r: u64)
    requires
        n < 0x8000_0000_0000_0000_0000_0000_0000_0000,
        -8192 <= e <= 8192,
    ensures
        r == nearest(n as nat, e as int),
{
    if n == 0 {
        return 0;
    }
    let len: u32 = bit_length_of(n);
    let natural: i64 = len as i64 - 53 + e;
    let g: i64 = if natural < -1074 {
        -1074
    } else {
        natural
    };
    proof {
        lemma_bit_length(n as nat);
        lemma_pow2_128();
        lemma2_to64_rest();
        if len > 127 {
            assert(pow2(127) <= n);
        }
        assert(quantum(n as nat, e as int) == g);
    }
    let sig: u128;
    if g <= e {
        let shift: u32 = (e - g) as u32;
        proof {
            assert(shift + len <= 53);
            lemma_pow2_adds(len as nat, shift as nat);
            if shift + len < 53 {
                lemma_pow2_strictly_increases((len + shift) as nat, 53);
            }
            lemma_pow2_pos(shift as nat);
            lemma_mul_strict_inequality(n as int, pow2(len as nat) as int, pow2(shift as nat) as int);
            assert(n * pow2(shift as nat) < pow2(53));
        }
        sig = n * power_of_two(shift);
    } else {
        let shift: i64 = g - e;
        if shift >= 128 {
            proof {
                let d = pow2(shift as nat);
                if shift > 128 {
                    lemma_pow2_strictly_increases(128, shift as nat);
                }
                assert(2 * n < d);
                vstd::arithmetic::div_mod::lemma_basic_div(n as int, d as int);
                vstd::arithmetic::div_mod::lemma_small_mod(n as nat, d);
                assert(round_half_even(n as nat, d) == 0);
            }
            sig = 0;
        } else {
            let d: u128 = power_of_two(shift as u32);
            proof {
                lemma_pow2_pos(shift as nat);
            }
            proof {
                vstd::bits::lemma_u128_shr_is_div(n, shift as u128);
                lemma_fundamental_div_mod(n as int, d as int);
                lemma_remainder(n as int, d as int);
                assert(d * (n / d) <= n);
            }
            let q: u128 = n >> (shift as u128);
            let r: u128 = n - q * d;
            proof {
                assert(q == n / d);
                assert(r == n % d);
                if shift < 127 {
                    lemma_pow2_strictly_increases(shift as nat, 127);
                }
                assert(r < d);
                if len <= 53 {
                    if len < 53 {
                        lemma_pow2_strictly_increases(len as nat, 53);
                    }
                    lemma2_to64();
                    lemma_pow2_strictly_increases(0, shift as nat);
                    vstd::arithmetic::div_mod::lemma_div_decreases(n as int, d as int);
                    assert(q < pow2(53));
                } else {
                    assert(shift >= len - 53);
                    lemma_pow2_adds(53, (len - 53) as nat);
                    if shift > len - 53 {
                        lemma_pow2_strictly_increases((len - 53) as nat, shift as nat);
                    }
                    lemma_mul_inequality(
                        pow2((len - 53) as nat) as int,
                        d as int,
                        pow2(53) as int,
                    );
                    lemma_mul_is_commutative(pow2(53) as int, d as int);
                    lemma_mul_is_commutative(pow2(53) as int, pow2((len - 53) as nat) as int);
                    assert(n < pow2(53) * d);
                    lemma_multiply_divide_lt(n as int, d as int, pow2(53) as int);
                    assert(q < pow2(53));
                }
            }
            let up: bool = 2 * r > d || (2 * r == d && q % 2 == 1);
            sig = if up {
                q + 1
            } else {
                q
            };
        }
    }
    proof {
        assert(sig == scaled_significand(n as nat, e as int));
        assert(sig <= pow2(53));
    }
    let bits: u128 = ((g + 1074) as u128) * 0x10_0000_0000_0000 + sig;
    if bits >= INFINITY as u128 {
        INFINITY
    } else {
        bits as u64
    }
}

/// The length of the ratio `n / d`: the `k` with `2^(k-1) <= n / d < 2^k`,
/// which is negative or zero for a ratio below one half.
pub open spec fn ratio_length(n: nat, d: nat) -> int
    recommends
        n > 0,
        d > 0,
{
    bit_length((n * pow2(bit_length(d))) / d) - bit_length(d)
}

/// The exponent of the last place of the double nearest to `n / d * 2^e`.
pub open spec fn ratio_quantum(n: nat, d: nat, e: int) -> int {
    let g = ratio_length(n, d) - 53 + e;
    if g < -1074 {
        -1074
    } else {
        g
    }
}

/// `n / d * 2^e` in units of its quantum, rounded to an integer.
pub open spec fn ratio_significand(n: nat, d: nat, e: int) -> nat {
    let g = ratio_quantum(n, d, e);
    if g <= e {
        round_half_even(n * pow2((e - g) as nat), d)
    } else {
        round_half_even(n, d * pow2((g - e) as nat))
    }
}

/// The bit pattern of the non-negative double nearest to `n / d * 2^e`,
/// ties to even; `INFINITY` where that lies beyond the largest finite double.
pub open spec fn nearest_ratio(n: nat, d: nat, e: int) -> u64
    recommends
        d > 0,
{
    if n == 0 {
        0
    } else {
        let bits = (ratio_quantum(n, d, e) + 1074) * pow2(52) + ratio_significand(n, d, e);
        if bits >= INFINITY {
            INFINITY
        } else {
            bits as u64
        }
    }
}

/// The powers of two do not decrease.
pub proof fn lemma_pow2_le(a: nat, b: nat)
    requires
        a <= b,
    ensures
        pow2(a) <= pow2(b),
{
    if a < b {
        lemma_pow2_strictly_increases(a, b);
    }
}

/// A number below `2^k` has at most `k` binary digits.
pub proof fn lemma_bit_length_le(n: nat, k: nat)
    requires
        n < pow2(k),
    ensures
        bit_length(n) <= k,
{
    if n > 0 {
        lemma_bit_length(n);
        if bit_length(n) > k {
            lemma_pow2_le(k, (bit_length(n) - 1) as nat);
        }
    }
}

/// The integer nearest to `n / d`, ties to even.
pub fn divide_half_even(n: u128, d: u128) -> (r: u128)
    requires
        d > 0,
        n / d < u128::MAX,
    ensures
        r == round_half_even(n as nat, d as nat),
{
    let q: u128 = n / d;
    let r: u128 = n % d;
    if r > d - r || (r == d - r && q % 2 == 1) {
        q + 1
    } else {
        q
    }
}

/// From `n * pk < d * pl` and `pl * ps <= pm * pk` follows `n * ps < d * pm`.
pub proof fn lemma_rescale(n: int, d: int, pk: int, pl: int, ps: int, pm: int)
    requires
        0 <= n,
        0 < d,
        0 < pk,
        0 < pl,
        0 < ps,
        0 < pm,
        n * pk < d * pl,
        pl * ps <= pm * pk,
    ensures
        n * ps < d * pm,
{
    assert((n * pk) * ps < (d * pl) * ps) by (nonlinear_arith)
        requires
            n * pk < d * pl,
            0 < ps,
    ;
    assert((d * pl) * ps == d * (pl * ps)) by (nonlinear_arith);
    assert(d * (pl * ps) <= d * (pm * pk)) by (nonlinear_arith)
        requires
            pl * ps <= pm * pk,
            0 < d,
    ;
    assert((n * pk) * ps == (n * ps) * pk) by (nonlinear_arith);
    assert(d * (pm * pk) == (d * pm) * pk) by (nonlinear_arith);
    assert(n * ps < d * pm) by (nonlinear_arith)
        requires
            (n * ps) * pk < (d * pm) * pk,
            0 < pk,
    ;
}

/// The bit pattern of the non-negative double nearest to `n / d * 2^e`.
pub fn round_ratio(n: u128, d: u128, e: i64) -> (r: u64)
    requires
        n < 0x40_0000_0000_0000,
        0 < d < 0x40_0000_0000_0000,
        -8192 <= e <= 8192,
    ensures
        r == nearest_ratio(n as nat, d as nat, e as int),
{
    if n == 0 {
        return 0;
    }
    let k: u32 = bit_length_of(d);
    proof {
        lemma2_to64_rest();
        lemma_pow2_128();
        lemma_bit_length(d as nat);
        lemma_bit_length_le(d as nat, 54);
        lemma_pow2_le(k as nat, 54);
        assert(n * pow2(k as nat) < 0x40_0000_0000_0000 * 0x40_0000_0000_0000) by (nonlinear_arith)
            requires
                n < 0x40_0000_0000_0000,
                pow2(k as nat) <= 0x40_0000_0000_0000,
        ;
    }
    let scaled: u128 = n * power_of_two(k);
    let x: u128 = scaled / d;
    let len: u32 = bit_length_of(x);
    proof {
        assert(scaled >= d) by (nonlinear_arith)
            requires
                scaled == n * pow2(k as nat),
                n >= 1,
                d < pow2(k as nat),
        ;
        lemma_fundamental_div_mod(scaled as int, d as int);
        lemma_remainder(scaled as int, d as int);
        assert(x >= 1) by (nonlinear_arith)
            requires
                scaled >= d,
                scaled == d * x + scaled % d,
                0 <= scaled % d < d,
                d > 0,
        ;
        lemma_bit_length(x as nat);
        assert(scaled < d * pow2(len as nat)) by (nonlinear_arith)
            requires
                scaled == d * x + scaled % d,
                0 <= scaled % d < d,
                x < pow2(len as nat),
        ;
        assert(ratio_length(n as nat, d as nat) == len - k);
    }
    let natural: i64 = len as i64 - k as i64 - 53 + e;
    let g: i64 = if natural < -1074 {
        -1074
    } else {
        natural
    };
    let sig: u128;
    if g <= e {
        let shift: u32 = (e - g) as u32;
        proof {
            assert(len + shift <= 53 + k);
            lemma_pow2_adds(len as nat, shift as nat);
            lemma_pow2_adds(53, k as nat);
            lemma_pow2_le((len + shift) as nat, (53 + k) as nat);
            lemma_pow2_pos(k as nat);
            lemma_pow2_pos(len as nat);
            lemma_pow2_pos(shift as nat);
            lemma_rescale(
                n as int,
                d as int,
                pow2(k as nat) as int,
                pow2(len as nat) as int,
                pow2(shift as nat) as int,
                pow2(53) as int,
            );
            assert(d * pow2(53) < 0x40_0000_0000_0000 * 0x20_0000_0000_0000) by (nonlinear_arith)
                requires
                    d < 0x40_0000_0000_0000,
                    pow2(53) == 0x20_0000_0000_0000,
            ;
            lemma_pow2_le(shift as nat, 107);
            lemma_pow2_adds(64, 43);
            if shift >= 128 {
                lemma_pow2_le(107, shift as nat);
                assert(n * pow2(shift as nat) >= pow2(107)) by (nonlinear_arith)
                    requires
                        n >= 1,
                        pow2(shift as nat) >= pow2(107),
                ;
            }
        }
        let num: u128 = n * power_of_two(shift);
        proof {
            lemma_mul_is_commutative(d as int, pow2(53) as int);
            lemma_multiply_divide_lt(num as int, d as int, pow2(53) as int);
            assert(num / d < pow2(53));
        }
        sig = divide_half_even(num, d);
    } else {
        let shift: i64 = g - e;
        if shift >= 64 {
            proof {
                let den = d * pow2(shift as nat);
                lemma_pow2_le(64, shift as nat);
                assert(den >= pow2(64)) by (nonlinear_arith)
                    requires
                        den == d * pow2(shift as nat),
                        d >= 1,
                        pow2(shift as nat) >= pow2(64),
                ;
                vstd::arithmetic::div_mod::lemma_basic_div(n as int, den as int);
                vstd::arithmetic::div_mod::lemma_small_mod(n as nat, den as nat);
                assert(round_half_even(n as nat, den as nat) == 0);
            }
            sig = 0;
        } else {
            proof {
                lemma_pow2_le(shift as nat, 63);
                lemma_pow2_le(1, shift as nat);
                lemma2_to64();
                assert(d * pow2(shift as nat) < 0x40_0000_0000_0000 * 0x8000_0000_0000_0000)
                    by (nonlinear_arith)
                    requires
                        d < 0x40_0000_0000_0000,
                        pow2(shift as nat) <= 0x8000_0000_0000_0000,
                ;
                assert(d * pow2(shift as nat) >= 2) by (nonlinear_arith)
                    requires
                        d >= 1,
                        pow2(shift as nat) >= 2,
                ;
            }
            let den: u128 = d * power_of_two(shift as u32);
            proof {
                lemma_fundamental_div_mod(n as int, den as int);
                lemma_remainder(n as int, den as int);
                assert(2 * (n / den) <= n) by (nonlinear_arith)
                    requires
                        n == den * (n / den) + n % den,
                        0 <= n % den,
                        den >= 2,
                        0 <= n / den,
                ;
                assert(n / den < pow2(53));
            }
            sig = divide_half_even(n, den);
        }
    }
    proof {
        assert(sig == ratio_significand(n as nat, d as nat, e as int));
        assert(sig <= pow2(53));
    }
    let bits: u128 = ((g + 1074) as u128) * 0x10_0000_0000_0000 + sig;
    if bits >= INFINITY as u128 {
        INFINITY
    } else {
        bits as u64
    }
}

} // verus!
