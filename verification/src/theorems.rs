//! What holds of the statistics together: of every sample, or of two calls.

use vstd::prelude::*;
use crate::arithmetic::{
    signed_units,
    spec_ceiling_to_usize,
    spec_difference,
    spec_from_usize,
    spec_negate,
    spec_product,
    spec_quotient,
    spec_sum,
    spec_to_usize,
};
use crate::descriptive_statistics::errors::StatsError;
use crate::descriptive_statistics::order::{
    FIFTY,
    held,
    iqr_outcome,
    is_percent,
    mad_outcome,
    median_of,
    median_outcome,
    percentile_of,
    percentile_outcome,
    range_outcome,
    rank,
    trimmed,
    trimmed_mean_outcome,
    trimmed_variance_outcome,
};
use crate::descriptive_statistics::shape::{kurtosis_outcome, skewness_outcome, summary_outcome};
use crate::descriptive_statistics::{
    correlation_denominator,
    correlation_numerator,
    correlation_outcome,
    covariance_outcome,
    mean_of,
    mean_outcome,
    pair_products,
    spread_term,
    squares,
    total,
    variance_outcome,
    weighted_mean_outcome,
};
use crate::double::{
    HALF,
    HUNDRED,
    NAN,
    ONE,
    TWO,
    ZERO,
    exponent,
    key,
    significand,
    spec_is_finite,
    spec_is_nan,
    spec_is_negative,
    spec_is_zero,
    spec_magnitude,
};
use crate::inferential_statistics::{
    confidence_interval_outcome,
    ecdf,
    ecdf_gap,
    greatest_gap,
    is_confidence_level,
    ks_outcome,
    standard_error,
};
use crate::sorting::{first_min, last_max, lemma_sorted, lemma_sorted_ends, ordered, sorted};
use crate::validation::{basic_verdict, is_sample, trim_count, weighted_verdict};

verus! {

/// A sequence that is no sample fails every statistic of one sample with
/// the error of the basic check: `EmptyDataSet` where it is empty,
/// `InvalidInputValue` where it holds a NaN or an infinity. Whatever the
/// parameters are, they are not looked at.
pub proof fn lemma_no_sample_no_statistic(
    s: Seq<u64>,
    parameter: u64,
    quantile: Option<u64>,
    e: StatsError,
)
    requires
        basic_verdict(s) == Err::<(), StatsError>(e),
    ensures
        e == StatsError::EmptyDataSet <==> s.len() == 0,
        e == StatsError::InvalidInputValue <==> s.len() > 0,
        mean_outcome(s) == Err::<u64, StatsError>(e),
        median_outcome(s) == Err::<u64, StatsError>(e),
        percentile_outcome(s, parameter) == Err::<u64, StatsError>(e),
        variance_outcome(s) == Err::<u64, StatsError>(e),
        trimmed_mean_outcome(s, parameter) == Err::<u64, StatsError>(e),
        trimmed_variance_outcome(s, parameter) == Err::<u64, StatsError>(e),
        mad_outcome(s) == Err::<u64, StatsError>(e),
        iqr_outcome(s) == Err::<u64, StatsError>(e),
        range_outcome(s) == Err::<u64, StatsError>(e),
        skewness_outcome(s) == Err::<u64, StatsError>(e),
        kurtosis_outcome(s) == Err::<u64, StatsError>(e),
        summary_outcome(s) is Err,
        summary_outcome(s)->Err_0 == e,
        confidence_interval_outcome(s, parameter, quantile) == Err::<(u64, u64), StatsError>(e),
{
}

/// A sequence that is no sample fails every statistic of two samples with
/// the error of the basic check, where it is the first of the two, and
/// where it is the second and the first is a sample.
pub proof fn lemma_no_sample_no_paired_statistic(s: Seq<u64>, other: Seq<u64>, e: StatsError)
    requires
        basic_verdict(s) == Err::<(), StatsError>(e),
    ensures
        weighted_mean_outcome(s, other) == Err::<u64, StatsError>(e),
        covariance_outcome(s, other) == Err::<u64, StatsError>(e),
        correlation_outcome(s, other) == Err::<u64, StatsError>(e),
        ks_outcome(s, other) == Err::<u64, StatsError>(e),
        is_sample(other) ==> weighted_mean_outcome(other, s) == Err::<u64, StatsError>(e),
        is_sample(other) ==> covariance_outcome(other, s) == Err::<u64, StatsError>(e),
        is_sample(other) ==> correlation_outcome(other, s) == Err::<u64, StatsError>(e),
        is_sample(other) ==> ks_outcome(other, s) == Err::<u64, StatsError>(e),
{
}

/// Two samples of different lengths fail every statistic of weighted or
/// paired samples with `InconsistentLength`.
pub proof fn lemma_mismatched_lengths_fail(x: Seq<u64>, y: Seq<u64>)
    requires
        is_sample(x),
        is_sample(y),
        x.len() != y.len(),
    ensures
        weighted_mean_outcome(x, y) == Err::<u64, StatsError>(StatsError::InconsistentLength),
        covariance_outcome(x, y) == Err::<u64, StatsError>(StatsError::InconsistentLength),
        correlation_outcome(x, y) == Err::<u64, StatsError>(StatsError::InconsistentLength),
{
}

/// The percentile 0 of a sample is its least element and the percentile
/// 100 its greatest, the two elements whose distance is the range.
pub proof fn lemma_extreme_percentiles(s: Seq<u64>)
    requires
        is_sample(s),
        s.len() <= usize::MAX,
    ensures
        percentile_outcome(s, ZERO) == Ok::<u64, StatsError>(first_min(s)),
        percentile_outcome(s, HUNDRED) == Ok::<u64, StatsError>(last_max(s)),
        range_outcome(s) == Ok::<u64, StatsError>(
            spec_magnitude(spec_difference(percentile_of(s, HUNDRED), percentile_of(s, ZERO))),
        ),
{
    lemma_sorted(s);
    lemma_sorted_ends(s);
}

/// A double less itself is 0.0, and NaN where it is not finite.
pub proof fn lemma_difference_of_equals(a: u64)
    ensures
        spec_is_finite(a) ==> spec_difference(a, a) == ZERO,
        !spec_is_finite(a) ==> spec_difference(a, a) == NAN,
{
    let b = spec_negate(a);
    assert(spec_magnitude(b) == spec_magnitude(a));
    assert(spec_is_negative(b) != spec_is_negative(a));
    if spec_is_finite(a) {
        assert(significand(b) == significand(a));
        assert(exponent(b) == exponent(a));
        let e = exponent(a);
        assert(signed_units(a, e) + signed_units(b, e) == 0);
    }
}

/// Between a sample and itself there is no gap at any place.
proof fn lemma_no_gap(x: Seq<u64>, places: Seq<u64>)
    ensures
        greatest_gap(x, x, places) == ZERO,
    decreases places.len(),
{
    if places.len() > 0 {
        lemma_no_gap(x, places.drop_last());
        lemma_difference_of_equals(ecdf(x, places.last()));
    }
}

/// The Kolmogorov-Smirnov statistic of a sample with itself is 0.0.
pub proof fn lemma_ks_of_equal_samples(x: Seq<u64>)
    requires
        is_sample(x),
    ensures
        ks_outcome(x, x) == Ok::<u64, StatsError>(ZERO),
{
    lemma_no_gap(x, x + x);
}

/// An ordered sequence is its own sorted sequence.
pub proof fn lemma_sorted_of_ordered(s: Seq<u64>)
    requires
        ordered(s),
    ensures
        sorted(s) == s,
    decreases s.len(),
{
    if s.len() > 0 {
        let front = s.drop_last();
        lemma_sorted_of_ordered(front);
        assert(front.push(s.last()) =~= s);
        if front.len() > 0 {
            assert(front.last() == s[s.len() - 2]);
        }
    }
}

/// No trimming at all: the trim count of the fraction 0.0 is 0.
pub proof fn lemma_zero_trim_count(n: usize)
    ensures
        trim_count(n, ZERO) == 0,
{
    let length = spec_from_usize(n);
    let scaled = spec_product(length, ZERO);
    assert(significand(ZERO) == 0);
    if spec_is_finite(length) {
        assert(significand(length) * 0 == 0);
        assert(scaled == ZERO);
        assert(significand(scaled) == 0);
        assert(significand(scaled) * vstd::arithmetic::power2::pow2(exponent(scaled) as nat) == 0)
            by (nonlinear_arith)
            requires
                significand(scaled) == 0,
        ;
        assert(exponent(scaled) == -1074);
        vstd::arithmetic::div_mod::lemma_div_basics_1(
            vstd::arithmetic::power2::pow2(1074) as int,
        );
        vstd::arithmetic::power2::lemma_pow2_pos(1074);
    }
}

/// The trimmed mean with the trim fraction 0.0 is the mean of the sorted
/// sample. It is the mean of the sample itself wherever adding the elements
/// up in ascending order gives the total that adding them up in their own
/// order gives, as it does for every sample that is in ascending order.
pub proof fn lemma_zero_trim_is_mean(s: Seq<u64>)
    requires
        is_sample(s),
        s.len() <= usize::MAX,
    ensures
        trimmed_mean_outcome(s, ZERO) == Ok::<u64, StatsError>(mean_of(sorted(s))),
        total(sorted(s)) == total(s) ==> trimmed_mean_outcome(s, ZERO) == mean_outcome(s),
        ordered(s) ==> trimmed_mean_outcome(s, ZERO) == mean_outcome(s),
{
    lemma_zero_trim_count(s.len() as usize);
    lemma_sorted(s);
    assert(trimmed(s, 0) =~= sorted(s));
    if ordered(s) {
        lemma_sorted_of_ordered(s);
    }
}

/// The double halfway from `a` to `b`, as interpolation finds it: `a` plus
/// half the step to `b`.
pub open spec fn halfway(a: u64, b: u64) -> u64 {
    spec_sum(a, spec_product(HALF, spec_difference(b, a)))
}

/// The mean of `a` and `b`, as the median finds it: half their sum.
pub open spec fn midpoint(a: u64, b: u64) -> u64 {
    spec_quotient(spec_sum(a, b), TWO)
}

/// The rank of the percentile 50 among `n` elements is half of `n - 1`,
/// exactly: a whole number for an odd `n`, and one half more than a whole
/// number for an even `n`.
pub proof fn lemma_middle_rank(n: usize)
    requires
        0 < n < vstd::arithmetic::power2::pow2(53),
    ensures
        spec_to_usize(rank(n, FIFTY)) == (n - 1) / 2,
        spec_ceiling_to_usize(rank(n, FIFTY)) == n / 2,
        n % 2 == 0 ==> spec_difference(rank(n, FIFTY), spec_from_usize(((n - 1) / 2) as usize))
            == HALF,
{
    let k = (n - 1) as nat;
    crate::exactness::lemma_half_of_hundred();
    crate::exactness::lemma_less_one(n as nat);
    crate::exactness::lemma_half_of_whole(k);
    crate::exactness::lemma_half_whole_parts(k);
    assert(rank(n, FIFTY) == crate::rounding::nearest(k, -1));
    if n % 2 == 0 {
        crate::exactness::lemma_half_step(k);
    }
}

/// The percentile 50 of a sequence of odd length is its median. That of a
/// sequence of even length lies halfway between the two elements in the
/// middle of the sorted sequence, of which the median is the mean.
pub proof fn lemma_middle_percentile(s: Seq<u64>)
    requires
        0 < s.len() < vstd::arithmetic::power2::pow2(53),
        s.len() <= usize::MAX,
    ensures
        s.len() % 2 == 1 ==> percentile_of(s, FIFTY) == median_of(s),
        s.len() % 2 == 0 ==> percentile_of(s, FIFTY) == halfway(
            sorted(s)[s.len() / 2 - 1],
            sorted(s)[s.len() as int / 2],
        ),
        s.len() % 2 == 0 ==> median_of(s) == midpoint(
            sorted(s)[s.len() / 2 - 1],
            sorted(s)[s.len() as int / 2],
        ),
{
    lemma_middle_rank(s.len() as usize);
}

/// The median of a sample is its percentile 50, wherever the mean of the
/// two elements in the middle is the double halfway between them; for a
/// sample of odd length that is no condition.
pub proof fn lemma_median_is_middle_percentile(s: Seq<u64>)
    requires
        is_sample(s),
        s.len() < vstd::arithmetic::power2::pow2(53),
        s.len() <= usize::MAX,
        s.len() % 2 == 0 ==> midpoint(sorted(s)[s.len() / 2 - 1], sorted(s)[s.len() as int / 2])
            == halfway(sorted(s)[s.len() / 2 - 1], sorted(s)[s.len() as int / 2]),
    ensures
        median_outcome(s) == percentile_outcome(s, FIFTY),
{
    lemma_middle_percentile(s);
}

/// The correlation of a sample with itself is 1.0, wherever the spread
/// term of the sample is positive and its square is in the range of the
/// normal doubles, which makes the root of the square the spread term
/// again.
pub proof fn lemma_self_correlation(x: Seq<u64>)
    requires
        is_sample(x),
        spec_is_finite(spread_term(x)),
        key(spread_term(x)) > 0,
        exponent(spread_term(x)) >= -563,
        spec_is_finite(spec_product(spread_term(x), spread_term(x))),
    ensures
        correlation_outcome(x, x) == Ok::<u64, StatsError>(ONE),
{
    let a = spread_term(x);
    assert(pair_products(x, x) =~= squares(x));
    assert(correlation_numerator(x, x) == a);
    crate::exactness::lemma_root_of_square(a);
    assert(correlation_denominator(x, x) == a);
    crate::arithmetic::lemma_pack(a);
    assert(significand(a) > 0);
    crate::exactness::lemma_ratio_of_equals(significand(a), 0);
    crate::exactness::lemma_nearest_of_one(0);
}

/// Where the spread term of one sample is zero and that of the other is
/// finite, as they are for a constant sample whose totals are exact, the
/// correlation fails with `ZeroVariance`.
pub proof fn lemma_no_spread_no_correlation(x: Seq<u64>, y: Seq<u64>)
    requires
        weighted_verdict(x, y) is Ok,
        spec_is_finite(spread_term(x)),
        spec_is_finite(spread_term(y)),
        spec_is_zero(spread_term(x)) || spec_is_zero(spread_term(y)),
    ensures
        correlation_outcome(x, y) == Err::<u64, StatsError>(StatsError::ZeroVariance),
{
    let a = spread_term(x);
    let b = spread_term(y);
    assert(significand(a) * significand(b) == 0) by (nonlinear_arith)
        requires
            significand(a) == 0 || significand(b) == 0,
    ;
    assert(spec_is_zero(spec_product(a, b)));
}

/// The bounds of the confidence interval of a sample of two elements or
/// more enclose the mean, wherever the mean is finite and the half width,
/// the quantile times the standard error, is a number that is not negative.
pub proof fn lemma_interval_encloses_mean(s: Seq<u64>, level: u64, quantile: u64)
    requires
        is_sample(s),
        s.len() >= 2,
        is_confidence_level(level),
        spec_is_finite(mean_of(s)),
        !spec_is_nan(spec_product(quantile, standard_error(s))),
        key(spec_product(quantile, standard_error(s))) >= 0,
    ensures
        confidence_interval_outcome(s, level, Some(quantile)) matches Ok(bounds) && !spec_is_nan(
            bounds.0,
        ) && !spec_is_nan(bounds.1) && key(bounds.0) <= key(mean_of(s)) <= key(bounds.1),
{
    let half = spec_product(quantile, standard_error(s));
    crate::monotonicity::lemma_sum_not_below(mean_of(s), half);
    crate::monotonicity::lemma_difference_not_above(mean_of(s), half);
}

/// A sum does not depend on the order of its two terms.
pub proof fn lemma_sum_commutes(a: u64, b: u64)
    ensures
        spec_sum(a, b) == spec_sum(b, a),
{
}

/// The double of a natural number that fits a `usize` is finite and not
/// negative, and at least 1.0 unless the number is 0.
pub proof fn lemma_whole_is_finite(n: usize)
    ensures
        spec_is_finite(spec_from_usize(n)),
        !spec_is_negative(spec_from_usize(n)),
        n >= 1 ==> spec_from_usize(n) >= ONE,
{
    vstd::arithmetic::power2::lemma2_to64();
    vstd::arithmetic::power2::lemma2_to64_rest();
    crate::rounding::lemma_pow2_128();
    crate::rounding::lemma_bit_length_unique(1, 1);
    let top = vstd::arithmetic::power2::pow2(64);
    assert(top == 1 * top);
    crate::exactness::lemma_nearest_scaled(1, 64, 0);
    crate::exactness::lemma_nearest_unpacked(1, 64);
    crate::monotonicity::lemma_nearest_increases(n as nat, top, 0);
    if n >= 1 {
        crate::exactness::lemma_nearest_of_one(0);
        crate::monotonicity::lemma_nearest_increases(1, n as nat, 0);
    }
}

/// An empirical distribution function takes values from 0.0 to 1.0.
pub proof fn lemma_ecdf_range(s: Seq<u64>, v: u64)
    requires
        0 < s.len() <= usize::MAX,
    ensures
        spec_is_finite(ecdf(s, v)),
        0 <= key(ecdf(s, v)) <= key(ONE),
{
    let c = crate::inferential_statistics::count_at_most(s, v) as usize;
    let n = s.len() as usize;
    crate::inferential_statistics::lemma_count_bound(s, v);
    lemma_whole_is_finite(c);
    lemma_whole_is_finite(n);
    crate::monotonicity::lemma_nearest_increases(c as nat, n as nat, 0);
    crate::ratios::lemma_quotient_of_part(spec_from_usize(c), spec_from_usize(n));
}

/// The gap between two empirical distribution functions is a number from
/// 0.0 to 1.0.
pub proof fn lemma_gap_range(x: Seq<u64>, y: Seq<u64>, v: u64)
    requires
        0 < x.len() <= usize::MAX,
        0 < y.len() <= usize::MAX,
    ensures
        !spec_is_nan(ecdf_gap(x, y, v)),
        0 <= key(ecdf_gap(x, y, v)) <= key(ONE),
{
    let a = ecdf(x, v);
    let b = ecdf(y, v);
    lemma_ecdf_range(x, v);
    lemma_ecdf_range(y, v);
    crate::monotonicity::lemma_difference_not_above(a, b);
    lemma_sum_commutes(a, spec_negate(b));
    crate::monotonicity::lemma_sum_not_below(spec_negate(b), a);
}

/// The greatest gap at any places is a number from 0.0 to 1.0.
pub proof fn lemma_greatest_gap_range(x: Seq<u64>, y: Seq<u64>, places: Seq<u64>)
    requires
        0 < x.len() <= usize::MAX,
        0 < y.len() <= usize::MAX,
    ensures
        !spec_is_nan(greatest_gap(x, y, places)),
        0 <= key(greatest_gap(x, y, places)) <= key(ONE),
    decreases places.len(),
{
    if places.len() > 0 {
        lemma_greatest_gap_range(x, y, places.drop_last());
        lemma_gap_range(x, y, places.last());
    }
}

/// The rank of a percentile from 0 to 100 among fewer than 2^53 elements
/// points into the sample: rounded down or up it is an index of the sorted
/// sample, so that no index is ever held back to the last one.
pub proof fn lemma_rank_within(n: usize, p: u64)
    requires
        0 < n < vstd::arithmetic::power2::pow2(53),
        is_percent(p),
    ensures
        spec_to_usize(rank(n, p)) <= spec_ceiling_to_usize(rank(n, p)) <= n - 1,
        held(spec_to_usize(rank(n, p)), n) == spec_to_usize(rank(n, p)),
        held(spec_ceiling_to_usize(rank(n, p)), n) == spec_ceiling_to_usize(rank(n, p)),
{
    vstd::arithmetic::power2::lemma2_to64_rest();
    let q = spec_quotient(p, HUNDRED);
    let last = crate::rounding::nearest((n - 1) as nat, 0);
    crate::exactness::lemma_less_one(n as nat);
    lemma_whole_is_finite((n - 1) as usize);
    assert(spec_from_usize((n - 1) as usize) == last);
    if spec_is_negative(p) {
        assert(significand(p) == 0);
        assert(0 * significand(last) == 0);
        assert(spec_is_negative(rank(n, p)));
    } else {
        crate::ratios::lemma_quotient_of_part(p, HUNDRED);
        crate::ratios::lemma_product_of_part(q, last);
        crate::ratios::lemma_whole_parts_bounded(rank(n, p), (n - 1) as nat);
    }
}

/// Of two quantiles the greater gives the wider interval: the interval of
/// the greater quantile encloses that of the lesser, which encloses the
/// mean. The quantiles are finite and not negative, the mean is finite, and
/// both half widths are numbers.
pub proof fn lemma_greater_quantile_wider_interval(
    s: Seq<u64>,
    level: u64,
    wider_level: u64,
    quantile: u64,
    greater_quantile: u64,
)
    requires
        is_sample(s),
        s.len() >= 2,
        is_confidence_level(level),
        is_confidence_level(wider_level),
        spec_is_finite(mean_of(s)),
        spec_is_finite(quantile),
        spec_is_finite(greater_quantile),
        !spec_is_negative(quantile),
        !spec_is_negative(greater_quantile),
        quantile <= greater_quantile,
        !spec_is_nan(spec_product(quantile, standard_error(s))),
        !spec_is_nan(spec_product(greater_quantile, standard_error(s))),
    ensures
        confidence_interval_outcome(s, level, Some(quantile)) matches Ok(inner)
            && confidence_interval_outcome(s, wider_level, Some(greater_quantile)) matches Ok(
            outer,
        ) && !spec_is_nan(inner.0) && !spec_is_nan(inner.1) && !spec_is_nan(outer.0)
            && !spec_is_nan(outer.1) && key(outer.0) <= key(inner.0) <= key(mean_of(s)) <= key(
            inner.1,
        ) <= key(outer.1),
{
    let se = standard_error(s);
    let m = mean_of(s);
    let h1 = spec_product(quantile, se);
    let h2 = spec_product(greater_quantile, se);
    crate::exactness::lemma_root_not_negative(
        spec_quotient(
            crate::descriptive_statistics::sample_variance(s),
            spec_from_usize(s.len() as usize),
        ),
    );
    assert(!spec_is_nan(se));
    if spec_is_finite(se) {
        crate::monotonicity::lemma_product_increases(quantile, greater_quantile, se);
    } else {
        assert(h1 == crate::double::INFINITY && h2 == crate::double::INFINITY);
    }
    crate::monotonicity::lemma_sum_not_below(m, h1);
    crate::monotonicity::lemma_difference_not_above(m, h1);
    crate::monotonicity::lemma_sum_increases(m, h1, h2);
    crate::monotonicity::lemma_sum_increases(m, spec_negate(h2), spec_negate(h1));
}

/// The lower bound of the interval that a quantile gives.
pub open spec fn lower_bound(s: Seq<u64>, quantile: u64) -> u64 {
    spec_difference(mean_of(s), spec_product(quantile, standard_error(s)))
}

/// The upper bound of the interval that a quantile gives.
pub open spec fn upper_bound(s: Seq<u64>, quantile: u64) -> u64 {
    spec_sum(mean_of(s), spec_product(quantile, standard_error(s)))
}

/// Of two quantiles the greater gives no narrower an interval: the width,
/// the upper bound less the lower, does not shrink. It need not grow, for
/// two half widths can round to the same bounds. The inner upper bound and
/// the outer lower bound are finite, which makes both widths numbers.
pub proof fn lemma_greater_quantile_no_narrower(
    s: Seq<u64>,
    quantile: u64,
    greater_quantile: u64,
)
    requires
        is_sample(s),
        s.len() >= 2,
        spec_is_finite(mean_of(s)),
        spec_is_finite(quantile),
        spec_is_finite(greater_quantile),
        !spec_is_negative(quantile),
        !spec_is_negative(greater_quantile),
        quantile <= greater_quantile,
        !spec_is_nan(spec_product(quantile, standard_error(s))),
        !spec_is_nan(spec_product(greater_quantile, standard_error(s))),
        spec_is_finite(upper_bound(s, quantile)),
        spec_is_finite(lower_bound(s, greater_quantile)),
    ensures
        !spec_is_nan(spec_difference(upper_bound(s, quantile), lower_bound(s, quantile))),
        !spec_is_nan(
            spec_difference(upper_bound(s, greater_quantile), lower_bound(s, greater_quantile)),
        ),
        key(spec_difference(upper_bound(s, quantile), lower_bound(s, quantile))) <= key(
            spec_difference(upper_bound(s, greater_quantile), lower_bound(s, greater_quantile)),
        ),
{
    lemma_greater_quantile_wider_interval(s, HALF, HALF, quantile, greater_quantile);
    let l1 = lower_bound(s, quantile);
    let u1 = upper_bound(s, quantile);
    let l2 = lower_bound(s, greater_quantile);
    let u2 = upper_bound(s, greater_quantile);
    crate::monotonicity::lemma_sum_increases(u1, spec_negate(l1), spec_negate(l2));
    lemma_sum_commutes(u1, spec_negate(l2));
    lemma_sum_commutes(u2, spec_negate(l2));
    crate::monotonicity::lemma_sum_increases(spec_negate(l2), u1, u2);
}

/// The covariance of a sample with itself is its variance, for a sample of
/// fewer than 2^53 elements, whose number less one is then exact.
pub proof fn lemma_covariance_of_equal_samples(x: Seq<u64>)
    requires
        x.len() < vstd::arithmetic::power2::pow2(53),
        x.len() <= usize::MAX,
    ensures
        x.len() != 1 ==> covariance_outcome(x, x) == variance_outcome(x),
        x.len() == 1 && is_sample(x) ==> covariance_outcome(x, x) == Err::<u64, StatsError>(
            StatsError::InvalidInputValue,
        ) && variance_outcome(x) == Err::<u64, StatsError>(StatsError::EmptyDataSet),
{
    if x.len() >= 2 {
        crate::exactness::lemma_less_one(x.len());
        assert(crate::descriptive_statistics::cross_deviations(x, x, mean_of(x), mean_of(x))
            =~= crate::descriptive_statistics::squared_deviations(x, mean_of(x)));
    }
}

} // verus!
