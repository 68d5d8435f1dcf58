//! Descriptive statistics of a sample of doubles: central tendency,
//! dispersion and shape. Every statistic checks its input first, and then
//! computes with the arithmetic of `crate::arithmetic`, one rounding for
//! each operation, in the order that its formula is written in.

pub mod errors;
pub mod order;
pub mod shape;

pub use crate::descriptive_statistics::errors::StatsError;
pub use crate::descriptive_statistics::shape::{
    SummaryStatistics,
    kurtosis,
    skewness,
    summary_statistics,
};
pub use crate::descriptive_statistics::order::{
    extremes,
    iqr,
    median,
    median_absolute_deviation,
    median_rs,
    percentile,
    percentile_rs,
    range,
    trimmed_mean,
    trimmed_variance,
};

use vstd::prelude::*;
use crate::arithmetic::{
    difference,
    from_usize,
    product,
    quotient,
    spec_difference,
    spec_from_usize,
    spec_product,
    spec_quotient,
    spec_square_root,
    spec_sum,
    square_root,
    sum,
};
use crate::double::{ONE, ZERO, is_zero, spec_is_zero};
use crate::validation::{basic_verdict, validate_basic, validate_weighted, weighted_verdict};

verus! {

/// The elements added up from the left, beginning with 0.0.
pub open spec fn total(s: Seq<u64>) -> u64
    decreases s.len(),
{
    if s.len() == 0 {
        ZERO
    } else {
        spec_sum(total(s.drop_last()), s.last())
    }
}

/// The arithmetic mean: the total by the number of elements. That of no
/// elements is 0.0 by 0.0, which is NaN.
pub open spec fn mean_of(s: Seq<u64>) -> u64 {
    spec_quotient(total(s), spec_from_usize(s.len() as usize))
}

/// The square of the distance of each element from `center`.
pub open spec fn squared_deviations(s: Seq<u64>, center: u64) -> Seq<u64> {
    s.map_values(|x: u64| spec_product(spec_difference(x, center), spec_difference(x, center)))
}

/// The population variance: the squared deviations from the mean, added
/// up, by the number of elements.
pub open spec fn population_variance(s: Seq<u64>) -> u64 {
    spec_quotient(total(squared_deviations(s, mean_of(s))), spec_from_usize(s.len() as usize))
}

/// The sample variance: the squared deviations from the mean, added up, by
/// one less than the number of elements.
pub open spec fn sample_variance(s: Seq<u64>) -> u64 {
    spec_quotient(
        total(squared_deviations(s, mean_of(s))),
        spec_from_usize((s.len() - 1) as usize),
    )
}

/// The total of a sequence with one more element.
pub proof fn lemma_total_push(s: Seq<u64>, x: u64)
    ensures
        total(s.push(x)) == spec_sum(total(s), x),
{
    assert(s.push(x).drop_last() =~= s);
}

/// Adds up the elements from the left.
pub fn total_of(data: &[u64]) -> (r: u64)
    ensures
        r == total(data@),
{
    let mut acc: u64 = ZERO;
    let mut i: usize = 0;
    while i < data.len()
        invariant
            i <= data.len(),
            acc == total(data@.take(i as int)),
        decreases data.len() - i,
    {
        proof {
            assert(data@.take(i + 1) =~= data@.take(i as int).push(data@[i as int]));
            lemma_total_push(data@.take(i as int), data@[i as int]);
        }
        acc = sum(acc, data[i]);
        i = i + 1;
    }
    proof {
        assert(data@.take(i as int) =~= data@);
    }
    acc
}

/// Adds up the squared deviations from `center`.
fn total_squared_deviations(data: &[u64], center: u64) -> (r: u64)
    ensures
        r == total(squared_deviations(data@, center)),
{
    let mut acc: u64 = ZERO;
    let mut i: usize = 0;
    while i < data.len()
        invariant
            i <= data.len(),
            acc == total(squared_deviations(data@.take(i as int), center)),
        decreases data.len() - i,
    {
        let diff: u64 = difference(data[i], center);
        let term: u64 = product(diff, diff);
        proof {
            assert(squared_deviations(data@.take(i + 1), center) =~= squared_deviations(
                data@.take(i as int),
                center,
            ).push(term));
            lemma_total_push(squared_deviations(data@.take(i as int), center), term);
        }
        acc = sum(acc, term);
        i = i + 1;
    }
    proof {
        assert(data@.take(i as int) =~= data@);
    }
    acc
}

/// The arithmetic mean of the elements, with no check of the input.
pub fn mean_rs(data: &[u64]) -> (r: u64)
    ensures
        r == mean_of(data@),
{
    quotient(total_of(data), from_usize(data.len()))
}

/// The population variance of the elements, with no check of the input.
pub fn variance_rs(data: &[u64]) -> (r: u64)
    ensures
        r == population_variance(data@),
{
    let center: u64 = mean_rs(data);
    quotient(total_squared_deviations(data, center), from_usize(data.len()))
}

/// The sample variance of the elements, with no check of the input but
/// that there is an element.
pub fn sample_variance_rs(data: &[u64]) -> (r: u64)
    requires
        data.len() > 0,
    ensures
        r == sample_variance(data@),
{
    let center: u64 = mean_rs(data);
    quotient(total_squared_deviations(data, center), from_usize(data.len() - 1))
}

/// What `mean` gives.
pub open spec fn mean_outcome(s: Seq<u64>) -> Result<u64, StatsError> {
    match basic_verdict(s) {
        Err(e) => Err(e),
        Ok(_) => Ok(mean_of(s)),
    }
}

/// The arithmetic mean of a sample.
pub fn mean(x: &[u64]) -> (r: Result<u64, StatsError>)
    ensures
        r == mean_outcome(x@),
{
    match validate_basic(x) {
        Err(e) => {
            return Err(e);
        },
        Ok(_) => {},
    }
    Ok(mean_rs(x))
}

/// What `variance` gives: the sample variance of a sample of two elements
/// or more, `EmptyDataSet` for one element.
pub open spec fn variance_outcome(s: Seq<u64>) -> Result<u64, StatsError> {
    match basic_verdict(s) {
        Err(e) => Err(e),
        Ok(_) => if s.len() < 2 {
            Err(StatsError::EmptyDataSet)
        } else {
            Ok(sample_variance(s))
        },
    }
}

/// The sample variance of a sample, with Bessel's correction.
pub fn variance(x: &[u64]) -> (r: Result<u64, StatsError>)
    ensures
        r == variance_outcome(x@),
{
    match validate_basic(x) {
        Err(e) => {
            return Err(e);
        },
        Ok(_) => {},
    }
    if x.len() < 2 {
        return Err(StatsError::EmptyDataSet);
    }
    Ok(sample_variance_rs(x))
}

/// Each weight times its element, for as many places as both have.
pub open spec fn weighted_terms(x: Seq<u64>, w: Seq<u64>) -> Seq<u64> {
    Seq::new(
        if x.len() <= w.len() {
            x.len()
        } else {
            w.len()
        },
        |i: int| spec_product(w[i], x[i]),
    )
}

/// The deviation of each element of `x` from `cx` times that of the element
/// of `y` in the same place from `cy`.
pub open spec fn cross_deviations(x: Seq<u64>, y: Seq<u64>, cx: u64, cy: u64) -> Seq<u64> {
    Seq::new(
        if x.len() <= y.len() {
            x.len()
        } else {
            y.len()
        },
        |i: int| spec_product(spec_difference(x[i], cx), spec_difference(y[i], cy)),
    )
}

/// Each element of `x` times the element of `y` in the same place.
pub open spec fn pair_products(x: Seq<u64>, y: Seq<u64>) -> Seq<u64> {
    Seq::new(
        if x.len() <= y.len() {
            x.len()
        } else {
            y.len()
        },
        |i: int| spec_product(x[i], y[i]),
    )
}

/// The square of each element.
pub open spec fn squares(s: Seq<u64>) -> Seq<u64> {
    s.map_values(|x: u64| spec_product(x, x))
}

/// What `weighted_mean` gives: the weighted total by the total of the
/// weights, `InvalidInputValue` where the weights add up to zero.
pub open spec fn weighted_mean_outcome(x: Seq<u64>, w: Seq<u64>) -> Result<u64, StatsError> {
    match weighted_verdict(x, w) {
        Err(e) => Err(e),
        Ok(_) => if spec_is_zero(total(w)) {
            Err(StatsError::InvalidInputValue)
        } else {
            Ok(spec_quotient(total(weighted_terms(x, w)), total(w)))
        },
    }
}

/// What `covariance` gives: the cross deviations from the two means, added
/// up, by one less than the number of pairs; `InvalidInputValue` for a
/// single pair.
pub open spec fn covariance_outcome(x: Seq<u64>, y: Seq<u64>) -> Result<u64, StatsError> {
    match weighted_verdict(x, y) {
        Err(e) => Err(e),
        Ok(_) => if x.len() < 2 {
            Err(StatsError::InvalidInputValue)
        } else {
            Ok(
                spec_quotient(
                    total(cross_deviations(x, y, mean_of(x), mean_of(y))),
                    spec_difference(spec_from_usize(x.len() as usize), ONE),
                ),
            )
        },
    }
}

/// `n` times the total of squares, less the square of the total: `n * n`
/// times the population variance, before any rounding.
pub open spec fn spread_term(s: Seq<u64>) -> u64 {
    spec_difference(
        spec_product(spec_from_usize(s.len() as usize), total(squares(s))),
        spec_product(total(s), total(s)),
    )
}

/// The numerator of the correlation: `n` times the total of the products,
/// less the product of the totals.
pub open spec fn correlation_numerator(x: Seq<u64>, y: Seq<u64>) -> u64 {
    spec_difference(
        spec_product(spec_from_usize(x.len() as usize), total(pair_products(x, y))),
        spec_product(total(x), total(y)),
    )
}

/// The denominator of the correlation: the root of the product of the two
/// spread terms.
pub open spec fn correlation_denominator(x: Seq<u64>, y: Seq<u64>) -> u64 {
    spec_square_root(spec_product(spread_term(x), spread_term(y)))
}

/// What `correlation` gives: the numerator by the denominator,
/// `ZeroVariance` where the denominator is zero.
pub open spec fn correlation_outcome(x: Seq<u64>, y: Seq<u64>) -> Result<u64, StatsError> {
    match weighted_verdict(x, y) {
        Err(e) => Err(e),
        Ok(_) => if spec_is_zero(correlation_denominator(x, y)) {
            Err(StatsError::ZeroVariance)
        } else {
            Ok(spec_quotient(correlation_numerator(x, y), correlation_denominator(x, y)))
        },
    }
}

/// Adds up the weights times their elements.
fn total_weighted_terms(x: &[u64], w: &[u64]) -> (r: u64)
    requires
        x.len() == w.len(),
    ensures
        r == total(weighted_terms(x@, w@)),
{
    let mut acc: u64 = ZERO;
    let mut i: usize = 0;
    while i < x.len()
        invariant
            i <= x.len(),
            x.len() == w.len(),
            acc == total(weighted_terms(x@.take(i as int), w@.take(i as int))),
        decreases x.len() - i,
    {
        let term: u64 = product(w[i], x[i]);
        proof {
            let before = weighted_terms(x@.take(i as int), w@.take(i as int));
            assert(weighted_terms(x@.take(i + 1), w@.take(i + 1)) =~= before.push(term));
            lemma_total_push(before, term);
        }
        acc = sum(acc, term);
        i = i + 1;
    }
    proof {
        assert(x@.take(i as int) =~= x@);
        assert(w@.take(i as int) =~= w@);
    }
    acc
}

/// Adds up the cross deviations from the two centers.
fn total_cross_deviations(x: &[u64], y: &[u64], cx: u64, cy: u64) -> (r: u64)
    requires
        x.len() == y.len(),
    ensures
        r == total(cross_deviations(x@, y@, cx, cy)),
{
    let mut acc: u64 = ZERO;
    let mut i: usize = 0;
    while i < x.len()
        invariant
            i <= x.len(),
            x.len() == y.len(),
            acc == total(cross_deviations(x@.take(i as int), y@.take(i as int), cx, cy)),
        decreases x.len() - i,
    {
        let term: u64 = product(difference(x[i], cx), difference(y[i], cy));
        proof {
            let before = cross_deviations(x@.take(i as int), y@.take(i as int), cx, cy);
            assert(cross_deviations(x@.take(i + 1), y@.take(i + 1), cx, cy) =~= before.push(term));
            lemma_total_push(before, term);
        }
        acc = sum(acc, term);
        i = i + 1;
    }
    proof {
        assert(x@.take(i as int) =~= x@);
        assert(y@.take(i as int) =~= y@);
    }
    acc
}

/// Adds up the products of the pairs.
fn total_pair_products(x: &[u64], y: &[u64]) -> (r: u64)
    requires
        x.len() == y.len(),
    ensures
        r == total(pair_products(x@, y@)),
{
    let mut acc: u64 = ZERO;
    let mut i: usize = 0;
    while i < x.len()
        invariant
            i <= x.len(),
            x.len() == y.len(),
            acc == total(pair_products(x@.take(i as int), y@.take(i as int))),
        decreases x.len() - i,
    {
        let term: u64 = product(x[i], y[i]);
        proof {
            let before = pair_products(x@.take(i as int), y@.take(i as int));
            assert(pair_products(x@.take(i + 1), y@.take(i + 1)) =~= before.push(term));
            lemma_total_push(before, term);
        }
        acc = sum(acc, term);
        i = i + 1;
    }
    proof {
        assert(x@.take(i as int) =~= x@);
        assert(y@.take(i as int) =~= y@);
    }
    acc
}

/// Adds up the squares of the elements.
fn total_squares(data: &[u64]) -> (r: u64)
    ensures
        r == total(squares(data@)),
{
    let mut acc: u64 = ZERO;
    let mut i: usize = 0;
    while i < data.len()
        invariant
            i <= data.len(),
            acc == total(squares(data@.take(i as int))),
        decreases data.len() - i,
    {
        let term: u64 = product(data[i], data[i]);
        proof {
            let before = squares(data@.take(i as int));
            assert(squares(data@.take(i + 1)) =~= before.push(term));
            lemma_total_push(before, term);
        }
        acc = sum(acc, term);
        i = i + 1;
    }
    proof {
        assert(data@.take(i as int) =~= data@);
    }
    acc
}

/// The mean of a sample under weights: the weights times their elements,
/// added up, by the total of the weights.
pub fn weighted_mean(x: &[u64], y: &[u64]) -> (r: Result<u64, StatsError>)
    ensures
        r == weighted_mean_outcome(x@, y@),
{
    match validate_weighted(x, y) {
        Err(e) => {
            return Err(e);
        },
        Ok(_) => {},
    }
    let numerator: u64 = total_weighted_terms(x, y);
    let denominator: u64 = total_of(y);
    if is_zero(denominator) {
        return Err(StatsError::InvalidInputValue);
    }
    Ok(quotient(numerator, denominator))
}

/// The sample covariance of two paired samples.
pub fn covariance(x: &[u64], y: &[u64]) -> (r: Result<u64, StatsError>)
    ensures
        r == covariance_outcome(x@, y@),
{
    match validate_weighted(x, y) {
        Err(e) => {
            return Err(e);
        },
        Ok(_) => {},
    }
    if x.len() < 2 {
        return Err(StatsError::InvalidInputValue);
    }
    let n: u64 = from_usize(x.len());
    let cx: u64 = mean_rs(x);
    let cy: u64 = mean_rs(y);
    let numerator: u64 = total_cross_deviations(x, y, cx, cy);
    Ok(quotient(numerator, difference(n, ONE)))
}

/// `n` times the total of squares, less the square of the total.
fn spread_term_of(data: &[u64]) -> (r: u64)
    ensures
        r == spread_term(data@),
{
    let n: u64 = from_usize(data.len());
    let all: u64 = total_of(data);
    difference(product(n, total_squares(data)), product(all, all))
}

/// The Pearson correlation of two paired samples, by the formula of raw
/// totals.
pub fn correlation(x: &[u64], y: &[u64]) -> (r: Result<u64, StatsError>)
    ensures
        r == correlation_outcome(x@, y@),
{
    match validate_weighted(x, y) {
        Err(e) => {
            return Err(e);
        },
        Ok(_) => {},
    }
    let n: u64 = from_usize(x.len());
    let numerator: u64 = difference(
        product(n, total_pair_products(x, y)),
        product(total_of(x), total_of(y)),
    );
    let denominator: u64 = square_root(product(spread_term_of(x), spread_term_of(y)));
    if is_zero(denominator) {
        return Err(StatsError::ZeroVariance);
    }
    Ok(quotient(numerator, denominator))
}

} // verus!
