//! The shape of a sample, skewness and kurtosis, and the summary of all
//! descriptive statistics.

use vstd::prelude::*;
use crate::arithmetic::{
    difference,
    from_usize,
    product,
    quotient,
    spec_difference,
    spec_from_usize,
    spec_product,
    spec_quotient,
    spec_square_root,
    spec_sum,
    square_root,
    sum,
};
use crate::descriptive_statistics::errors::StatsError;
use crate::descriptive_statistics::order::{
    iqr,
    iqr_outcome,
    mad_outcome,
    median,
    median_absolute_deviation,
    median_of,
    range,
    range_outcome,
};
use crate::descriptive_statistics::{
    lemma_total_push,
    mean,
    mean_of,
    mean_rs,
    sample_variance,
    sample_variance_rs,
    total,
    variance,
    variance_outcome,
};
use crate::double::{ONE, THREE, TWO, ZERO, is_zero, spec_is_zero};
use crate::validation::{basic_verdict, validate_basic};

verus! {

/// The third power of a double: its square times itself.
pub open spec fn cube(z: u64) -> u64 {
    spec_product(spec_product(z, z), z)
}

/// The fourth power of a double: its square times its square.
pub open spec fn fourth_power(z: u64) -> u64 {
    spec_product(spec_product(z, z), spec_product(z, z))
}

/// The sample standard deviation: the root of the sample variance, which
/// has Bessel's correction.
pub open spec fn standard_deviation(s: Seq<u64>) -> u64 {
    spec_square_root(sample_variance(s))
}

/// The cube of each element's standard score: its distance from `center`
/// by `spread`.
pub open spec fn standardized_cubes(s: Seq<u64>, center: u64, spread: u64) -> Seq<u64> {
    s.map_values(|x: u64| cube(spec_quotient(spec_difference(x, center), spread)))
}

/// The fourth power of each element's standard score.
pub open spec fn standardized_fourths(s: Seq<u64>, center: u64, spread: u64) -> Seq<u64> {
    s.map_values(|x: u64| fourth_power(spec_quotient(spec_difference(x, center), spread)))
}

/// The adjusted Fisher-Pearson skewness of `s`: the cubes of the standard
/// scores, added up, times `n`, by `(n - 1) * (n - 2)`.
pub open spec fn skewness_of(s: Seq<u64>) -> u64 {
    let n = spec_from_usize(s.len() as usize);
    spec_quotient(
        spec_product(n, total(standardized_cubes(s, mean_of(s), standard_deviation(s)))),
        spec_product(spec_difference(n, ONE), spec_difference(n, TWO)),
    )
}

/// The factor of the fourth powers in the kurtosis:
/// `n * (n + 1)` by `(n - 1) * (n - 2) * (n - 3)`.
pub open spec fn kurtosis_factor(n: u64) -> u64 {
    spec_quotient(
        spec_product(n, spec_sum(n, ONE)),
        spec_product(
            spec_product(spec_difference(n, ONE), spec_difference(n, TWO)),
            spec_difference(n, THREE),
        ),
    )
}

/// The term that the kurtosis takes away for its bias:
/// `3 * (n - 1)^2` by `(n - 2) * (n - 3)`.
pub open spec fn kurtosis_bias(n: u64) -> u64 {
    spec_quotient(
        spec_product(THREE, spec_product(spec_difference(n, ONE), spec_difference(n, ONE))),
        spec_product(spec_difference(n, TWO), spec_difference(n, THREE)),
    )
}

/// The excess kurtosis of `s` with its bias correction: the fourth powers
/// of the standard scores, added up, times the factor, less the bias term.
pub open spec fn kurtosis_of(s: Seq<u64>) -> u64 {
    let n = spec_from_usize(s.len() as usize);
    spec_difference(
        spec_product(
            kurtosis_factor(n),
            total(standardized_fourths(s, mean_of(s), standard_deviation(s))),
        ),
        kurtosis_bias(n),
    )
}

/// What `skewness` gives: `InvalidInputValue` for fewer than three
/// elements, for which `(n - 1) * (n - 2)` is zero or the sample too small,
/// and `ZeroVariance` where the standard deviation is zero.
pub open spec fn skewness_outcome(s: Seq<u64>) -> Result<u64, StatsError> {
    match basic_verdict(s) {
        Err(e) => Err(e),
        Ok(_) => if s.len() < 3 {
            Err(StatsError::InvalidInputValue)
        } else if spec_is_zero(standard_deviation(s)) {
            Err(StatsError::ZeroVariance)
        } else {
            Ok(skewness_of(s))
        },
    }
}

/// What `kurtosis` gives: `InvalidInputValue` for fewer than four elements,
/// for which `(n - 2) * (n - 3)` is zero or the sample too small, and
/// `ZeroVariance` where the standard deviation is zero.
pub open spec fn kurtosis_outcome(s: Seq<u64>) -> Result<u64, StatsError> {
    match basic_verdict(s) {
        Err(e) => Err(e),
        Ok(_) => if s.len() < 4 {
            Err(StatsError::InvalidInputValue)
        } else if spec_is_zero(standard_deviation(s)) {
            Err(StatsError::ZeroVariance)
        } else {
            Ok(kurtosis_of(s))
        },
    }
}

/// Adds up the cubes of the standard scores.
fn total_standardized_cubes(data: &[u64], center: u64, spread: u64) -> (r: u64)
    ensures
        r == total(standardized_cubes(data@, center, spread)),
{
    let mut acc: u64 = ZERO;
    let mut i: usize = 0;
    while i < data.len()
        invariant
            i <= data.len(),
            acc == total(standardized_cubes(data@.take(i as int), center, spread)),
        decreases data.len() - i,
    {
        let z: u64 = quotient(difference(data[i], center), spread);
        let term: u64 = product(product(z, z), z);
        proof {
            let before = standardized_cubes(data@.take(i as int), center, spread);
            assert(standardized_cubes(data@.take(i + 1), center, spread) =~= before.push(term));
            lemma_total_push(before, term);
        }
        acc = sum(acc, term);
        i = i + 1;
    }
    proof {
        assert(data@.take(i as int) =~= data@);
    }
    acc
}

/// Adds up the fourth powers of the standard scores.
fn total_standardized_fourths(data: &[u64], center: u64, spread: u64) -> (r: u64)
    ensures
        r == total(standardized_fourths(data@, center, spread)),
{
    let mut acc: u64 = ZERO;
    let mut i: usize = 0;
    while i < data.len()
        invariant
            i <= data.len(),
            acc == total(standardized_fourths(data@.take(i as int), center, spread)),
        decreases data.len() - i,
    {
        let z: u64 = quotient(difference(data[i], center), spread);
        let square: u64 = product(z, z);
        let term: u64 = product(square, square);
        proof {
            let before = standardized_fourths(data@.take(i as int), center, spread);
            assert(standardized_fourths(data@.take(i + 1), center, spread) =~= before.push(term));
            lemma_total_push(before, term);
        }
        acc = sum(acc, term);
        i = i + 1;
    }
    proof {
        assert(data@.take(i as int) =~= data@);
    }
    acc
}

/// The skewness of a sample: 0 for a symmetric one, positive where the
/// longer tail is on the side of the greater values.
pub fn skewness(x: &[u64]) -> (r: Result<u64, StatsError>)
    ensures
        r == skewness_outcome(x@),
{
    match validate_basic(x) {
        Err(e) => {
            return Err(e);
        },
        Ok(_) => {},
    }
    if x.len() < 3 {
        return Err(StatsError::InvalidInputValue);
    }
    let n: u64 = from_usize(x.len());
    let center: u64 = mean_rs(x);
    let spread: u64 = square_root(sample_variance_rs(x));
    if is_zero(spread) {
        return Err(StatsError::ZeroVariance);
    }
    let scores: u64 = total_standardized_cubes(x, center, spread);
    Ok(quotient(product(n, scores), product(difference(n, ONE), difference(n, TWO))))
}

/// The excess kurtosis of a sample.
pub fn kurtosis(x: &[u64]) -> (r: Result<u64, StatsError>)
    ensures
        r == kurtosis_outcome(x@),
{
    match validate_basic(x) {
        Err(e) => {
            return Err(e);
        },
        Ok(_) => {},
    }
    if x.len() < 4 {
        return Err(StatsError::InvalidInputValue);
    }
    let n: u64 = from_usize(x.len());
    let factor: u64 = quotient(
        product(n, sum(n, ONE)),
        product(product(difference(n, ONE), difference(n, TWO)), difference(n, THREE)),
    );
    let center: u64 = mean_rs(x);
    let spread: u64 = square_root(sample_variance_rs(x));
    if is_zero(spread) {
        return Err(StatsError::ZeroVariance);
    }
    let scores: u64 = total_standardized_fourths(x, center, spread);
    let bias: u64 = quotient(
        product(THREE, product(difference(n, ONE), difference(n, ONE))),
        product(difference(n, TWO), difference(n, THREE)),
    );
    Ok(difference(product(factor, scores), bias))
}

/// The descriptive statistics of one sample, each under its name.
#[derive(Debug, Clone, Copy, PartialEq, Eq, Structural)]
pub struct SummaryStatistics {
    pub mean: u64,
    pub median: u64,
    pub range: u64,
    pub variance: u64,
    pub interquartile_range: u64,
    pub median_absolute_deviation: u64,
    pub skewness: u64,
    pub kurtosis: u64,
}

/// What `summary_statistics` gives: the eight statistics, or the error of
/// the first of them that fails, in the order mean, median, range,
/// variance, interquartile range, median absolute deviation, skewness,
/// kurtosis.
pub open spec fn summary_outcome(s: Seq<u64>) -> Result<SummaryStatistics, StatsError> {
    match (
        basic_verdict(s),
        range_outcome(s),
        variance_outcome(s),
        iqr_outcome(s),
        mad_outcome(s),
        skewness_outcome(s),
        kurtosis_outcome(s),
    ) {
        (Err(e), _, _, _, _, _, _) => Err(e),
        (Ok(_), Err(e), _, _, _, _, _) => Err(e),
        (Ok(_), Ok(_), Err(e), _, _, _, _) => Err(e),
        (Ok(_), Ok(_), Ok(_), Err(e), _, _, _) => Err(e),
        (Ok(_), Ok(_), Ok(_), Ok(_), Err(e), _, _) => Err(e),
        (Ok(_), Ok(_), Ok(_), Ok(_), Ok(_), Err(e), _) => Err(e),
        (Ok(_), Ok(_), Ok(_), Ok(_), Ok(_), Ok(_), Err(e)) => Err(e),
        (Ok(_), Ok(spread), Ok(var), Ok(quartiles), Ok(mad), Ok(skew), Ok(kurt)) => Ok(
            SummaryStatistics {
                mean: mean_of(s),
                median: median_of(s),
                range: spread,
                variance: var,
                interquartile_range: quartiles,
                median_absolute_deviation: mad,
                skewness: skew,
                kurtosis: kurt,
            },
        ),
    }
}

/// All descriptive statistics of a sample at once.
pub fn summary_statistics(x: &[u64]) -> (r: Result<SummaryStatistics, StatsError>)
    ensures
        r == summary_outcome(x@),
{
    match validate_basic(x) {
        Err(e) => {
            return Err(e);
        },
        Ok(_) => {},
    }
    let mean_value: u64 = match mean(x) {
        Err(e) => {
            return Err(e);
        },
        Ok(v) => v,
    };
    let median_value: u64 = match median(x) {
        Err(e) => {
            return Err(e);
        },
        Ok(v) => v,
    };
    let range_value: u64 = match range(x) {
        Err(e) => {
            return Err(e);
        },
        Ok(v) => v,
    };
    let variance_value: u64 = match variance(x) {
        Err(e) => {
            return Err(e);
        },
        Ok(v) => v,
    };
    let iqr_value: u64 = match iqr(x) {
        Err(e) => {
            return Err(e);
        },
        Ok(v) => v,
    };
    let mad_value: u64 = match median_absolute_deviation(x) {
        Err(e) => {
            return Err(e);
        },
        Ok(v) => v,
    };
    let skew: u64 = match skewness(x) {
        Err(e) => {
            return Err(e);
        },
        Ok(v) => v,
    };
    let kurt: u64 = match kurtosis(x) {
        Err(e) => {
            return Err(e);
        },
        Ok(v) => v,
    };
    Ok(
        SummaryStatistics {
            mean: mean_value,
            median: median_value,
            range: range_value,
            variance: variance_value,
            interquartile_range: iqr_value,
            median_absolute_deviation: mad_value,
            skewness: skew,
            kurtosis: kurt,
        },
    )
}

} // verus!
