//! Inferential statistics: a confidence interval for the mean, and the
//! two-sample Kolmogorov-Smirnov statistic.

pub mod errors;

pub use crate::inferential_statistics::errors::StatsError;

use vstd::prelude::*;
use crate::arithmetic::{
    difference,
    from_usize,
    product,
    quotient,
    spec_difference,
    spec_from_usize,
    spec_product,
    spec_quotient,
    spec_square_root,
    spec_sum,
    square_root,
    sum,
};
use crate::descriptive_statistics::{mean_of, mean_rs, sample_variance, sample_variance_rs};
use crate::double::{
    ONE,
    TWO,
    ZERO,
    at_most,
    greater,
    is_nan,
    key,
    less,
    magnitude,
    spec_greater,
    spec_is_nan,
    spec_magnitude,
};
use crate::sorting::{insert, lemma_sorted, ordered, sort, sorted};
use crate::validation::{basic_verdict, validate_basic};

verus! {

/// Whether a double is a confidence level: a number strictly between 0 and 1.
pub open spec fn is_confidence_level(level: u64) -> bool {
    !spec_is_nan(level) && 0 < key(level) < key(ONE)
}

/// The probability whose standard normal quantile bounds a two-sided
/// interval of the given level: `1 - (1 - level) / 2`.
pub open spec fn quantile_probability(level: u64) -> u64 {
    spec_difference(ONE, spec_quotient(spec_difference(ONE, level), TWO))
}

/// The standard error of the mean: the root of the sample variance by the
/// number of elements.
pub open spec fn standard_error(s: Seq<u64>) -> u64 {
    spec_square_root(spec_quotient(sample_variance(s), spec_from_usize(s.len() as usize)))
}

/// What `quantile_level` gives: the quantile probability of a confidence
/// level, `InvalidInputValue` for anything else.
pub open spec fn quantile_level_outcome(level: u64) -> Result<u64, StatsError> {
    if is_confidence_level(level) {
        Ok(quantile_probability(level))
    } else {
        Err(StatsError::InvalidInputValue)
    }
}

/// What `confidence_interval` gives, `quantile` being the standard normal
/// quantile at the quantile probability of the level, or `None` where it
/// could not be computed: the mean less and plus the quantile times the
/// standard error. The sample is checked first, then the level; then a
/// sample of one element is `EmptyDataSet`, for it has no variance; and
/// last the absence of the quantile is an `UnderlyingError`.
pub open spec fn confidence_interval_outcome(
    s: Seq<u64>,
    level: u64,
    quantile: Option<u64>,
) -> Result<(u64, u64), StatsError> {
    match basic_verdict(s) {
        Err(e) => Err(e),
        Ok(_) => if !is_confidence_level(level) {
            Err(StatsError::InvalidInputValue)
        } else if s.len() < 2 {
            Err(StatsError::EmptyDataSet)
        } else {
            match quantile {
                None => Err(StatsError::UnderlyingError),
                Some(z) => Ok(
                    (
                        spec_difference(mean_of(s), spec_product(z, standard_error(s))),
                        spec_sum(mean_of(s), spec_product(z, standard_error(s))),
                    ),
                ),
            }
        },
    }
}

/// Whether a double is a confidence level.
pub fn check_confidence_level(level: u64) -> (r: bool)
    ensures
        r == is_confidence_level(level),
{
    !is_nan(level) && less(ZERO, level) && less(level, ONE)
}

/// The probability at which the standard normal quantile for a confidence
/// level is to be taken.
pub fn quantile_level(confidence_level: u64) -> (r: Result<u64, StatsError>)
    ensures
        r == quantile_level_outcome(confidence_level),
{
    if !check_confidence_level(confidence_level) {
        return Err(StatsError::InvalidInputValue);
    }
    let alpha: u64 = difference(ONE, confidence_level);
    Ok(difference(ONE, quotient(alpha, TWO)))
}

/// The confidence interval for the mean of a sample, from the standard
/// normal quantile that belongs to the level.
pub fn confidence_interval(x: &[u64], ci: u64, quantile: Option<u64>) -> (r: Result<
    (u64, u64),
    StatsError,
>)
    ensures
        r == confidence_interval_outcome(x@, ci, quantile),
{
    match validate_basic(x) {
        Err(e) => {
            return Err(e);
        },
        Ok(_) => {},
    }
    if !check_confidence_level(ci) {
        return Err(StatsError::InvalidInputValue);
    }
    if x.len() < 2 {
        return Err(StatsError::EmptyDataSet);
    }
    let z: u64 = match quantile {
        None => {
            return Err(StatsError::UnderlyingError);
        },
        Some(z) => z,
    };
    let var: u64 = sample_variance_rs(x);
    let center: u64 = mean_rs(x);
    let n: u64 = from_usize(x.len());
    let std_error: u64 = square_root(quotient(var, n));
    let lower_bound: u64 = difference(center, product(z, std_error));
    let upper_bound: u64 = sum(center, product(z, std_error));
    Ok((lower_bound, upper_bound))
}

/// The number of elements whose key is at most that of `v`.
pub open spec fn count_at_most(s: Seq<u64>, v: u64) -> nat
    decreases s.len(),
{
    if s.len() == 0 {
        0
    } else if key(s.last()) <= key(v) {
        count_at_most(s.drop_last(), v) + 1
    } else {
        count_at_most(s.drop_last(), v)
    }
}

/// The empirical distribution function of `s` at `v`: the share of the
/// elements that are at most `v`.
pub open spec fn ecdf(s: Seq<u64>, v: u64) -> u64 {
    spec_quotient(
        spec_from_usize(count_at_most(s, v) as usize),
        spec_from_usize(s.len() as usize),
    )
}

/// The distance between the two empirical distribution functions at `v`.
pub open spec fn ecdf_gap(x: Seq<u64>, y: Seq<u64>, v: u64) -> u64 {
    spec_magnitude(spec_difference(ecdf(x, v), ecdf(y, v)))
}

/// The greatest of the gaps at the given places, and 0.0 where none is
/// greater than that.
pub open spec fn greatest_gap(x: Seq<u64>, y: Seq<u64>, places: Seq<u64>) -> u64
    decreases places.len(),
{
    if places.len() == 0 {
        ZERO
    } else {
        let best = greatest_gap(x, y, places.drop_last());
        let gap = ecdf_gap(x, y, places.last());
        if spec_greater(gap, best) {
            gap
        } else {
            best
        }
    }
}

/// The two-sample Kolmogorov-Smirnov statistic: the greatest gap between
/// the two empirical distribution functions at any element of either
/// sample.
pub open spec fn ks_statistic(x: Seq<u64>, y: Seq<u64>) -> u64 {
    greatest_gap(x, y, x + y)
}

/// What `kolmogorov_smirnov_test` gives: both samples are checked, the
/// first one first.
pub open spec fn ks_outcome(x: Seq<u64>, y: Seq<u64>) -> Result<u64, StatsError> {
    match basic_verdict(x) {
        Err(e) => Err(e),
        Ok(_) => match basic_verdict(y) {
            Err(e) => Err(e),
            Ok(_) => Ok(ks_statistic(x, y)),
        },
    }
}

/// No more elements are counted than there are.
pub proof fn lemma_count_bound(s: Seq<u64>, v: u64)
    ensures
        count_at_most(s, v) <= s.len(),
    decreases s.len(),
{
    if s.len() > 0 {
        lemma_count_bound(s.drop_last(), v);
    }
}

/// An insertion adds one to the count where the new element is at most `v`.
proof fn lemma_count_insert(s: Seq<u64>, x: u64, v: u64)
    ensures
        count_at_most(insert(s, x), v) == count_at_most(s, v) + (if key(x) <= key(v) {
            1nat
        } else {
            0nat
        }),
    decreases s.len(),
{
    if s.len() == 0 {
        assert(seq![x].drop_last() =~= s);
    } else if key(s.last()) <= key(x) {
        assert(s.push(x).drop_last() =~= s);
    } else {
        lemma_count_insert(s.drop_last(), x, v);
        assert(insert(s.drop_last(), x).push(s.last()).drop_last() =~= insert(s.drop_last(), x));
    }
}

/// Sorting does not change the count.
pub proof fn lemma_count_sorted(s: Seq<u64>, v: u64)
    ensures
        count_at_most(sorted(s), v) == count_at_most(s, v),
    decreases s.len(),
{
    if s.len() > 0 {
        lemma_count_sorted(s.drop_last(), v);
        lemma_count_insert(sorted(s.drop_last()), s.last(), v);
    }
}

/// In an ordered sequence the elements that are at most `v` are those in
/// front of the first that is greater.
proof fn lemma_count_prefix(t: Seq<u64>, v: u64, i: int)
    requires
        0 <= i <= t.len(),
        forall|j: int| 0 <= j < i ==> key(#[trigger] t[j]) <= key(v),
        forall|j: int| i <= j < t.len() ==> key(#[trigger] t[j]) > key(v),
    ensures
        count_at_most(t, v) == i,
    decreases t.len(),
{
    if t.len() > 0 {
        if i == t.len() {
            lemma_count_prefix(t.drop_last(), v, i - 1);
        } else {
            lemma_count_prefix(t.drop_last(), v, i);
        }
    }
}

/// The number of elements of an ordered sequence that are at most `v`, by
/// bisection.
fn count_in_order(t: &Vec<u64>, v: u64) -> (r: usize)
    requires
        ordered(t@),
    ensures
        r == count_at_most(t@, v),
        r <= t.len(),
{
    let mut lo: usize = 0;
    let mut hi: usize = t.len();
    while lo < hi
        invariant
            lo <= hi <= t.len(),
            ordered(t@),
            forall|j: int| 0 <= j < lo ==> key(#[trigger] t@[j]) <= key(v),
            forall|j: int| hi <= j < t.len() ==> key(#[trigger] t@[j]) > key(v),
        decreases hi - lo,
    {
        let mid: usize = lo + (hi - lo) / 2;
        if at_most(t[mid], v) {
            lo = mid + 1;
        } else {
            hi = mid;
        }
    }
    proof {
        lemma_count_prefix(t@, v, lo as int);
    }
    lo
}

/// The gap between the two empirical distribution functions at `v`, from
/// the sorted samples.
fn gap_at(xs: &Vec<u64>, ys: &Vec<u64>, v: u64, Ghost(x): Ghost<Seq<u64>>, Ghost(y): Ghost<Seq<u64>>) -> (r: u64)
    requires
        xs@ == sorted(x),
        ys@ == sorted(y),
    ensures
        r == ecdf_gap(x, y, v),
{
    proof {
        lemma_sorted(x);
        lemma_sorted(y);
        lemma_count_sorted(x, v);
        lemma_count_sorted(y, v);
    }
    let ecdf_x: u64 = quotient(from_usize(count_in_order(xs, v)), from_usize(xs.len()));
    let ecdf_y: u64 = quotient(from_usize(count_in_order(ys, v)), from_usize(ys.len()));
    magnitude(difference(ecdf_x, ecdf_y))
}

/// The greatest gap at one more place.
proof fn lemma_gap_push(x: Seq<u64>, y: Seq<u64>, places: Seq<u64>, v: u64)
    ensures
        greatest_gap(x, y, places.push(v)) == (if spec_greater(
            ecdf_gap(x, y, v),
            greatest_gap(x, y, places),
        ) {
            ecdf_gap(x, y, v)
        } else {
            greatest_gap(x, y, places)
        }),
{
    assert(places.push(v).drop_last() =~= places);
}

/// The two-sample Kolmogorov-Smirnov statistic of two samples, a number
/// from 0.0 to 1.0.
pub fn kolmogorov_smirnov_test(x: &[u64], y: &[u64]) -> (r: Result<u64, StatsError>)
    ensures
        r == ks_outcome(x@, y@),
        r matches Ok(statistic) ==> !spec_is_nan(statistic) && 0 <= key(statistic) <= key(ONE),
{
    match validate_basic(x) {
        Err(e) => {
            return Err(e);
        },
        Ok(_) => {},
    }
    match validate_basic(y) {
        Err(e) => {
            return Err(e);
        },
        Ok(_) => {},
    }
    let x_sorted: Vec<u64> = sort(x);
    let y_sorted: Vec<u64> = sort(y);
    let mut max_diff: u64 = ZERO;
    let mut i: usize = 0;
    while i < x.len()
        invariant
            i <= x.len(),
            x_sorted@ == sorted(x@),
            y_sorted@ == sorted(y@),
            max_diff == greatest_gap(x@, y@, x@.take(i as int)),
        decreases x.len() - i,
    {
        let diff: u64 = gap_at(&x_sorted, &y_sorted, x[i], Ghost(x@), Ghost(y@));
        proof {
            assert(x@.take(i + 1) =~= x@.take(i as int).push(x@[i as int]));
            lemma_gap_push(x@, y@, x@.take(i as int), x@[i as int]);
        }
        if greater(diff, max_diff) {
            max_diff = diff;
        }
        i = i + 1;
    }
    let mut j: usize = 0;
    proof {
        assert(x@.take(i as int) =~= x@);
        assert(x@ + y@.take(0) =~= x@);
    }
    while j < y.len()
        invariant
            j <= y.len(),
            x_sorted@ == sorted(x@),
            y_sorted@ == sorted(y@),
            max_diff == greatest_gap(x@, y@, x@ + y@.take(j as int)),
        decreases y.len() - j,
    {
        let diff: u64 = gap_at(&x_sorted, &y_sorted, y[j], Ghost(x@), Ghost(y@));
        proof {
            assert(x@ + y@.take(j + 1) =~= (x@ + y@.take(j as int)).push(y@[j as int]));
            lemma_gap_push(x@, y@, x@ + y@.take(j as int), y@[j as int]);
        }
        if greater(diff, max_diff) {
            max_diff = diff;
        }
        j = j + 1;
    }
    proof {
        assert(y@.take(j as int) =~= y@);
        crate::theorems::lemma_greatest_gap_range(x@, y@, x@ + y@);
    }
    Ok(max_diff)
}

} // verus!
