//! Order statistics: what is read off the sample once it is sorted.

use vstd::prelude::*;
use crate::arithmetic::{
    ceiling_to_usize,
    difference,
    from_usize,
    product,
    quotient,
    spec_ceiling_to_usize,
    spec_difference,
    spec_from_usize,
    spec_product,
    spec_quotient,
    spec_sum,
    spec_to_usize,
    sum,
    to_usize,
};
use crate::descriptive_statistics::errors::StatsError;
use crate::descriptive_statistics::{mean_of, mean_rs, sample_variance, variance};
use crate::double::{
    HUNDRED,
    ONE,
    TWO,
    ZERO,
    equal,
    is_nan,
    key,
    less,
    magnitude,
    spec_equal,
    spec_is_nan,
    spec_magnitude,
};
use crate::sorting::{first_min, last_max, lemma_sorted, sort, sorted};
use crate::validation::{
    basic_verdict,
    count_to_trim,
    trim_count,
    trimmed_verdict,
    validate_basic,
    validate_trimmed,
};

verus! {

/// The bit pattern of 25.0.
pub const TWENTY_FIVE: u64 = 0x4039_0000_0000_0000;

/// The bit pattern of 50.0.
pub const FIFTY: u64 = 0x4049_0000_0000_0000;

/// The bit pattern of 75.0.
pub const SEVENTY_FIVE: u64 = 0x4052_c000_0000_0000;

/// The median of a sequence that is not empty: the element in the middle of
/// the sorted sequence, or half the sum of the two in the middle.
pub open spec fn median_of(s: Seq<u64>) -> u64
    recommends
        s.len() > 0,
{
    let t = sorted(s);
    let mid = (s.len() / 2) as int;
    if s.len() % 2 == 0 {
        spec_quotient(spec_sum(t[mid - 1], t[mid]), TWO)
    } else {
        t[mid]
    }
}

/// The place in the sorted sample that the percentile `p` points at:
/// `p / 100` times one less than the number of elements.
pub open spec fn rank(n: usize, p: u64) -> u64 {
    spec_product(spec_quotient(p, HUNDRED), spec_difference(spec_from_usize(n), ONE))
}

/// The index `i`, held to the last index of a sequence of `n` elements. The
/// rank of a percentile from 0 to 100 never points beyond the last index of
/// a sample of fewer than 2^53 elements; other ranks may.
pub open spec fn held(i: usize, n: usize) -> usize
    recommends
        n > 0,
{
    if i >= n {
        (n - 1) as usize
    } else {
        i
    }
}

/// The percentile `p` of a sequence that is not empty, by linear
/// interpolation: the least element for `p` equal to 0, the greatest for
/// `p` equal to 100; else, with `r` the rank, the element at `r` where `r`
/// is whole, and otherwise the element below plus the fraction of `r` times
/// the step to the element above.
pub open spec fn percentile_of(s: Seq<u64>, p: u64) -> u64
    recommends
        s.len() > 0,
{
    let t = sorted(s);
    let n = s.len() as usize;
    if spec_equal(p, ZERO) {
        t[0]
    } else if spec_equal(p, HUNDRED) {
        t[n - 1]
    } else {
        let r = rank(n, p);
        let lower = held(spec_to_usize(r), n);
        let upper = held(spec_ceiling_to_usize(r), n);
        if lower == upper {
            t[lower as int]
        } else {
            spec_sum(
                t[lower as int],
                spec_product(
                    spec_difference(r, spec_from_usize(lower)),
                    spec_difference(t[upper as int], t[lower as int]),
                ),
            )
        }
    }
}

/// Whether `p` names a percentile: a number from 0 to 100.
pub open spec fn is_percent(p: u64) -> bool {
    !spec_is_nan(p) && 0 <= key(p) <= key(HUNDRED)
}

/// The distance of each element from `center`.
pub open spec fn absolute_deviations(s: Seq<u64>, center: u64) -> Seq<u64> {
    s.map_values(|x: u64| spec_magnitude(spec_difference(x, center)))
}

/// What is left of the sorted sequence when `k` elements are dropped from
/// each end.
pub open spec fn trimmed(s: Seq<u64>, k: int) -> Seq<u64>
    recommends
        0 <= k,
        2 * k <= s.len(),
{
    sorted(s).subrange(k, s.len() - k)
}

/// What `median` gives.
pub open spec fn median_outcome(s: Seq<u64>) -> Result<u64, StatsError> {
    match basic_verdict(s) {
        Err(e) => Err(e),
        Ok(_) => Ok(median_of(s)),
    }
}

/// What `percentile` gives: `InvalidInputValue` where `p` is no number from
/// 0 to 100.
pub open spec fn percentile_outcome(s: Seq<u64>, p: u64) -> Result<u64, StatsError> {
    match basic_verdict(s) {
        Err(e) => Err(e),
        Ok(_) => if is_percent(p) {
            Ok(percentile_of(s, p))
        } else {
            Err(StatsError::InvalidInputValue)
        },
    }
}

/// What `iqr` gives: the third quartile less the first, `InvalidInputValue`
/// for a single element.
pub open spec fn iqr_outcome(s: Seq<u64>) -> Result<u64, StatsError> {
    match basic_verdict(s) {
        Err(e) => Err(e),
        Ok(_) => if s.len() < 2 {
            Err(StatsError::InvalidInputValue)
        } else {
            Ok(spec_difference(percentile_of(s, SEVENTY_FIVE), percentile_of(s, TWENTY_FIVE)))
        },
    }
}

/// What `range` gives: the distance from the least to the greatest element.
/// `MinMaxError` is never among its results.
pub open spec fn range_outcome(s: Seq<u64>) -> Result<u64, StatsError> {
    match basic_verdict(s) {
        Err(e) => Err(e),
        Ok(_) => Ok(spec_magnitude(spec_difference(last_max(s), first_min(s)))),
    }
}

/// What `median_absolute_deviation` gives: the median of the distances
/// from the median.
pub open spec fn mad_outcome(s: Seq<u64>) -> Result<u64, StatsError> {
    match basic_verdict(s) {
        Err(e) => Err(e),
        Ok(_) => Ok(median_of(absolute_deviations(s, median_of(s)))),
    }
}

/// What `trimmed_mean` gives: the mean of what is left after trimming, and
/// `InvalidInputValue` where nothing is left, for the mean would be zero by
/// zero.
pub open spec fn trimmed_mean_outcome(s: Seq<u64>, trim_fraction: u64) -> Result<
    u64,
    StatsError,
> {
    match trimmed_verdict(s, trim_fraction) {
        Err(e) => Err(e),
        Ok(_) => {
            let kept = trimmed(s, trim_count(s.len() as usize, trim_fraction) as int);
            if kept.len() == 0 {
                Err(StatsError::InvalidInputValue)
            } else {
                Ok(mean_of(kept))
            }
        },
    }
}

/// What `trimmed_variance` gives: the sample variance of what is left after
/// trimming, `EmptyDataSet` where fewer than two elements are left.
pub open spec fn trimmed_variance_outcome(s: Seq<u64>, trim_fraction: u64) -> Result<
    u64,
    StatsError,
> {
    match trimmed_verdict(s, trim_fraction) {
        Err(e) => Err(e),
        Ok(_) => {
            let kept = trimmed(s, trim_count(s.len() as usize, trim_fraction) as int);
            if kept.len() < 2 {
                Err(StatsError::EmptyDataSet)
            } else {
                Ok(sample_variance(kept))
            }
        },
    }
}

/// The median of the elements, with no check of the input.
pub fn median_rs(data: &[u64]) -> (r: u64)
    requires
        data.len() > 0,
    ensures
        r == median_of(data@),
{
    let ordered: Vec<u64> = sort(data);
    let mid: usize = ordered.len() / 2;
    if ordered.len() % 2 == 0 {
        quotient(sum(ordered[mid - 1], ordered[mid]), TWO)
    } else {
        ordered[mid]
    }
}

/// The index `i`, held to the last index of a sequence of `n` elements.
fn hold(i: usize, n: usize) -> (r: usize)
    requires
        n > 0,
    ensures
        r == held(i, n),
        r < n,
{
    if i >= n {
        n - 1
    } else {
        i
    }
}

/// The percentile `p` of the elements, with no check of the input.
pub fn percentile_rs(data: &[u64], percentile: u64) -> (r: u64)
    requires
        data.len() > 0,
    ensures
        r == percentile_of(data@, percentile),
{
    let ordered: Vec<u64> = sort(data);
    let n: usize = ordered.len();
    if equal(percentile, ZERO) {
        return ordered[0];
    } else if equal(percentile, HUNDRED) {
        return ordered[n - 1];
    }
    let length: u64 = from_usize(n);
    let position: u64 = product(quotient(percentile, HUNDRED), difference(length, ONE));
    let lower: usize = hold(to_usize(position), n);
    let upper: usize = hold(ceiling_to_usize(position), n);
    if lower == upper {
        ordered[lower]
    } else {
        sum(
            ordered[lower],
            product(
                difference(position, from_usize(lower)),
                difference(ordered[upper], ordered[lower]),
            ),
        )
    }
}

/// The median of a sample.
pub fn median(x: &[u64]) -> (r: Result<u64, StatsError>)
    ensures
        r == median_outcome(x@),
{
    match validate_basic(x) {
        Err(e) => {
            return Err(e);
        },
        Ok(_) => {},
    }
    Ok(median_rs(x))
}

/// The percentile `p` of a sample, `p` from 0 to 100.
pub fn percentile(x: &[u64], p: u64) -> (r: Result<u64, StatsError>)
    ensures
        r == percentile_outcome(x@, p),
{
    match validate_basic(x) {
        Err(e) => {
            return Err(e);
        },
        Ok(_) => {},
    }
    if is_nan(p) || less(p, ZERO) || less(HUNDRED, p) {
        return Err(StatsError::InvalidInputValue);
    }
    Ok(percentile_rs(x, p))
}

/// The interquartile range of a sample: the 75th percentile less the 25th.
pub fn iqr(x: &[u64]) -> (r: Result<u64, StatsError>)
    ensures
        r == iqr_outcome(x@),
{
    match validate_basic(x) {
        Err(e) => {
            return Err(e);
        },
        Ok(_) => {},
    }
    if x.len() < 2 {
        return Err(StatsError::InvalidInputValue);
    }
    let lower_quartile: u64 = percentile_rs(x, TWENTY_FIVE);
    let upper_quartile: u64 = percentile_rs(x, SEVENTY_FIVE);
    Ok(difference(upper_quartile, lower_quartile))
}

/// The least and the greatest element in one pass: of equal least elements
/// the first, of equal greatest elements the last. `None` for no elements.
pub fn extremes(data: &[u64]) -> (r: Option<(u64, u64)>)
    ensures
        data.len() == 0 <==> r is None,
        r matches Some(pair) ==> pair.0 == first_min(data@) && pair.1 == last_max(data@),
{
    if data.len() == 0 {
        return None;
    }
    let mut low: u64 = data[0];
    let mut high: u64 = data[0];
    let mut i: usize = 1;
    proof {
        assert(data@.take(1).len() == 1);
    }
    while i < data.len()
        invariant
            1 <= i <= data.len(),
            low == first_min(data@.take(i as int)),
            high == last_max(data@.take(i as int)),
        decreases data.len() - i,
    {
        proof {
            assert(data@.take(i + 1).drop_last() =~= data@.take(i as int));
        }
        if less(data[i], low) {
            low = data[i];
        }
        if !less(data[i], high) {
            high = data[i];
        }
        i = i + 1;
    }
    proof {
        assert(data@.take(i as int) =~= data@);
    }
    Some((low, high))
}

/// The range of a sample: the distance from its least to its greatest
/// element.
pub fn range(x: &[u64]) -> (r: Result<u64, StatsError>)
    ensures
        r == range_outcome(x@),
{
    match validate_basic(x) {
        Err(e) => {
            return Err(e);
        },
        Ok(_) => {},
    }
    match extremes(x) {
        None => Err(StatsError::MinMaxError),
        Some((low, high)) => Ok(magnitude(difference(high, low))),
    }
}

/// The median absolute deviation of a sample: the median of the distances
/// of the elements from their median.
pub fn median_absolute_deviation(x: &[u64]) -> (r: Result<u64, StatsError>)
    ensures
        r == mad_outcome(x@),
{
    match validate_basic(x) {
        Err(e) => {
            return Err(e);
        },
        Ok(_) => {},
    }
    let center: u64 = median_rs(x);
    let mut deviations: Vec<u64> = Vec::with_capacity(x.len());
    let mut i: usize = 0;
    while i < x.len()
        invariant
            i <= x.len(),
            deviations@ == absolute_deviations(x@.take(i as int), center),
        decreases x.len() - i,
    {
        let d: u64 = magnitude(difference(x[i], center));
        proof {
            assert(absolute_deviations(x@.take(i + 1), center) =~= absolute_deviations(
                x@.take(i as int),
                center,
            ).push(d));
        }
        deviations.push(d);
        i = i + 1;
    }
    proof {
        assert(x@.take(i as int) =~= x@);
    }
    Ok(median_rs(deviations.as_slice()))
}

/// The sorted sample without `k` elements at each end.
fn trim(x: &[u64], k: usize) -> (r: Vec<u64>)
    requires
        2 * k <= x.len(),
    ensures
        r@ == trimmed(x@, k as int),
{
    let ordered: Vec<u64> = sort(x);
    let end: usize = x.len() - k;
    let mut kept: Vec<u64> = Vec::with_capacity(end - k);
    let mut i: usize = k;
    while i < end
        invariant
            k <= i <= end,
            end == x.len() - k,
            ordered.len() == x.len(),
            kept@ == ordered@.subrange(k as int, i as int),
        decreases end - i,
    {
        proof {
            assert(ordered@.subrange(k as int, i + 1) =~= ordered@.subrange(
                k as int,
                i as int,
            ).push(ordered@[i as int]));
        }
        kept.push(ordered[i]);
        i = i + 1;
    }
    kept
}

/// The trimmed mean of a sample: the mean of what is left when the given
/// fraction of the elements is dropped from each end of the sorted sample.
pub fn trimmed_mean(x: &[u64], trim_percent: u64) -> (r: Result<u64, StatsError>)
    ensures
        r == trimmed_mean_outcome(x@, trim_percent),
{
    match validate_trimmed(x, trim_percent) {
        Err(e) => {
            return Err(e);
        },
        Ok(_) => {},
    }
    let k: usize = count_to_trim(x.len(), trim_percent);
    let kept: Vec<u64> = trim(x, k);
    if kept.len() == 0 {
        return Err(StatsError::InvalidInputValue);
    }
    Ok(mean_rs(kept.as_slice()))
}

/// The trimmed variance of a sample: the sample variance of what is left
/// when the given fraction of the elements is dropped from each end of the
/// sorted sample.
pub fn trimmed_variance(x: &[u64], trim_percent: u64) -> (r: Result<u64, StatsError>)
    ensures
        r == trimmed_variance_outcome(x@, trim_percent),
{
    match validate_trimmed(x, trim_percent) {
        Err(e) => {
            return Err(e);
        },
        Ok(_) => {},
    }
    let k: usize = count_to_trim(x.len(), trim_percent);
    let kept: Vec<u64> = trim(x, k);
    if kept.len() < 2 {
        return Err(StatsError::EmptyDataSet);
    }
    proof {
        lemma_sorted(x@);
        lemma_trimmed_is_sample(x@, k as int);
    }
    variance(kept.as_slice())
}

/// What is left of a sample after trimming holds finite numbers only.
pub proof fn lemma_trimmed_is_sample(s: Seq<u64>, k: int)
    requires
        crate::validation::all_finite(s),
        0 <= k,
        2 * k <= s.len(),
    ensures
        crate::validation::all_finite(trimmed(s, k)),
{
    lemma_sorted(s);
    let t = sorted(s);
    assert forall|i: int| 0 <= i < trimmed(s, k).len() implies crate::double::spec_is_finite(
        #[trigger] trimmed(s, k)[i],
    ) by {
        let x = t[i + k];
        assert(t.contains(x));
        vstd::seq_lib::to_multiset_contains(t, x);
        vstd::seq_lib::to_multiset_contains(s, x);
        assert(s.contains(x));
        let j = choose|j: int| 0 <= j < s.len() && s[j] == x;
        assert(crate::double::spec_is_finite(s[j]));
    }
}

} // verus!
