//! The checks that every statistic makes on its input before it computes.

use vstd::prelude::*;
use crate::descriptive_statistics::errors::StatsError;
use crate::arithmetic::{
    from_usize,
    product,
    spec_from_usize,
    spec_product,
    spec_to_usize,
    to_usize,
};
use crate::double::{ONE, ZERO, is_finite, is_nan, key, less, spec_is_finite, spec_is_nan};

verus! {

/// Whether every element is a finite number: none is NaN, none infinite.
pub open spec fn all_finite(s: Seq<u64>) -> bool {
    forall|i: int| 0 <= i < s.len() ==> spec_is_finite(#[trigger] s[i])
}

/// Whether a sequence can be a sample: it is not empty and all its elements
/// are finite.
pub open spec fn is_sample(s: Seq<u64>) -> bool {
    s.len() > 0 && all_finite(s)
}

/// What the basic check says of a sequence: an empty one is `EmptyDataSet`,
/// one with a NaN or an infinity is `InvalidInputValue`.
pub open spec fn basic_verdict(s: Seq<u64>) -> Result<(), StatsError> {
    if s.len() == 0 {
        Err(StatsError::EmptyDataSet)
    } else if !all_finite(s) {
        Err(StatsError::InvalidInputValue)
    } else {
        Ok(())
    }
}

/// What the check of two sequences that belong together says: the basic
/// check of the first, then that of the second, then `InconsistentLength`
/// where the lengths differ.
pub open spec fn weighted_verdict(s: Seq<u64>, w: Seq<u64>) -> Result<(), StatsError> {
    if basic_verdict(s) is Err {
        basic_verdict(s)
    } else if basic_verdict(w) is Err {
        basic_verdict(w)
    } else if s.len() != w.len() {
        Err(StatsError::InconsistentLength)
    } else {
        Ok(())
    }
}

/// Whether all elements of `sample` are finite.
pub fn check_all_finite(sample: &[u64]) -> (r: bool)
    ensures
        r == all_finite(sample@),
{
    let mut i: usize = 0;
    while i < sample.len()
        invariant
            i <= sample.len(),
            all_finite(sample@.take(i as int)),
        decreases sample.len() - i,
    {
        if !is_finite(sample[i]) {
            return false;
        }
        i = i + 1;
        proof {
            assert forall|k: int| 0 <= k < i implies spec_is_finite(
                #[trigger] sample@.take(i as int)[k],
            ) by {
                if k < i - 1 {
                    assert(sample@.take(i as int)[k] == sample@.take(i - 1)[k]);
                }
            }
        }
    }
    proof {
        assert(sample@.take(i as int) =~= sample@);
    }
    true
}

/// The basic check: the sample is not empty and holds finite numbers only.
pub fn validate_basic(sample: &[u64]) -> (r: Result<(), StatsError>)
    ensures
        r == basic_verdict(sample@),
{
    if sample.len() == 0 {
        return Err(StatsError::EmptyDataSet);
    }
    if !check_all_finite(sample) {
        return Err(StatsError::InvalidInputValue);
    }
    Ok(())
}

/// The check of a sample with its weights, or of two paired samples: both
/// pass the basic check, and they have one length.
pub fn validate_weighted(sample: &[u64], weights: &[u64]) -> (r: Result<(), StatsError>)
    ensures
        r == weighted_verdict(sample@, weights@),
{
    match validate_basic(sample) {
        Err(e) => {
            return Err(e);
        },
        Ok(_) => {},
    }
    match validate_basic(weights) {
        Err(e) => {
            return Err(e);
        },
        Ok(_) => {},
    }
    if sample.len() != weights.len() {
        return Err(StatsError::InconsistentLength);
    }
    Ok(())
}

/// A sequence passes the basic check exactly when it is a sample.
pub proof fn lemma_basic_verdict(s: Seq<u64>)
    ensures
        basic_verdict(s) is Ok <==> is_sample(s),
        s.len() == 0 <==> basic_verdict(s) == Err::<(), StatsError>(StatsError::EmptyDataSet),
        s.len() > 0 && !all_finite(s) <==> basic_verdict(s) == Err::<(), StatsError>(
            StatsError::InvalidInputValue,
        ),
{
}

/// Two samples of different lengths fail with `InconsistentLength`, whatever
/// their elements are, as long as each is a sample by itself.
pub proof fn lemma_mismatched_lengths(s: Seq<u64>, w: Seq<u64>)
    requires
        is_sample(s),
        is_sample(w),
        s.len() != w.len(),
    ensures
        weighted_verdict(s, w) == Err::<(), StatsError>(StatsError::InconsistentLength),
{
}

/// Whether a double lies in the closed interval from 0 to 1. NaN does not.
pub open spec fn in_unit_interval(t: u64) -> bool {
    !spec_is_nan(t) && 0 <= key(t) <= key(ONE)
}

/// The number of elements that a trimmed statistic drops from each end of
/// a sample of `n`: the product of `n` and the trim fraction, rounded to a
/// double as every product is, and then down to a whole number.
pub open spec fn trim_count(n: usize, trim_fraction: u64) -> usize {
    spec_to_usize(spec_product(spec_from_usize(n), trim_fraction))
}

/// What the check before a trimmed statistic says: the basic check, then
/// `InvalidInputValue` where the trim fraction is outside the interval from
/// 0 to 1, or where dropping the trim count from both ends would take more
/// elements than there are.
pub open spec fn trimmed_verdict(s: Seq<u64>, trim_fraction: u64) -> Result<(), StatsError> {
    if basic_verdict(s) is Err {
        basic_verdict(s)
    } else if !in_unit_interval(trim_fraction) {
        Err(StatsError::InvalidInputValue)
    } else if 2 * trim_count(s.len() as usize, trim_fraction) > s.len() {
        Err(StatsError::InvalidInputValue)
    } else {
        Ok(())
    }
}

/// The number of elements to drop from each end of a sample of `n`.
pub fn count_to_trim(n: usize, trim_fraction: u64) -> (r: usize)
    ensures
        r == trim_count(n, trim_fraction),
{
    to_usize(product(from_usize(n), trim_fraction))
}

/// The check before a trimmed statistic: the basic check, a trim fraction
/// from 0 to 1, and enough elements to trim both ends.
pub fn validate_trimmed(sample: &[u64], trim_fraction: u64) -> (r: Result<(), StatsError>)
    ensures
        r == trimmed_verdict(sample@, trim_fraction),
{
    match validate_basic(sample) {
        Err(e) => {
            return Err(e);
        },
        Ok(_) => {},
    }
    if is_nan(trim_fraction) || less(trim_fraction, ZERO) || less(ONE, trim_fraction) {
        return Err(StatsError::InvalidInputValue);
    }
    let n: usize = sample.len();
    let k: usize = count_to_trim(n, trim_fraction);
    if k > n || k > n - k {
        return Err(StatsError::InvalidInputValue);
    }
    Ok(())
}

} // verus!
