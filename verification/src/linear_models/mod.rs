//! Linear models: the check of the input that a model is fitted to, a
//! matrix of features given by its rows, and one target for each row.

pub mod errors;

pub use crate::linear_models::errors::LinearModelError;

use vstd::prelude::*;
use crate::validation::{all_finite, check_all_finite};

verus! {

/// The greatest number of features that a model takes.
pub const MAX_FEATURES: usize = 100;

/// Whether the matrix holds no element at all: it has no rows, or all its
/// rows are empty.
pub open spec fn no_elements(rows: Seq<Vec<u64>>) -> bool {
    forall|i: int| 0 <= i < rows.len() ==> (#[trigger] rows[i])@.len() == 0
}

/// Whether every row has `width` elements.
pub open spec fn rows_have_width(rows: Seq<Vec<u64>>, width: nat) -> bool {
    forall|i: int| 0 <= i < rows.len() ==> (#[trigger] rows[i])@.len() == width
}

/// Whether every element of every row is finite.
pub open spec fn rows_finite(rows: Seq<Vec<u64>>) -> bool {
    forall|i: int| 0 <= i < rows.len() ==> all_finite((#[trigger] rows[i])@)
}

/// What the check of a model's input says, the first fault first: no
/// elements is `EmptyDataSet`; a first row of no features or of more than
/// 100, `InvalidFeatures`; rows of different lengths, `InconsistentLength`;
/// a NaN or an infinity among the features, `InvalidInputValue`; no
/// targets, `EmptyDataSet`; and a number of targets other than that of the
/// rows, `InconsistentLength`.
pub open spec fn linear_model_verdict(rows: Seq<Vec<u64>>, target: Seq<u64>) -> Result<
    (),
    LinearModelError,
> {
    if no_elements(rows) {
        Err(LinearModelError::EmptyDataSet)
    } else if rows[0]@.len() < 1 || rows[0]@.len() > MAX_FEATURES {
        Err(LinearModelError::InvalidFeatures)
    } else if !rows_have_width(rows, rows[0]@.len()) {
        Err(LinearModelError::InconsistentLength)
    } else if !rows_finite(rows) {
        Err(LinearModelError::InvalidInputValue)
    } else if target.len() == 0 {
        Err(LinearModelError::EmptyDataSet)
    } else if target.len() != rows.len() {
        Err(LinearModelError::InconsistentLength)
    } else {
        Ok(())
    }
}

/// Whether the matrix holds no element.
fn check_no_elements(features: &[Vec<u64>]) -> (r: bool)
    ensures
        r == no_elements(features@),
{
    let mut i: usize = 0;
    while i < features.len()
        invariant
            i <= features.len(),
            forall|k: int| 0 <= k < i ==> (#[trigger] features@[k])@.len() == 0,
        decreases features.len() - i,
    {
        if features[i].len() != 0 {
            return false;
        }
        i = i + 1;
    }
    true
}

/// Whether every row has `width` elements.
fn check_width(features: &[Vec<u64>], width: usize) -> (r: bool)
    ensures
        r == rows_have_width(features@, width as nat),
{
    let mut i: usize = 0;
    while i < features.len()
        invariant
            i <= features.len(),
            forall|k: int| 0 <= k < i ==> (#[trigger] features@[k])@.len() == width,
        decreases features.len() - i,
    {
        if features[i].len() != width {
            return false;
        }
        i = i + 1;
    }
    true
}

/// Whether every element of every row is finite.
fn check_rows_finite(features: &[Vec<u64>]) -> (r: bool)
    ensures
        r == rows_finite(features@),
{
    let mut i: usize = 0;
    while i < features.len()
        invariant
            i <= features.len(),
            forall|k: int| 0 <= k < i ==> all_finite((#[trigger] features@[k])@),
        decreases features.len() - i,
    {
        if !check_all_finite(features[i].as_slice()) {
            return false;
        }
        i = i + 1;
    }
    true
}

/// The check of the input of a linear model: the rows of features and the
/// targets.
pub fn validate_linear_model_input(features: &[Vec<u64>], target: &[u64]) -> (r: Result<
    (),
    LinearModelError,
>)
    ensures
        r == linear_model_verdict(features@, target@),
{
    if check_no_elements(features) {
        return Err(LinearModelError::EmptyDataSet);
    }
    let width: usize = features[0].len();
    if width < 1 || width > MAX_FEATURES {
        return Err(LinearModelError::InvalidFeatures);
    }
    if !check_width(features, width) {
        return Err(LinearModelError::InconsistentLength);
    }
    if !check_rows_finite(features) {
        return Err(LinearModelError::InvalidInputValue);
    }
    if target.len() == 0 {
        return Err(LinearModelError::EmptyDataSet);
    }
    if target.len() != features.len() {
        return Err(LinearModelError::InconsistentLength);
    }
    Ok(())
}

} // verus!
