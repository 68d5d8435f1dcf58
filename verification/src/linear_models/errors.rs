//! The errors that the input of a linear model can have.

use vstd::prelude::*;

verus! {

/// Why a linear model cannot be fitted to its input.
#[derive(Debug, Clone, Copy, PartialEq, Eq, Structural)]
pub enum LinearModelError {
    /// The features or the targets are empty.
    EmptyDataSet,
    /// A value is NaN or infinite.
    InvalidInputValue,
    /// Rows differ in length, or there is not one target for each row.
    InconsistentLength,
    /// There are too many or too few features.
    InvalidFeatures,
    /// A variable is constant.
    ZeroVariance,
}

impl LinearModelError {
    /// The text that describes the error.
    pub open spec fn message(self) -> Seq<char> {
        match self {
            LinearModelError::EmptyDataSet => "Input data array is empty, cannot perform operation."@,
            LinearModelError::InvalidInputValue => "Input contains invalid values (e.g., NaN or Infinity)."@,
            LinearModelError::InconsistentLength => "Input arrays length do not match"@,
            LinearModelError::InvalidFeatures => "Input matrix has too many or too few features"@,
            LinearModelError::ZeroVariance => "Cannot compute: one or both variables have zero variance."@,
        }
    }

    /// Renders the error as its describing text.
    pub fn to_string(&self) -> (text: String)
        ensures
            text@ == self.message(),
    {
        let text: &str = match self {
            LinearModelError::EmptyDataSet => "Input data array is empty, cannot perform operation.",
            LinearModelError::InvalidInputValue => "Input contains invalid values (e.g., NaN or Infinity).",
            LinearModelError::InconsistentLength => "Input arrays length do not match",
            LinearModelError::InvalidFeatures => "Input matrix has too many or too few features",
            LinearModelError::ZeroVariance => "Cannot compute: one or both variables have zero variance.",
        };
        text.to_owned()
    }
}

} // verus!
