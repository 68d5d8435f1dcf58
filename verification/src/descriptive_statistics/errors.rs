//! The errors that a statistic can report.

use vstd::prelude::*;

verus! {

/// Why a statistic could not be computed.
#[derive(Debug, Clone, Copy, PartialEq, Eq, Structural)]
pub enum StatsError {
    /// The sample is empty, or shorter than the statistic needs.
    EmptyDataSet,
    /// An element is NaN or infinite, or a parameter is out of range.
    InvalidInputValue,
    /// Two sequences that belong together differ in length.
    InconsistentLength,
    /// No minimum or maximum could be found.
    MinMaxError,
    /// A standard deviation or a correlation denominator is zero.
    ZeroVariance,
    /// A computation that the statistic depends on failed.
    UnderlyingError,
    /// The input could not be read as a sequence of numbers.
    Conversion,
}

impl StatsError {
    /// The text that describes the error.
    pub open spec fn message(self) -> Seq<char> {
        match self {
            StatsError::EmptyDataSet => "Input data array is empty, cannot perform operation."@,
            StatsError::InvalidInputValue => "Input contains invalid values (e.g., NaN or Infinity)."@,
            StatsError::InconsistentLength => "Input data and weight arrays length do not match"@,
            StatsError::MinMaxError => "Cannot compute min or max: the dataset is empty or contains invalid values."@,
            StatsError::ZeroVariance => "Cannot compute: one or both variables have zero variance."@,
            StatsError::UnderlyingError => "Error in Underlying Rust Packages"@,
            StatsError::Conversion => "Cannot convert input array to numeric type."@,
        }
    }

    /// Renders the error as its describing text.
    pub fn to_string(&self) -> (text: String)
        ensures
            text@ == self.message(),
    {
        let text: &str = match self {
            StatsError::EmptyDataSet => "Input data array is empty, cannot perform operation.",
            StatsError::InvalidInputValue => "Input contains invalid values (e.g., NaN or Infinity).",
            StatsError::InconsistentLength => "Input data and weight arrays length do not match",
            StatsError::MinMaxError => "Cannot compute min or max: the dataset is empty or contains invalid values.",
            StatsError::ZeroVariance => "Cannot compute: one or both variables have zero variance.",
            StatsError::UnderlyingError => "Error in Underlying Rust Packages",
            StatsError::Conversion => "Cannot convert input array to numeric type.",
        };
        text.to_owned()
    }
}

} // verus!
