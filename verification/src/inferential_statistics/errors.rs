//! The errors that an inferential statistic can report: those of the
//! descriptive statistics.

pub use crate::descriptive_statistics::errors::StatsError;
