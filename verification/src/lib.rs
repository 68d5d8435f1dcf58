//! Descriptive and inferential statistics over samples of IEEE-754 doubles.
//!
//! A double is held as the 64-bit pattern that `f64::to_bits` gives, and all
//! arithmetic on doubles is done on these patterns in integers, each
//! operation rounded to the nearest double, ties to even. So a statistic is
//! the same double on every machine, and what it is, to the last bit, is
//! stated in its contract.
//!
//! - `double`: the class, the sign and the order of a double.
//! - `rounding`, `arithmetic`: rounding to the nearest double; sum,
//!   difference, product, quotient, square root and conversions.
//! - `sorting`: the stable ascending sort.
//! - `validation`: the checks of the input that every statistic begins with.
//! - `descriptive_statistics`, `inferential_statistics`, `linear_models`: the
//!   statistics.
//! - `exactness`, `monotonicity`, `ratios`: what holds of the arithmetic.
//! - `theorems`: what holds of the statistics.

pub mod arithmetic;
pub mod descriptive_statistics;
pub mod double;
pub mod exactness;
pub mod inferential_statistics;
pub mod linear_models;
pub mod monotonicity;
pub mod ratios;
pub mod rounding;
pub mod sorting;
pub mod theorems;
pub mod validation;

pub use crate::descriptive_statistics::{
    correlation,
    covariance,
    iqr,
    kurtosis,
    mean,
    median,
    median_absolute_deviation,
    range,
    skewness,
    summary_statistics,
    trimmed_mean,
    trimmed_variance,
    variance,
    weighted_mean,
};
pub use crate::inferential_statistics::{confidence_interval, kolmogorov_smirnov_test};
