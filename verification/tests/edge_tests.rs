use wemburs::descriptive_statistics::{
    correlation, mean, median, percentile, percentile_rs, trimmed_mean, StatsError,
};
use wemburs::inferential_statistics::confidence_interval;

fn bits(values: &[f64]) -> Vec<u64> {
    values.iter().map(|v| v.to_bits()).collect()
}

fn number(r: Result<u64, StatsError>) -> Result<f64, StatsError> {
    r.map(f64::from_bits)
}

#[test]
fn median_overflows_where_the_middle_percentile_does_not() {
    let huge = bits(&[1e308, 1e308]);
    assert_eq!(number(median(&huge)), Ok(f64::INFINITY));
    assert_eq!(number(percentile(&huge, 50.0f64.to_bits())), Ok(1e308));
}

#[test]
fn order_of_addition_shows_in_the_trimmed_mean() {
    let mixed = bits(&[1.0, 1e16, -1e16, 1.0]);
    assert_eq!(number(mean(&mixed)), Ok(0.25));
    assert_eq!(number(trimmed_mean(&mixed, 0.0f64.to_bits())), Ok(0.0));
    let ascending = bits(&[-1e16, 1.0, 1.0, 1e16]);
    assert_eq!(trimmed_mean(&ascending, 0.0f64.to_bits()), mean(&ascending));
}

#[test]
fn correlation_of_totals_that_overflow_or_round() {
    let big = bits(&[1e160, 2e160, 3e160]);
    assert!(number(correlation(&big, &big)).unwrap().is_nan());
    let constant = bits(&[0.3, 0.3, 0.3]);
    let line = bits(&[0.0, 1.0, 2.0]);
    assert_eq!(number(correlation(&constant, &line)), Ok(0.0));
    let exact = bits(&[0.5, 0.5, 0.5]);
    assert_eq!(correlation(&exact, &line), Err(StatsError::ZeroVariance));
    assert_eq!(correlation(&line, &exact), Err(StatsError::ZeroVariance));
}

#[test]
fn interval_of_a_mean_that_overflows() {
    let huge = bits(&[1e308, 1e308]);
    let (lower, upper) =
        confidence_interval(&huge, 0.95f64.to_bits(), Some(1.96f64.to_bits())).unwrap();
    assert!(f64::from_bits(lower).is_nan());
    assert_eq!(f64::from_bits(upper), f64::INFINITY);
}

#[test]
fn percentile_of_any_double() {
    let data = bits(&[1.0, 2.0, 3.0]);
    assert_eq!(percentile_rs(&data, f64::NAN.to_bits()), 1.0f64.to_bits());
    assert_eq!(percentile_rs(&data, (-5.0f64).to_bits()), 1.0f64.to_bits());
    assert_eq!(percentile_rs(&data, 1e300f64.to_bits()), 3.0f64.to_bits());
    assert_eq!(percentile_rs(&data, (-0.0f64).to_bits()), 1.0f64.to_bits());
    assert_eq!(percentile_rs(&data, 5e-324f64.to_bits()), (1.0f64 + 1e-323 * 1.0).to_bits());
}
