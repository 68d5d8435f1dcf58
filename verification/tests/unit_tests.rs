use wemburs::descriptive_statistics::{mean, median, trimmed_mean, variance, weighted_mean, StatsError};

fn bits(values: &[f64]) -> Vec<u64> {
    values.iter().map(|v| v.to_bits()).collect()
}

fn number(r: Result<u64, StatsError>) -> Result<f64, StatsError> {
    r.map(f64::from_bits)
}

#[test]
fn test_mean_empty_array() {
    let data: [f64; 0] = [];
    assert_eq!(number(mean(&bits(&data))), Err(StatsError::EmptyDataSet));
}

#[test]
fn test_mean_single_element() {
    let data = [3.0];
    assert_eq!(number(mean(&bits(&data))), Ok(3.0));
}

#[test]
fn test_mean_multiple_elements() {
    let data = [1.0, 2.0, 3.0, 4.0, 5.0];
    assert_eq!(number(mean(&bits(&data))), Ok(3.0));
}

#[test]
fn test_mean_with_nan() {
    let data = [1.0, 2.0, f64::NAN];
    assert_eq!(number(mean(&bits(&data))), Err(StatsError::InvalidInputValue));
}

#[test]
fn test_mean_with_infinity() {
    let data = [1.0, 2.0, f64::INFINITY];
    assert_eq!(number(mean(&bits(&data))), Err(StatsError::InvalidInputValue));
}

#[test]
fn test_median_empty_array() {
    let data: [f64; 0] = [];
    assert_eq!(number(median(&bits(&data))), Err(StatsError::EmptyDataSet));
}

#[test]
fn test_median_single_element() {
    let data = [3.0];
    assert_eq!(number(median(&bits(&data))), Ok(3.0));
}

#[test]
fn test_median_multiple_elements() {
    let data = [5.0, 2.0, 3.0, 4.0, 1.0];
    assert_eq!(number(median(&bits(&data))), Ok(3.0));
}

#[test]
fn test_median_odd_len() {
    let data = [4.0, 2.0, 3.0, 4.0, 1.0];
    assert_eq!(number(median(&bits(&data))), Ok(3.0));
}

#[test]
fn test_median_even_len() {
    let data = [5.0, 2.0, 3.0, 4.0];
    assert_eq!(number(median(&bits(&data))), Ok(3.5));
}

#[test]
fn test_median_with_nan() {
    let data = [1.0, 2.0, f64::NAN];
    assert_eq!(number(median(&bits(&data))), Err(StatsError::InvalidInputValue));
}

#[test]
fn test_median_with_infinity() {
    let data = [1.0, 2.0, f64::INFINITY];
    assert_eq!(number(median(&bits(&data))), Err(StatsError::InvalidInputValue));
}

#[test]
fn test_trimmed_mean_empty_array() {
    let data: [f64; 0] = [];
    assert_eq!(
        number(trimmed_mean(&bits(&data), 0.5f64.to_bits())),
        Err(StatsError::EmptyDataSet)
    )
}

#[test]
fn test_trimmed_mean_valid_no_trimming() {
    let data = [1.0, 2.0, 3.0, 4.0, 5.0];
    assert_eq!(number(trimmed_mean(&bits(&data), 0.0f64.to_bits())), Ok(3.0));
}

#[test]
fn test_trimmed_mean_valid_moderate_trimming() {
    let data = [1.0, 2.0, 3.0, 4.0, 5.0];
    assert_eq!(number(trimmed_mean(&bits(&data), 0.1f64.to_bits())), Ok(3.0));
}

#[test]
fn test_trimmed_mean_valid_max_trimming() {
    let data = [1.0, 2.0, 3.0, 4.0, 5.0];
    assert_eq!(number(trimmed_mean(&bits(&data), 0.5f64.to_bits())), Ok(3.0));
}

#[test]
fn test_trimmed_mean_invalid_trim_percentage() {
    let data = [1.0, 2.0, 3.0, 4.0, 5.0];
    assert_eq!(
        number(trimmed_mean(&bits(&data), (-0.1f64).to_bits())),
        Err(StatsError::InvalidInputValue)
    );
    assert_eq!(
        number(trimmed_mean(&bits(&data), 1.1f64.to_bits())),
        Err(StatsError::InvalidInputValue)
    );
}

#[test]
fn test_weighted_mean_valid_input() {
    let data = [1.0, 2.0, 3.0];
    let weights = [0.5, 1.5, 2.0];
    assert_eq!(number(weighted_mean(&bits(&data), &bits(&weights))), Ok(2.375));
}

#[test]
fn test_weighted_mean_empty_arrays() {
    let data: [f64; 0] = [];
    let weights: [f64; 0] = [];
    assert_eq!(
        number(weighted_mean(&bits(&data), &bits(&weights))),
        Err(StatsError::EmptyDataSet)
    );
}

#[test]
fn test_weighted_mean_mismatched_lengths() {
    let data = [1.0, 2.0];
    let weights = [1.0];
    assert_eq!(
        number(weighted_mean(&bits(&data), &bits(&weights))),
        Err(StatsError::InconsistentLength)
    );
}

#[test]
fn test_weighted_mean_data_with_nan() {
    let data = [1.0, f64::NAN];
    let weights = [1.0, 1.0];
    assert_eq!(
        number(weighted_mean(&bits(&data), &bits(&weights))),
        Err(StatsError::InvalidInputValue)
    );
}

#[test]
fn test_weighted_mean_weights_with_nan() {
    let data = [1.0, 2.0];
    let weights = [1.0, f64::NAN];
    assert_eq!(
        number(weighted_mean(&bits(&data), &bits(&weights))),
        Err(StatsError::InvalidInputValue)
    );
}

#[test]
fn test_weighted_mean_zero_sum_of_weights() {
    let data = [1.0, 2.0, 3.0];
    let weights = [0.0, 0.0, 0.0];
    assert_eq!(
        number(weighted_mean(&bits(&data), &bits(&weights))),
        Err(StatsError::InvalidInputValue)
    );
}

#[test]
fn test_variance_valid_dataset() {
    let data = [1.0, 2.0, 3.0, 4.0, 5.0];
    let expected_variance = 2.5;
    assert_eq!(number(variance(&bits(&data))), Ok(expected_variance));
}

#[test]
fn test_variance_empty_dataset() {
    let data: [f64; 0] = [];
    assert_eq!(number(variance(&bits(&data))), Err(StatsError::EmptyDataSet));
}

#[test]
fn test_variance_single_element() {
    let data = [3.0];
    assert_eq!(number(variance(&bits(&data))), Err(StatsError::EmptyDataSet));
}

#[test]
fn test_variance_with_nan() {
    let data = [1.0, f64::NAN, 3.0];
    assert_eq!(number(variance(&bits(&data))), Err(StatsError::InvalidInputValue));
}

#[test]
fn test_variance_with_infinity() {
    let data = [1.0, f64::INFINITY, 3.0];
    assert_eq!(number(variance(&bits(&data))), Err(StatsError::InvalidInputValue));
}
