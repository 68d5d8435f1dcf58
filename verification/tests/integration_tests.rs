use wemburs::descriptive_statistics;

#[test]
fn test_calculate_mean() {
    let data: Vec<u64> = vec![2.0f64.to_bits(), 4.0f64.to_bits(), 6.0f64.to_bits()];
    let result = descriptive_statistics::mean(&data);
    assert_eq!(result, Ok(4.0f64.to_bits()));
}
