use wemburs::linear_models::{validate_linear_model_input, LinearModelError};

fn row(values: &[f64]) -> Vec<u64> {
    values.iter().map(|v| v.to_bits()).collect()
}

#[test]
fn linear_model_input_is_checked_in_order() {
    let features = vec![row(&[1.0, 2.0]), row(&[3.0, 4.0]), row(&[5.0, 6.0])];
    let target = row(&[1.0, 2.0, 3.0]);
    assert_eq!(validate_linear_model_input(&features, &target), Ok(()));
    assert_eq!(
        validate_linear_model_input(&[], &target),
        Err(LinearModelError::EmptyDataSet)
    );
    assert_eq!(
        validate_linear_model_input(&[row(&[]), row(&[])], &target),
        Err(LinearModelError::EmptyDataSet)
    );
    assert_eq!(
        validate_linear_model_input(&[row(&[]), row(&[1.0])], &target),
        Err(LinearModelError::InvalidFeatures)
    );
    let wide: Vec<f64> = (0..101).map(|i| i as f64).collect();
    assert_eq!(
        validate_linear_model_input(&[row(&wide)], &row(&[1.0])),
        Err(LinearModelError::InvalidFeatures)
    );
    assert_eq!(validate_linear_model_input(&[row(&wide[..100])], &row(&[1.0])), Ok(()));
    assert_eq!(
        validate_linear_model_input(&[row(&[1.0, 2.0]), row(&[3.0])], &row(&[1.0, 2.0])),
        Err(LinearModelError::InconsistentLength)
    );
    assert_eq!(
        validate_linear_model_input(&[row(&[1.0, f64::NAN]), row(&[3.0])], &row(&[1.0, 2.0])),
        Err(LinearModelError::InconsistentLength)
    );
    assert_eq!(
        validate_linear_model_input(&[row(&[1.0, 2.0]), row(&[3.0, f64::INFINITY])], &target),
        Err(LinearModelError::InvalidInputValue)
    );
    assert_eq!(
        validate_linear_model_input(&features, &[]),
        Err(LinearModelError::EmptyDataSet)
    );
    assert_eq!(
        validate_linear_model_input(&features, &row(&[1.0, 2.0])),
        Err(LinearModelError::InconsistentLength)
    );
    assert_eq!(
        validate_linear_model_input(&features, &row(&[1.0, f64::NAN, 3.0])),
        Ok(())
    );
}

#[test]
fn linear_model_error_texts() {
    assert_eq!(
        LinearModelError::EmptyDataSet.to_string(),
        "Input data array is empty, cannot perform operation."
    );
    assert_eq!(
        LinearModelError::InvalidInputValue.to_string(),
        "Input contains invalid values (e.g., NaN or Infinity)."
    );
    assert_eq!(LinearModelError::InconsistentLength.to_string(), "Input arrays length do not match");
    assert_eq!(
        LinearModelError::InvalidFeatures.to_string(),
        "Input matrix has too many or too few features"
    );
    assert_eq!(
        LinearModelError::ZeroVariance.to_string(),
        "Cannot compute: one or both variables have zero variance."
    );
}
