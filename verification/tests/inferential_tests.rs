use wemburs::inferential_statistics::{
    confidence_interval, kolmogorov_smirnov_test, quantile_level, StatsError,
};

fn bits(values: &[f64]) -> Vec<u64> {
    values.iter().map(|v| v.to_bits()).collect()
}

fn next(state: &mut u64) -> u64 {
    *state ^= *state << 13;
    *state ^= *state >> 7;
    *state ^= *state << 17;
    *state
}

fn plain_ks(x: &[f64], y: &[f64]) -> f64 {
    let mut combined = [x, y].concat();
    combined.sort_by(|a, b| a.partial_cmp(b).unwrap());
    let mut max_diff = 0.0;
    for &value in &combined {
        let ex = x.iter().filter(|&&v| v <= value).count() as f64 / x.len() as f64;
        let ey = y.iter().filter(|&&v| v <= value).count() as f64 / y.len() as f64;
        let diff = (ex - ey).abs();
        if diff > max_diff {
            max_diff = diff;
        }
    }
    max_diff
}

#[test]
fn ks_statistic_of_known_samples() {
    let x = bits(&[1.0, 2.0, 3.0, 4.0]);
    let y = bits(&[3.0, 4.0, 5.0, 6.0]);
    assert_eq!(kolmogorov_smirnov_test(&x, &y), Ok(0.5f64.to_bits()));
    let far = bits(&[10.0, 11.0]);
    assert_eq!(kolmogorov_smirnov_test(&x, &far), Ok(1.0f64.to_bits()));
    assert_eq!(kolmogorov_smirnov_test(&far, &x), Ok(1.0f64.to_bits()));
    let z = bits(&[0.0, -0.0, 1.0]);
    let w = bits(&[-0.0, 0.0, 2.0]);
    assert_eq!(kolmogorov_smirnov_test(&z, &w), Ok((1.0f64 - 2.0 / 3.0).abs().to_bits()));
}

#[test]
fn ks_statistic_follows_its_definition() {
    let mut state: u64 = 0x7137_4491_b5c0_fbcf;
    for round in 0..1500 {
        let x: Vec<f64> = (0..1 + round % 30).map(|_| (next(&mut state) % 50) as f64 - 25.0).collect();
        let y: Vec<f64> = (0..1 + round % 17).map(|_| (next(&mut state) % 50) as f64 - 20.0).collect();
        assert_eq!(kolmogorov_smirnov_test(&bits(&x), &bits(&y)), Ok(plain_ks(&x, &y).to_bits()));
    }
}

#[test]
fn ks_statistic_of_a_sample_with_itself_is_zero() {
    let mut state: u64 = 0xe9b5_dba5_8189_dbbc;
    for round in 0..500 {
        let x: Vec<f64> = (0..1 + round % 30).map(|_| f64::from_bits(next(&mut state) >> 2)).collect();
        assert_eq!(kolmogorov_smirnov_test(&bits(&x), &bits(&x)), Ok(0.0f64.to_bits()));
    }
}

#[test]
fn ks_statistic_refuses_bad_samples() {
    let good = bits(&[1.0, 2.0]);
    assert_eq!(kolmogorov_smirnov_test(&bits(&[]), &good), Err(StatsError::EmptyDataSet));
    assert_eq!(kolmogorov_smirnov_test(&good, &bits(&[])), Err(StatsError::EmptyDataSet));
    assert_eq!(
        kolmogorov_smirnov_test(&good, &bits(&[f64::NAN])),
        Err(StatsError::InvalidInputValue)
    );
    assert_eq!(
        kolmogorov_smirnov_test(&bits(&[f64::INFINITY]), &good),
        Err(StatsError::InvalidInputValue)
    );
    assert_eq!(
        kolmogorov_smirnov_test(&bits(&[]), &bits(&[f64::NAN])),
        Err(StatsError::EmptyDataSet)
    );
}

#[test]
fn quantile_level_is_the_upper_tail_probability() {
    assert_eq!(quantile_level(0.95f64.to_bits()), Ok((1.0f64 - (1.0 - 0.95) / 2.0).to_bits()));
    assert_eq!(quantile_level(0.5f64.to_bits()), Ok(0.75f64.to_bits()));
    assert_eq!(quantile_level(0.0f64.to_bits()), Err(StatsError::InvalidInputValue));
    assert_eq!(quantile_level((-0.0f64).to_bits()), Err(StatsError::InvalidInputValue));
    assert_eq!(quantile_level(1.0f64.to_bits()), Err(StatsError::InvalidInputValue));
    assert_eq!(quantile_level(1.5f64.to_bits()), Err(StatsError::InvalidInputValue));
    assert_eq!(quantile_level((-0.3f64).to_bits()), Err(StatsError::InvalidInputValue));
    assert_eq!(quantile_level(f64::NAN.to_bits()), Err(StatsError::InvalidInputValue));
    let mut state: u64 = 0x3956_c25b_f348_b538;
    for _ in 0..10000 {
        let level = ((next(&mut state) % 999999) + 1) as f64 / 1000000.0;
        assert_eq!(quantile_level(level.to_bits()), Ok((1.0 - (1.0 - level) / 2.0).to_bits()));
    }
}

#[test]
fn confidence_interval_surrounds_the_mean() {
    let data = [2.0, 4.0, 4.0, 4.0, 5.0, 5.0, 7.0, 9.0];
    let z: f64 = 1.959963984540054;
    let (lower, upper) =
        confidence_interval(&bits(&data), 0.95f64.to_bits(), Some(z.to_bits())).unwrap();
    let std_error = ((32.0f64 / 7.0) / 8.0).sqrt();
    assert_eq!(f64::from_bits(lower), 5.0 - z * std_error);
    assert_eq!(f64::from_bits(upper), 5.0 + z * std_error);
    assert!(f64::from_bits(lower) <= 5.0 && 5.0 <= f64::from_bits(upper));
    let wider: f64 = 2.5758293035489004;
    let (lower99, upper99) =
        confidence_interval(&bits(&data), 0.99f64.to_bits(), Some(wider.to_bits())).unwrap();
    assert!(
        f64::from_bits(upper99) - f64::from_bits(lower99)
            > f64::from_bits(upper) - f64::from_bits(lower)
    );
    let single = confidence_interval(&bits(&[3.0]), 0.9f64.to_bits(), Some(z.to_bits()));
    assert_eq!(single, Err(StatsError::EmptyDataSet));
    let constant = confidence_interval(&bits(&[3.0, 3.0]), 0.9f64.to_bits(), Some(z.to_bits()));
    assert_eq!(constant, Ok((3.0f64.to_bits(), 3.0f64.to_bits())));
}

#[test]
fn confidence_interval_uses_the_sample_variance() {
    let data = bits(&[1.0, 2.0, 3.0, 4.0, 5.0]);
    let z: f64 = 1.959964;
    let (lower, upper) = confidence_interval(&data, 0.95f64.to_bits(), Some(z.to_bits())).unwrap();
    assert!((f64::from_bits(lower) - 1.6140962).abs() < 1e-6);
    assert!((f64::from_bits(upper) - 4.3859038).abs() < 1e-6);
    assert_eq!(f64::from_bits(lower), 3.0 - z * (2.5f64 / 5.0).sqrt());
    assert_eq!(f64::from_bits(upper), 3.0 + z * (2.5f64 / 5.0).sqrt());
    let square = bits(&[0.0, 4.0, 0.0, 4.0]);
    let (low, high) =
        confidence_interval(&square, 0.95f64.to_bits(), Some(2.0f64.to_bits())).unwrap();
    let half = 2.0 * ((16.0f64 / 3.0) / 4.0).sqrt();
    assert_eq!((f64::from_bits(low), f64::from_bits(high)), (2.0 - half, 2.0 + half));
}

#[test]
fn interval_width_with_the_quantile() {
    let data = bits(&[2.0, 4.0, 4.0, 4.0, 5.0, 5.0, 7.0, 9.0]);
    let quantiles: [f64; 4] = [0.6744897501960817, 1.2815515655446004, 1.959963984540054, 2.5758293035489004];
    let levels: [f64; 4] = [0.5, 0.8, 0.95, 0.99];
    let mut last = 0.0;
    for i in 0..4 {
        let (l, u) =
            confidence_interval(&data, levels[i].to_bits(), Some(quantiles[i].to_bits())).unwrap();
        let width = f64::from_bits(u) - f64::from_bits(l);
        assert!(width > last);
        last = width;
    }
    let coarse = bits(&[1e16, 1e16 + 2.0]);
    let (l1, u1) =
        confidence_interval(&coarse, 0.9f64.to_bits(), Some(1.6448536269514722f64.to_bits())).unwrap();
    let (l2, u2) =
        confidence_interval(&coarse, 0.95f64.to_bits(), Some(1.959963984540054f64.to_bits())).unwrap();
    assert!(f64::from_bits(l2) <= f64::from_bits(l1) && f64::from_bits(u1) <= f64::from_bits(u2));
    assert_eq!((l1, u1), (l2, u2));
}

#[test]
fn confidence_interval_names_the_first_fault() {
    let data = bits(&[1.0, 2.0, 3.0]);
    let z = Some(1.0f64.to_bits());
    assert_eq!(confidence_interval(&bits(&[]), 0.9f64.to_bits(), z), Err(StatsError::EmptyDataSet));
    assert_eq!(
        confidence_interval(&bits(&[f64::NAN]), 0.9f64.to_bits(), z),
        Err(StatsError::InvalidInputValue)
    );
    assert_eq!(confidence_interval(&data, 1.0f64.to_bits(), z), Err(StatsError::InvalidInputValue));
    assert_eq!(confidence_interval(&data, 0.0f64.to_bits(), None), Err(StatsError::InvalidInputValue));
    assert_eq!(confidence_interval(&data, 0.9f64.to_bits(), None), Err(StatsError::UnderlyingError));
    assert_eq!(confidence_interval(&bits(&[1.0]), 0.9f64.to_bits(), None), Err(StatsError::EmptyDataSet));
    assert_eq!(confidence_interval(&bits(&[1.0]), 1.5f64.to_bits(), z), Err(StatsError::InvalidInputValue));
    assert_eq!(confidence_interval(&bits(&[]), 7.0f64.to_bits(), None), Err(StatsError::EmptyDataSet));
}

#[test]
fn ks_statistic_of_large_samples() {
    let mut state: u64 = 0xbe54_66cf_34e9_0c6c;
    let x: Vec<f64> = (0..100000).map(|_| (next(&mut state) % 1000000) as f64).collect();
    let y: Vec<f64> = (0..100000).map(|_| (next(&mut state) % 1000000) as f64 + 5000.0).collect();
    let d = f64::from_bits(kolmogorov_smirnov_test(&bits(&x), &bits(&y)).unwrap());
    assert!(d > 0.0 && d <= 1.0);
    let small_x = &x[..300];
    let small_y = &y[..200];
    assert_eq!(
        kolmogorov_smirnov_test(&bits(small_x), &bits(small_y)),
        Ok(plain_ks(small_x, small_y).to_bits())
    );
}
