use wemburs::descriptive_statistics::{
    correlation, covariance, extremes, iqr, kurtosis, mean, mean_rs, median,
    median_absolute_deviation, median_rs, percentile, percentile_rs, range, skewness,
    summary_statistics, trimmed_mean, trimmed_variance, variance, variance_rs, weighted_mean,
    StatsError,
};
use wemburs::sorting::sort;
use wemburs::validation::{count_to_trim, validate_basic, validate_trimmed, validate_weighted};

fn bits(values: &[f64]) -> Vec<u64> {
    values.iter().map(|v| v.to_bits()).collect()
}

fn number(r: Result<u64, StatsError>) -> Result<f64, StatsError> {
    r.map(f64::from_bits)
}

fn next(state: &mut u64) -> u64 {
    *state ^= *state << 13;
    *state ^= *state >> 7;
    *state ^= *state << 17;
    *state
}

/// A finite double of moderate size, of either sign.
fn draw(state: &mut u64) -> f64 {
    let raw = next(state);
    let field = 1023 - 20 + (next(state) % 40);
    f64::from_bits((raw & 0x800f_ffff_ffff_ffff) | (field << 52))
}

fn sample(state: &mut u64, n: usize) -> Vec<f64> {
    (0..n).map(|_| draw(state)).collect()
}

fn same(a: Result<u64, StatsError>, b: f64) -> bool {
    match a {
        Ok(v) => {
            if b.is_nan() {
                f64::from_bits(v).is_nan()
            } else {
                v == b.to_bits()
            }
        }
        Err(_) => false,
    }
}

fn sorted_copy(x: &[f64]) -> Vec<f64> {
    let mut t = x.to_vec();
    t.sort_by(|a, b| a.partial_cmp(b).unwrap());
    t
}

fn plain_mean(x: &[f64]) -> f64 {
    let mut acc = 0.0;
    for v in x {
        acc = acc + *v;
    }
    acc / x.len() as f64
}

fn plain_squares(x: &[f64], m: f64) -> f64 {
    let mut acc = 0.0;
    for v in x {
        let d = *v - m;
        acc = acc + d * d;
    }
    acc
}

fn plain_median(x: &[f64]) -> f64 {
    let t = sorted_copy(x);
    let mid = t.len() / 2;
    if t.len() % 2 == 0 {
        (t[mid - 1] + t[mid]) / 2.0
    } else {
        t[mid]
    }
}

fn plain_percentile(x: &[f64], p: f64) -> f64 {
    let t = sorted_copy(x);
    if p == 0.0 {
        return t[0];
    } else if p == 100.0 {
        return t[t.len() - 1];
    }
    let length = t.len() as f64;
    let rank = (p / 100.0) * (length - 1.0);
    let lower = rank.floor() as usize;
    let upper = rank.ceil() as usize;
    if lower == upper {
        t[lower]
    } else {
        t[lower] + (rank - lower as f64) * (t[upper] - t[lower])
    }
}

#[test]
fn validation_names_the_first_fault() {
    assert_eq!(validate_basic(&bits(&[])), Err(StatsError::EmptyDataSet));
    assert_eq!(validate_basic(&bits(&[1.0, f64::NEG_INFINITY])), Err(StatsError::InvalidInputValue));
    assert_eq!(validate_basic(&bits(&[f64::NAN])), Err(StatsError::InvalidInputValue));
    assert_eq!(validate_basic(&bits(&[0.0, -0.0, 5e-324, f64::MAX, f64::MIN])), Ok(()));
    assert_eq!(validate_weighted(&bits(&[1.0]), &bits(&[1.0, 2.0])), Err(StatsError::InconsistentLength));
    assert_eq!(validate_weighted(&bits(&[]), &bits(&[1.0, 2.0])), Err(StatsError::EmptyDataSet));
    assert_eq!(validate_weighted(&bits(&[1.0]), &bits(&[])), Err(StatsError::EmptyDataSet));
    assert_eq!(validate_weighted(&bits(&[f64::NAN]), &bits(&[1.0, 2.0])), Err(StatsError::InvalidInputValue));
    assert_eq!(validate_weighted(&bits(&[1.0, 2.0]), &bits(&[1.0, 2.0])), Ok(()));
}

#[test]
fn trimming_is_validated() {
    let data = bits(&[1.0, 2.0, 3.0, 4.0]);
    assert_eq!(validate_trimmed(&data, 0.5f64.to_bits()), Ok(()));
    assert_eq!(validate_trimmed(&data, 0.75f64.to_bits()), Err(StatsError::InvalidInputValue));
    assert_eq!(validate_trimmed(&data, 1.0f64.to_bits()), Err(StatsError::InvalidInputValue));
    assert_eq!(validate_trimmed(&data, (-0.0f64).to_bits()), Ok(()));
    assert_eq!(validate_trimmed(&data, f64::NAN.to_bits()), Err(StatsError::InvalidInputValue));
    assert_eq!(validate_trimmed(&bits(&[]), 0.1f64.to_bits()), Err(StatsError::EmptyDataSet));
    assert_eq!(validate_trimmed(&bits(&[f64::NAN]), 7.0f64.to_bits()), Err(StatsError::InvalidInputValue));
}

#[test]
fn trim_count_rounds_the_product_first() {
    assert_eq!(count_to_trim(10, 0.3f64.to_bits()), 3);
    assert_eq!(count_to_trim(5, 0.1f64.to_bits()), 0);
    assert_eq!(count_to_trim(5, 0.5f64.to_bits()), 2);
    let mut state: u64 = 0x4d59_5df4_d0f3_3173;
    for _ in 0..100000 {
        let n = (next(&mut state) % 100000) as usize;
        let t = (next(&mut state) % 1000001) as f64 / 1000000.0;
        assert_eq!(count_to_trim(n, t.to_bits()), ((n as f64) * t) as usize, "{} {}", n, t);
    }
}

#[test]
fn sort_is_stable_and_ascending() {
    let data = bits(&[3.0, -1.0, 0.0, -0.0, 2.5, -7.0, 0.0, 1e300, -1e-300]);
    let expected = bits(&[-7.0, -1.0, -1e-300, 0.0, -0.0, 0.0, 2.5, 3.0, 1e300]);
    assert_eq!(sort(&data), expected);
    let mut state: u64 = 0x853c_49e6_748f_ea9b;
    for n in 0..200 {
        let x = sample(&mut state, n);
        assert_eq!(sort(&bits(&x)), bits(&sorted_copy(&x)));
    }
}

#[test]
fn mean_and_variance_follow_their_formulas() {
    let mut state: u64 = 0xda3e_39cb_94b9_5bdb;
    for round in 0..2000 {
        let x = sample(&mut state, 2 + round % 40);
        let m = plain_mean(&x);
        assert!(same(mean(&bits(&x)), m));
        assert_eq!(mean_rs(&bits(&x)), m.to_bits());
        let squares = plain_squares(&x, m);
        assert!(same(variance(&bits(&x)), squares / ((x.len() - 1) as f64)));
        assert_eq!(variance_rs(&bits(&x)), (squares / x.len() as f64).to_bits());
    }
    assert!(f64::from_bits(mean_rs(&bits(&[]))).is_nan());
}

#[test]
fn weighted_mean_and_covariance_follow_their_formulas() {
    let mut state: u64 = 0x9fb2_1c65_1e98_df25;
    for round in 0..2000 {
        let n = 2 + round % 30;
        let x = sample(&mut state, n);
        let y = sample(&mut state, n);
        let mut top = 0.0;
        let mut bottom = 0.0;
        for i in 0..n {
            top = top + y[i] * x[i];
            bottom = bottom + y[i];
        }
        if bottom == 0.0 {
            assert_eq!(weighted_mean(&bits(&x), &bits(&y)), Err(StatsError::InvalidInputValue));
        } else {
            assert!(same(weighted_mean(&bits(&x), &bits(&y)), top / bottom));
        }
        let mx = plain_mean(&x);
        let my = plain_mean(&y);
        let mut cross = 0.0;
        for i in 0..n {
            cross = cross + (x[i] - mx) * (y[i] - my);
        }
        assert!(same(covariance(&bits(&x), &bits(&y)), cross / (n as f64 - 1.0)));
    }
    assert_eq!(covariance(&bits(&[1.0]), &bits(&[2.0])), Err(StatsError::InvalidInputValue));
    assert_eq!(covariance(&bits(&[1.0]), &bits(&[2.0, 3.0])), Err(StatsError::InconsistentLength));
    assert_eq!(
        number(covariance(&bits(&[1.0, 2.0, 3.0]), &bits(&[2.0, 4.0, 6.0]))),
        Ok(2.0)
    );
}

#[test]
fn correlation_follows_its_formula() {
    let mut state: u64 = 0x2c1b_3c6d_e7f0_a5b1;
    for round in 0..2000 {
        let n = 1 + round % 30;
        let x = sample(&mut state, n);
        let y = sample(&mut state, n);
        let nf = n as f64;
        let (mut sx, mut sy, mut sxy, mut sxx, mut syy) = (0.0, 0.0, 0.0, 0.0, 0.0);
        for i in 0..n {
            sx = sx + x[i];
            sy = sy + y[i];
            sxy = sxy + x[i] * y[i];
            sxx = sxx + x[i] * x[i];
            syy = syy + y[i] * y[i];
        }
        let numerator = nf * sxy - sx * sy;
        let denominator = ((nf * sxx - sx * sx) * (nf * syy - sy * sy)).sqrt();
        if denominator == 0.0 {
            assert_eq!(correlation(&bits(&x), &bits(&y)), Err(StatsError::ZeroVariance));
        } else {
            assert!(same(correlation(&bits(&x), &bits(&y)), numerator / denominator));
        }
    }
    assert_eq!(
        number(correlation(&bits(&[1.0, 2.0, 3.0, 4.0]), &bits(&[1.0, 2.0, 3.0, 4.0]))),
        Ok(1.0)
    );
    assert_eq!(
        number(correlation(&bits(&[1.0, 2.0, 3.0, 4.0]), &bits(&[8.0, 6.0, 4.0, 2.0]))),
        Ok(-1.0)
    );
    assert_eq!(
        correlation(&bits(&[2.0, 2.0, 2.0]), &bits(&[1.0, 5.0, 9.0])),
        Err(StatsError::ZeroVariance)
    );
    assert_eq!(
        correlation(&bits(&[1.0, 5.0, 9.0]), &bits(&[4.0, 4.0, 4.0])),
        Err(StatsError::ZeroVariance)
    );
    assert_eq!(correlation(&bits(&[3.0]), &bits(&[4.0])), Err(StatsError::ZeroVariance));
    assert_eq!(
        correlation(&bits(&[1.0, 2.0]), &bits(&[1.0])),
        Err(StatsError::InconsistentLength)
    );
}

#[test]
fn median_and_percentiles_follow_their_formulas() {
    let mut state: u64 = 0x6a09_e667_f3bc_c908;
    for round in 0..2000 {
        let x = sample(&mut state, 1 + round % 40);
        assert!(same(median(&bits(&x)), plain_median(&x)));
        assert_eq!(median_rs(&bits(&x)), plain_median(&x).to_bits());
        let p = (next(&mut state) % 100001) as f64 / 1000.0;
        assert!(same(percentile(&bits(&x), p.to_bits()), plain_percentile(&x, p)), "{}", p);
        assert_eq!(percentile_rs(&bits(&x), p.to_bits()), plain_percentile(&x, p).to_bits());
        assert!(same(percentile(&bits(&x), 50.0f64.to_bits()), plain_percentile(&x, 50.0)));
    }
    let data = bits(&[15.0, 20.0, 35.0, 40.0, 50.0]);
    assert_eq!(number(percentile(&data, 40.0f64.to_bits())), Ok(29.0));
    assert_eq!(number(percentile(&data, 0.0f64.to_bits())), Ok(15.0));
    assert_eq!(number(percentile(&data, 100.0f64.to_bits())), Ok(50.0));
    assert_eq!(number(percentile(&data, 25.0f64.to_bits())), Ok(20.0));
    assert_eq!(percentile(&data, 100.5f64.to_bits()), Err(StatsError::InvalidInputValue));
    assert_eq!(percentile(&data, (-1.0f64).to_bits()), Err(StatsError::InvalidInputValue));
    assert_eq!(percentile(&data, f64::NAN.to_bits()), Err(StatsError::InvalidInputValue));
    assert_eq!(percentile(&bits(&[]), 10.0f64.to_bits()), Err(StatsError::EmptyDataSet));
}

#[test]
fn median_is_the_fiftieth_percentile() {
    let mut state: u64 = 0xbb67_ae85_84ca_a73b;
    for round in 0..1000 {
        let x: Vec<f64> = (0..1 + round % 25).map(|_| (next(&mut state) % 1000) as f64).collect();
        assert_eq!(median(&bits(&x)), percentile(&bits(&x), 50.0f64.to_bits()));
    }
}

#[test]
fn the_ends_are_the_extreme_percentiles() {
    let mut state: u64 = 0x3c6e_f372_fe94_f82b;
    for round in 0..1000 {
        let x = sample(&mut state, 1 + round % 25);
        let (low, high) = extremes(&bits(&x)).unwrap();
        assert_eq!(percentile(&bits(&x), 0.0f64.to_bits()), Ok(low));
        assert_eq!(percentile(&bits(&x), 100.0f64.to_bits()), Ok(high));
        let t = sorted_copy(&x);
        assert_eq!(low, t[0].to_bits());
        assert_eq!(high, t[t.len() - 1].to_bits());
        assert!(same(range(&bits(&x)), (t[t.len() - 1] - t[0]).abs()));
    }
    assert_eq!(extremes(&bits(&[])), None);
    assert_eq!(number(range(&bits(&[4.0, -2.0, 9.0]))), Ok(11.0));
    assert_eq!(number(range(&bits(&[4.0]))), Ok(0.0));
    assert_eq!(range(&bits(&[])), Err(StatsError::EmptyDataSet));
    assert_eq!(range(&bits(&[1.0, f64::NAN])), Err(StatsError::InvalidInputValue));
}

#[test]
fn iqr_and_mad_follow_their_formulas() {
    let mut state: u64 = 0xa54f_f53a_5f1d_36f1;
    for round in 0..2000 {
        let x = sample(&mut state, 2 + round % 40);
        assert!(same(iqr(&bits(&x)), plain_percentile(&x, 75.0) - plain_percentile(&x, 25.0)));
        let m = plain_median(&x);
        let deviations: Vec<f64> = x.iter().map(|v| (*v - m).abs()).collect();
        assert!(same(median_absolute_deviation(&bits(&x)), plain_median(&deviations)));
    }
    assert_eq!(number(iqr(&bits(&[1.0, 2.0, 3.0, 4.0, 5.0]))), Ok(2.0));
    assert_eq!(number(iqr(&bits(&[1.0, 2.0, 3.0, 4.0]))), Ok(1.5));
    assert_eq!(iqr(&bits(&[1.0])), Err(StatsError::InvalidInputValue));
    assert_eq!(iqr(&bits(&[])), Err(StatsError::EmptyDataSet));
    assert_eq!(number(median_absolute_deviation(&bits(&[1.0, 2.0, 3.0, 4.0, 100.0]))), Ok(1.0));
    assert_eq!(median_absolute_deviation(&bits(&[])), Err(StatsError::EmptyDataSet));
}

#[test]
fn trimmed_statistics_follow_their_formulas() {
    let mut state: u64 = 0x510e_527f_ade6_82d1;
    for round in 0..2000 {
        let n = 1 + round % 40;
        let x = sample(&mut state, n);
        let t = (next(&mut state) % 501) as f64 / 1000.0;
        let k = ((n as f64) * t) as usize;
        let sorted = sorted_copy(&x);
        let kept = &sorted[k..n - k];
        let m = plain_mean(kept);
        if kept.is_empty() {
            assert_eq!(trimmed_mean(&bits(&x), t.to_bits()), Err(StatsError::InvalidInputValue));
        } else {
            assert!(same(trimmed_mean(&bits(&x), t.to_bits()), m), "{} {}", n, t);
        }
        if kept.len() < 2 {
            assert_eq!(trimmed_variance(&bits(&x), t.to_bits()), Err(StatsError::EmptyDataSet));
        } else {
            let expected = plain_squares(kept, m) / ((kept.len() - 1) as f64);
            assert!(same(trimmed_variance(&bits(&x), t.to_bits()), expected));
        }
    }
    let data = bits(&[9.0, 1.0, 2.0, 3.0, 4.0, 100.0]);
    assert_eq!(number(trimmed_mean(&data, 0.2f64.to_bits())), Ok(4.5));
    assert_eq!(number(trimmed_variance(&data, 0.2f64.to_bits())), Ok(29.0 / 3.0));
    assert_eq!(trimmed_variance(&data, 0.7f64.to_bits()), Err(StatsError::InvalidInputValue));
    assert_eq!(trimmed_variance(&bits(&[]), 0.2f64.to_bits()), Err(StatsError::EmptyDataSet));
    assert_eq!(
        trimmed_mean(&bits(&[1.0, 2.0]), 0.5f64.to_bits()),
        Err(StatsError::InvalidInputValue)
    );
    assert_eq!(
        trimmed_mean(&bits(&[1.0, 2.0, 3.0, 4.0]), 0.5f64.to_bits()),
        Err(StatsError::InvalidInputValue)
    );
    assert_eq!(number(trimmed_mean(&bits(&[1.0, 2.0, 3.0, 4.0]), 0.25f64.to_bits())), Ok(2.5));
    assert_eq!(
        trimmed_variance(&bits(&[1.0, 2.0, 3.0, 4.0]), 0.5f64.to_bits()),
        Err(StatsError::EmptyDataSet)
    );
}

#[test]
fn zero_trim_is_the_mean_of_the_sorted_sample() {
    let mut state: u64 = 0x1f83_d9ab_fb41_bd6b;
    for round in 0..1000 {
        let x: Vec<f64> = (0..1 + round % 25).map(|_| (next(&mut state) % 1000) as f64).collect();
        assert_eq!(trimmed_mean(&bits(&x), 0.0f64.to_bits()), mean(&bits(&x)));
        assert_eq!(
            trimmed_mean(&bits(&x), 0.0f64.to_bits()),
            mean(&bits(&sorted_copy(&x)))
        );
    }
}

fn plain_shape(x: &[f64]) -> (f64, f64, f64) {
    let n = x.len() as f64;
    let m = plain_mean(x);
    let var = plain_squares(x, m) / ((x.len() - 1) as f64);
    let std = var.sqrt();
    let mut cubes = 0.0;
    let mut fourths = 0.0;
    for v in x {
        let z = (*v - m) / std;
        cubes = cubes + (z * z) * z;
        fourths = fourths + (z * z) * (z * z);
    }
    let skew = (n * cubes) / ((n - 1.0) * (n - 2.0));
    let factor = (n * (n + 1.0)) / ((n - 1.0) * (n - 2.0) * (n - 3.0));
    let bias = 3.0 * ((n - 1.0) * (n - 1.0)) / ((n - 2.0) * (n - 3.0));
    (std, skew, factor * fourths - bias)
}

#[test]
fn skewness_and_kurtosis_follow_their_formulas() {
    let mut state: u64 = 0x5be0_cd19_137e_2179;
    for round in 0..2000 {
        let x = sample(&mut state, 4 + round % 40);
        let (std, skew, kurt) = plain_shape(&x);
        if std == 0.0 {
            assert_eq!(skewness(&bits(&x)), Err(StatsError::ZeroVariance));
            assert_eq!(kurtosis(&bits(&x)), Err(StatsError::ZeroVariance));
        } else {
            assert!(same(skewness(&bits(&x)), skew));
            assert!(same(kurtosis(&bits(&x)), kurt));
        }
    }
    assert_eq!(number(skewness(&bits(&[1.0, 2.0, 3.0, 4.0, 5.0]))), Ok(0.0));
    assert_eq!(skewness(&bits(&[1.0, 2.0])), Err(StatsError::InvalidInputValue));
    assert_eq!(skewness(&bits(&[1.0])), Err(StatsError::InvalidInputValue));
    assert_eq!(skewness(&bits(&[])), Err(StatsError::EmptyDataSet));
    assert_eq!(skewness(&bits(&[2.0, 2.0, 2.0])), Err(StatsError::ZeroVariance));
    assert_eq!(kurtosis(&bits(&[1.0, 2.0, 3.0])), Err(StatsError::InvalidInputValue));
    assert_eq!(kurtosis(&bits(&[2.0, 2.0, 2.0, 2.0])), Err(StatsError::ZeroVariance));
    assert_eq!(kurtosis(&bits(&[1.0, f64::INFINITY, 2.0, 3.0])), Err(StatsError::InvalidInputValue));
    let (_, _, kurt) = plain_shape(&[1.0, 2.0, 3.0, 4.0, 10.0]);
    assert_eq!(number(kurtosis(&bits(&[1.0, 2.0, 3.0, 4.0, 10.0]))), Ok(kurt));
    let flat = number(kurtosis(&bits(&[1.0, 2.0, 3.0, 4.0, 5.0]))).unwrap();
    assert!((flat - (-1.2)).abs() < 1e-9, "{}", flat);
    assert_eq!(number(skewness(&bits(&[1.0, 2.0, 3.0]))), Ok(0.0));
    let skew = number(skewness(&bits(&[1.0, 2.0, 3.0, 4.0, 10.0]))).unwrap();
    assert!((skew - 1.697056274847714).abs() < 1e-9, "{}", skew);
    let score = 2.0 / (16.0f64 / 3.0).sqrt();
    let fourths = ((score * score) * (score * score)) * 4.0;
    assert_eq!(
        number(kurtosis(&bits(&[0.0, 4.0, 0.0, 4.0]))),
        Ok((4.0 * 5.0) / (3.0 * 2.0 * 1.0) * fourths - 3.0 * 9.0 / 2.0)
    );
}

#[test]
fn summary_holds_every_statistic() {
    let x = bits(&[2.0, 4.0, 4.0, 4.0, 5.0, 5.0, 7.0, 9.0]);
    let s = summary_statistics(&x).unwrap();
    assert_eq!(Ok(s.mean), mean(&x));
    assert_eq!(f64::from_bits(s.mean), 5.0);
    assert_eq!(Ok(s.median), median(&x));
    assert_eq!(f64::from_bits(s.median), 4.5);
    assert_eq!(Ok(s.range), range(&x));
    assert_eq!(f64::from_bits(s.range), 7.0);
    assert_eq!(Ok(s.variance), variance(&x));
    assert_eq!(f64::from_bits(s.variance), 32.0 / 7.0);
    assert_eq!(Ok(s.interquartile_range), iqr(&x));
    assert_eq!(Ok(s.median_absolute_deviation), median_absolute_deviation(&x));
    assert_eq!(Ok(s.skewness), skewness(&x));
    assert_eq!(Ok(s.kurtosis), kurtosis(&x));
    assert_eq!(summary_statistics(&bits(&[])), Err(StatsError::EmptyDataSet));
    assert_eq!(summary_statistics(&bits(&[1.0, f64::NAN])), Err(StatsError::InvalidInputValue));
    assert_eq!(summary_statistics(&bits(&[1.0])), Err(StatsError::EmptyDataSet));
    assert_eq!(summary_statistics(&bits(&[1.0, 2.0])), Err(StatsError::InvalidInputValue));
    assert_eq!(summary_statistics(&bits(&[1.0, 2.0, 3.0])), Err(StatsError::InvalidInputValue));
    assert_eq!(summary_statistics(&bits(&[3.0, 3.0, 3.0, 3.0])), Err(StatsError::ZeroVariance));
}

#[test]
fn every_statistic_refuses_bad_samples() {
    let empty = bits(&[]);
    let nan = bits(&[1.0, f64::NAN, 3.0, 4.0]);
    let infinite = bits(&[1.0, 2.0, f64::NEG_INFINITY, 4.0]);
    let good = bits(&[1.0, 2.0, 3.0, 4.0]);
    let half = 0.25f64.to_bits();
    for (data, error) in [
        (&empty, StatsError::EmptyDataSet),
        (&nan, StatsError::InvalidInputValue),
        (&infinite, StatsError::InvalidInputValue),
    ] {
        assert_eq!(mean(data), Err(error));
        assert_eq!(median(data), Err(error));
        assert_eq!(variance(data), Err(error));
        assert_eq!(trimmed_mean(data, half), Err(error));
        assert_eq!(trimmed_variance(data, half), Err(error));
        assert_eq!(median_absolute_deviation(data), Err(error));
        assert_eq!(iqr(data), Err(error));
        assert_eq!(range(data), Err(error));
        assert_eq!(skewness(data), Err(error));
        assert_eq!(kurtosis(data), Err(error));
        assert_eq!(percentile(data, half), Err(error));
        assert_eq!(summary_statistics(data), Err(error));
        assert_eq!(weighted_mean(data, &good), Err(error));
        assert_eq!(weighted_mean(&good, data), Err(error));
        assert_eq!(covariance(data, &good), Err(error));
        assert_eq!(correlation(&good, data), Err(error));
    }
}

#[test]
fn error_texts() {
    assert_eq!(
        StatsError::EmptyDataSet.to_string(),
        "Input data array is empty, cannot perform operation."
    );
    assert_eq!(
        StatsError::InvalidInputValue.to_string(),
        "Input contains invalid values (e.g., NaN or Infinity)."
    );
    assert_eq!(
        StatsError::InconsistentLength.to_string(),
        "Input data and weight arrays length do not match"
    );
    assert_eq!(
        StatsError::MinMaxError.to_string(),
        "Cannot compute min or max: the dataset is empty or contains invalid values."
    );
    assert_eq!(
        StatsError::ZeroVariance.to_string(),
        "Cannot compute: one or both variables have zero variance."
    );
    assert_eq!(StatsError::UnderlyingError.to_string(), "Error in Underlying Rust Packages");
    assert_eq!(StatsError::Conversion.to_string(), "Cannot convert input array to numeric type.");
}

#[test]
fn large_samples_are_handled() {
    let mut state: u64 = 0x4528_21e6_38d0_1377;
    let x = sample(&mut state, 200000);
    let y = sample(&mut state, 200000);
    assert!(same(mean(&bits(&x)), plain_mean(&x)));
    assert!(same(median(&bits(&x)), plain_median(&x)));
    assert!(same(variance(&bits(&x)), plain_squares(&x, plain_mean(&x)) / 199999.0));
    assert_eq!(sort(&bits(&y)), bits(&sorted_copy(&y)));
}

#[test]
fn covariance_of_a_sample_with_itself_is_its_variance() {
    let mut state: u64 = 0x9216_d5d9_8979_fb1b;
    for round in 0..500 {
        let x = sample(&mut state, 2 + round % 30);
        assert_eq!(covariance(&bits(&x), &bits(&x)), variance(&bits(&x)));
    }
}
