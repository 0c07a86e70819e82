use corridor_oracle::error::ContractError;
use corridor_oracle::math::{
    calculate_spread_bps, compute_mean, compute_population_variance, compute_sample_variance,
    compute_sum, compute_sum_squared_deviations, multiply_and_scale_down,
};

// --- compute_sum ---

#[test]
fn test_sum_empty() {
    assert_eq!(compute_sum(&[]), Ok(0));
}

#[test]
fn test_sum_single() {
    assert_eq!(compute_sum(&[42]), Ok(42));
}

#[test]
fn test_sum_multiple() {
    assert_eq!(compute_sum(&[10, 20, 30]), Ok(60));
}

#[test]
fn test_sum_overflow() {
    assert_eq!(compute_sum(&[i128::MAX, 1]), Err(ContractError::Overflow));
}

// --- compute_mean ---

#[test]
fn test_mean_empty() {
    assert_eq!(compute_mean(&[]), Ok(0));
}

#[test]
fn test_mean_single() {
    assert_eq!(compute_mean(&[100]), Ok(100));
}

#[test]
fn test_mean_truncates_toward_zero() {
    assert_eq!(compute_mean(&[10, 20, 30, 41]), Ok(25));
}

#[test]
fn test_mean_exact() {
    assert_eq!(compute_mean(&[1_000, 2_000, 3_000]), Ok(2_000));
}

// --- compute_sum_squared_deviations ---

#[test]
fn test_sum_sq_all_at_mean() {
    let values = &[5, 5, 5];
    assert_eq!(compute_sum_squared_deviations(values, 5), Ok(0));
}

#[test]
fn test_sum_sq_known() {
    let values = &[1, 2, 3, 4, 5];
    let mean = compute_mean(values).unwrap();
    assert_eq!(mean, 3);
    let sum_sq = compute_sum_squared_deviations(values, mean).unwrap();
    // (1-3)² + (2-3)² + (3-3)² + (4-3)² + (5-3)² = 4 + 1 + 0 + 1 + 4 = 10
    assert_eq!(sum_sq, 10);
}

#[test]
fn test_sum_sq_overflow() {
    let values = &[i128::MAX, 0];
    assert_eq!(
        compute_sum_squared_deviations(values, 0),
        Err(ContractError::Overflow)
    );
}

// --- compute_population_variance ---

#[test]
fn test_pop_variance_empty() {
    assert_eq!(compute_population_variance(&[]), Ok(0));
}

#[test]
fn test_pop_variance_single() {
    assert_eq!(compute_population_variance(&[100]), Ok(0));
}

#[test]
fn test_pop_variance_identical() {
    assert_eq!(compute_population_variance(&[7, 7, 7, 7]), Ok(0));
}

#[test]
fn test_pop_variance_known() {
    let values = &[1, 2, 3, 4, 5];
    let var = compute_population_variance(values).unwrap();
    // population variance of [1,2,3,4,5] = 10 / 5 = 2
    assert_eq!(var, 2);
}

#[test]
fn test_pop_variance_two_elements() {
    let values = &[10, 20];
    let var = compute_population_variance(values).unwrap();
    // mean = 15, devs: -5, 5; sq devs: 25, 25; sum_sq = 50; var = 50/2 = 25
    assert_eq!(var, 25);
}

// --- compute_sample_variance ---

#[test]
fn test_sample_variance_empty() {
    assert_eq!(compute_sample_variance(&[]), Ok(0));
}

#[test]
fn test_sample_variance_single() {
    assert_eq!(compute_sample_variance(&[100]), Ok(0));
}

#[test]
fn test_sample_variance_identical() {
    assert_eq!(compute_sample_variance(&[7, 7, 7, 7]), Ok(0));
}

#[test]
fn test_sample_variance_known() {
    let values = &[1, 2, 3, 4, 5];
    let var = compute_sample_variance(values).unwrap();
    // sample variance of [1,2,3,4,5] = 10 / 4 = 2 (integer floor)
    assert_eq!(var, 2);
}

#[test]
fn test_sample_variance_two_elements() {
    let values = &[10, 20];
    let var = compute_sample_variance(values).unwrap();
    // mean = 15, devs: -5, 5; sq devs: 25, 25; sum_sq = 50; var = 50/1 = 50
    assert_eq!(var, 50);
}

// --- corridor-rate scenario ---

#[test]
fn test_corridor_rate_variance_preserves_precision() {
    // Five corridor rate submissions around 1.05 (scaled to 7 decimals)
    let rates = &[10_500_000, 10_510_000, 10_490_000, 10_505_000, 10_495_000];
    let var = compute_population_variance(rates).unwrap();
    // Every product (dev * dev) is done in full i128 before division,
    // so no fractional bits are lost before the final scale-down.
    assert!(var > 0);
}

// --- calculate_spread_bps ---

#[test]
fn test_spread_bps_no_deviation() {
    assert_eq!(calculate_spread_bps(1_000_000, 1_000_000), Ok(0));
}

#[test]
fn test_spread_bps_positive_deviation() {
    // 1% spread: |1_000_000 - 1_010_000| * 10_000 / 1_000_000 = 100
    assert_eq!(calculate_spread_bps(1_000_000, 1_010_000), Ok(100));
}

#[test]
fn test_spread_bps_negative_deviation() {
    // 2% spread: |1_000_000 - 980_000| * 10_000 / 1_000_000 = 200
    assert_eq!(calculate_spread_bps(1_000_000, 980_000), Ok(200));
}

#[test]
fn test_spread_bps_division_by_zero() {
    assert_eq!(
        calculate_spread_bps(0, 1_000_000),
        Err(ContractError::DivisionByZero)
    );
}

#[test]
fn test_spread_bps_overflow() {
    // Large delta and rate_b can cause the numerator to overflow
    let rate_a = 100;
    let rate_b = i128::MAX; // Creates a large delta
    assert_eq!(
        calculate_spread_bps(rate_a, rate_b),
        Err(ContractError::Overflow)
    );
}

// --- multiply_and_scale_down ---

#[test]
fn test_multiply_and_scale_down_normal() {
    // (2 * 10^7) * (3 * 10^7) / 10^7 = 6 * 10^7
    let scale = 10_000_000;
    assert_eq!(
        multiply_and_scale_down(2 * scale, 3 * scale, scale),
        Ok(6 * scale)
    );
}

#[test]
fn test_multiply_and_scale_down_with_truncation() {
    let scale = 10_000_000;
    assert_eq!(
        multiply_and_scale_down(15_000_000, 2_500_000, scale),
        Ok(3_750_000) // (1.5 * 0.25) * 10^7
    );
}

#[test]
fn test_multiply_and_scale_down_division_by_zero() {
    assert_eq!(
        multiply_and_scale_down(100, 200, 0),
        Err(ContractError::DivisionByZero)
    );
}

#[test]
fn test_multiply_and_scale_down_overflow() {
    assert_eq!(
        multiply_and_scale_down(i128::MAX, 2, 10_000_000),
        Err(ContractError::Overflow)
    );
}

#[test]
fn test_multiply_and_scale_down_zero_value() {
    assert_eq!(multiply_and_scale_down(0, 12345, 10_000_000), Ok(0));
}

#[test]
fn mean_of_negatives_rounds_toward_zero() {
    assert_eq!(compute_mean(&[-10, -21]), Ok(-15));
}

#[test]
fn sum_overflow_in_running_total_is_reported() {
    // The total fits, but a running total does not.
    assert_eq!(compute_sum(&[i128::MAX, 1, -1]), Err(ContractError::Overflow));
}

#[test]
fn sum_squared_deviations_running_overflow() {
    let big = 1_i128 << 63;
    // Each square is 2^126, the running total of two is 2^127.
    assert_eq!(
        compute_sum_squared_deviations(&[big, big], 0),
        Err(ContractError::Overflow)
    );
    assert_eq!(compute_sum_squared_deviations(&[big], 0), Ok(1_i128 << 126));
}

#[test]
fn variance_of_sum_overflow_is_reported() {
    assert_eq!(
        compute_population_variance(&[i128::MAX, i128::MAX]),
        Err(ContractError::Overflow)
    );
    assert_eq!(
        compute_sample_variance(&[i128::MAX, i128::MAX]),
        Err(ContractError::Overflow)
    );
}

#[test]
fn spread_with_negative_base_rate() {
    // |(-1_000_000) - (-1_010_000)| * 10_000 / -1_000_000 = -100
    assert_eq!(calculate_spread_bps(-1_000_000, -1_010_000), Ok(-100));
}

#[test]
fn scale_down_inverts_scale_up() {
    let scale = 10_000_000;
    assert_eq!(multiply_and_scale_down(-123_456, scale, scale), Ok(-123_456));
    assert_eq!(multiply_and_scale_down(-7, 3, 2), Ok(-10));
    assert_eq!(multiply_and_scale_down(7, 3, -2), Ok(-10));
}

#[test]
fn deviation_overflow_is_reported() {
    assert_eq!(
        compute_sum_squared_deviations(&[i128::MIN], 1),
        Err(ContractError::Overflow)
    );
    // The mean of these is about i128::MAX / 3; the deviation of i128::MIN
    // from it leaves the i128 range.
    assert_eq!(
        compute_population_variance(&[i128::MIN, i128::MAX, i128::MAX]),
        Err(ContractError::Overflow)
    );
    assert_eq!(
        compute_sample_variance(&[i128::MIN, i128::MAX, i128::MAX]),
        Err(ContractError::Overflow)
    );
}

#[test]
fn spread_with_unrepresentable_difference_overflows() {
    assert_eq!(calculate_spread_bps(-1, i128::MAX), Err(ContractError::Overflow));
    assert_eq!(calculate_spread_bps(-2, i128::MAX), Err(ContractError::Overflow));
    assert_eq!(calculate_spread_bps(i128::MAX, -1), Err(ContractError::Overflow));
}

#[test]
fn scale_down_of_min_by_minus_one_overflows() {
    assert_eq!(
        multiply_and_scale_down(i128::MIN, 1, -1),
        Err(ContractError::Overflow)
    );
    assert_eq!(multiply_and_scale_down(i128::MIN, 1, 1), Ok(i128::MIN));
}

#[test]
fn sample_variance_at_least_population_variance() {
    let values = &[3, 9, 4, 12, 7];
    let p = compute_population_variance(values).unwrap();
    let s = compute_sample_variance(values).unwrap();
    assert!(s >= p);
    assert_eq!((p, s), (10, 13));
}
