use corridor_oracle::median::{
    calculate_median, calculate_median_compacted, sort_stack_i128, sort_stack_pairs,
    value_at_stack, MedianError, MAX_VALIDATORS,
};
use soroban_sdk::{Env, IntoVal, TryFromVal, Val, Vec};

fn prices(env: &Env, items: &[i128]) -> Vec<i128> {
    let mut v = Vec::new(env);
    for item in items {
        v.push_back(*item);
    }
    v
}

fn buckets(env: &Env, items: &[(i128, u32)]) -> Vec<(i128, u32)> {
    let mut v = Vec::new(env);
    for item in items {
        v.push_back(*item);
    }
    v
}

#[test]
fn test_odd_number_median() {
    let env = Env::default();
    let p = prices(&env, &[748, 750, 752]);
    assert_eq!(calculate_median(p), Ok(750));
}

#[test]
fn test_even_number_median() {
    let env = Env::default();
    let p = prices(&env, &[740, 750, 760, 770]);
    assert_eq!(calculate_median(p), Ok(755));
}

#[test]
fn test_single_input_returns_itself() {
    let env = Env::default();
    let p = prices(&env, &[999]);
    assert_eq!(calculate_median(p), Ok(999));
}

#[test]
fn test_empty_input_returns_error() {
    let env = Env::default();
    let p = Vec::<i128>::new(&env);
    assert_eq!(calculate_median(p), Err(MedianError::EmptyInput));
}

#[test]
fn test_input_too_large_returns_error() {
    let env = Env::default();
    // 16 entries exceeds MAX_VALIDATORS (15).
    let p = prices(&env, &[1, 2, 3, 4, 5, 6, 7, 8, 9, 10, 11, 12, 13, 14, 15, 16]);
    assert_eq!(calculate_median(p), Err(MedianError::InputTooLarge));
}

#[test]
fn test_compacted_matches_expanded_with_duplicates() {
    // Five votes of 750 and one of 900: true median is 750.
    let env = Env::default();
    let pairs = buckets(&env, &[(750, 5), (900, 1)]);
    assert_eq!(calculate_median_compacted(pairs), Ok(750));
}

#[test]
fn test_compacted_even_total() {
    // Expanded multiset: [740,740,760,770] → median = (740+760)/2 = 750.
    let env = Env::default();
    let pairs = buckets(&env, &[(740, 2), (760, 1), (770, 1)]);
    assert_eq!(calculate_median_compacted(pairs), Ok(750));
}

#[test]
fn test_compacted_unsorted_input() {
    // [800,800,750,900,900,900] sorted → median = (800+900)/2 = 850.
    let env = Env::default();
    let pairs = buckets(&env, &[(800, 2), (750, 1), (900, 3)]);
    assert_eq!(calculate_median_compacted(pairs), Ok(850));
}

#[test]
fn test_compacted_single_bucket() {
    let env = Env::default();
    let pairs = buckets(&env, &[(999, 4)]);
    assert_eq!(calculate_median_compacted(pairs), Ok(999));
}

#[test]
fn test_compacted_empty_returns_error() {
    let env = Env::default();
    let pairs = Vec::<(i128, u32)>::new(&env);
    assert_eq!(calculate_median_compacted(pairs), Err(MedianError::EmptyInput));
}

#[test]
fn test_compacted_too_large_returns_error() {
    let env = Env::default();
    // Build a pairs Vec with MAX_VALIDATORS + 1 distinct entries.
    let mut pairs = Vec::<(i128, u32)>::new(&env);
    for i in 0..=(MAX_VALIDATORS as i128) {
        pairs.push_back((i * 100, 1_u32));
    }
    assert_eq!(calculate_median_compacted(pairs), Err(MedianError::InputTooLarge));
}

#[test]
fn median_ignores_submission_order() {
    let env = Env::default();
    let a = prices(&env, &[752, 748, 750, 749]);
    let b = prices(&env, &[748, 749, 750, 752]);
    assert_eq!(calculate_median(a), calculate_median(b));
    let c = prices(&env, &[752, 748, 750, 749]);
    assert_eq!(calculate_median(c), Ok(749));
}

#[test]
fn median_of_negative_even_pair_rounds_toward_zero() {
    let env = Env::default();
    let p = prices(&env, &[-3, -2]);
    // (-3 + -2) / 2 = -2.5, rounded toward zero.
    assert_eq!(calculate_median(p), Ok(-2));
}

#[test]
fn median_even_sum_overflow_is_reported() {
    let env = Env::default();
    let p = prices(&env, &[i128::MAX, i128::MAX]);
    assert_eq!(calculate_median(p), Err(MedianError::ArithmeticOverflow));
}

#[test]
fn median_accepts_exactly_max_validators() {
    let env = Env::default();
    let p = prices(&env, &[15, 14, 13, 12, 11, 10, 9, 8, 7, 6, 5, 4, 3, 2, 1]);
    assert_eq!(calculate_median(p), Ok(8));
}

#[test]
fn compacted_zero_counts_are_empty() {
    let env = Env::default();
    let pairs = buckets(&env, &[(700, 0), (800, 0)]);
    assert_eq!(calculate_median_compacted(pairs), Err(MedianError::EmptyInput));
}

#[test]
fn compacted_overflowing_middle_sum_is_reported() {
    let env = Env::default();
    let pairs = buckets(&env, &[(i128::MAX, 2)]);
    assert_eq!(
        calculate_median_compacted(pairs),
        Err(MedianError::ArithmeticOverflow)
    );
}

#[test]
fn compacted_agrees_with_expanded_median() {
    let env = Env::default();
    let pairs = buckets(&env, &[(900, 1), (750, 2), (820, 2)]);
    let expanded = prices(&env, &[900, 750, 750, 820, 820]);
    assert_eq!(calculate_median_compacted(pairs), calculate_median(expanded));
}

#[test]
fn sort_stack_i128_sorts_prefix_only() {
    let mut buf = [5_i128, -1, 3, 0, 9, 2];
    sort_stack_i128(&mut buf, 4);
    assert_eq!(buf, [-1, 0, 3, 5, 9, 2]);
}

#[test]
fn sort_stack_pairs_is_stable_by_price() {
    let mut buf = [(3_i128, 1_u32), (1, 7), (3, 2), (2, 5)];
    sort_stack_pairs(&mut buf, 4);
    assert_eq!(buf, [(1, 7), (2, 5), (3, 1), (3, 2)]);
}

#[test]
fn value_at_stack_walks_cumulative_counts() {
    let buf = [(10_i128, 2_u32), (20, 0), (30, 3)];
    assert_eq!(value_at_stack(&buf, 3, 0), 10);
    assert_eq!(value_at_stack(&buf, 3, 1), 10);
    assert_eq!(value_at_stack(&buf, 3, 2), 30);
    assert_eq!(value_at_stack(&buf, 3, 4), 30);
    // Past the end: the last bucket's price.
    assert_eq!(value_at_stack(&buf, 2, 5), 20);
    assert_eq!(value_at_stack(&buf, 0, 0), 0);
}

#[test]
fn median_of_entries_of_another_type_is_invalid() {
    let env = Env::default();
    let mut raw = Vec::<u32>::new(&env);
    raw.push_back(7);
    raw.push_back(9);
    let val: Val = raw.into_val(&env);
    let p = Vec::<i128>::try_from_val(&env, &val).unwrap();
    assert_eq!(calculate_median(p), Err(MedianError::InvalidEntry));
    let pairs = Vec::<(i128, u32)>::try_from_val(&env, &val).unwrap();
    assert_eq!(calculate_median_compacted(pairs), Err(MedianError::InvalidEntry));
}

#[test]
fn sort_stack_pairs_keeps_equal_prices_in_order() {
    let mut buf = [(5_i128, 1_u32), (2, 9), (5, 2), (2, 8), (5, 3)];
    sort_stack_pairs(&mut buf, 5);
    assert_eq!(buf, [(2, 9), (2, 8), (5, 1), (5, 2), (5, 3)]);
}

#[test]
fn compacted_entry_of_wrong_shape_is_invalid() {
    let env = Env::default();
    // A row of three prices where a (price, count) pair belongs.
    let mut row = Vec::<i128>::new(&env);
    row.push_back(750);
    row.push_back(2);
    row.push_back(9);
    let mut rows = Vec::<Vec<i128>>::new(&env);
    rows.push_back(row);
    let val: Val = rows.into_val(&env);
    let pairs = Vec::<(i128, u32)>::try_from_val(&env, &val).unwrap();
    assert_eq!(calculate_median_compacted(pairs), Err(MedianError::InvalidEntry));
}

#[test]
fn compacted_pair_with_count_of_wrong_type_is_invalid() {
    let env = Env::default();
    let mut row = Vec::<i128>::new(&env);
    row.push_back(750);
    row.push_back(2);
    let mut rows = Vec::<Vec<i128>>::new(&env);
    rows.push_back(row);
    let val: Val = rows.into_val(&env);
    let pairs = Vec::<(i128, u32)>::try_from_val(&env, &val).unwrap();
    assert_eq!(calculate_median_compacted(pairs), Err(MedianError::InvalidEntry));
}

#[test]
fn compacted_pair_rows_written_by_hand_decode() {
    let env = Env::default();
    let mut rows = Vec::<(i128, u32)>::new(&env);
    rows.push_back((740, 2));
    rows.push_back((760, 1));
    rows.push_back((770, 1));
    let val: Val = rows.into_val(&env);
    let pairs = Vec::<(i128, u32)>::try_from_val(&env, &val).unwrap();
    assert_eq!(calculate_median_compacted(pairs), Ok(750));
}
