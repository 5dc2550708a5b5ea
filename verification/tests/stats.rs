use vector_stats::stats::{mean, median, mode, StatsError};

#[test]
fn seventeen_element_scenario() {
    let v: Vec<u64> = vec![2, 2, 2, 3, 4, 5, 8, 22, 23, 24, 32, 47, 54, 65, 74, 77, 85];
    assert_eq!(v.iter().sum::<u64>(), 529);
    assert_eq!(v.len(), 17);
    // truncating mean: 529 / 17 = 31
    assert_eq!(mean(&v), Ok(31));
    // odd length: the element at index 8 of the sorted sequence
    assert_eq!(median(&v), Ok(23));
    // 2 occurs three times, strictly more often than any other value
    assert_eq!(mode(&v), Ok(2));
}

#[test]
fn seventeen_element_scenario_unsorted() {
    let v: Vec<u64> = vec![32, 2, 22, 2, 2, 4, 65, 24, 54, 23, 77, 74, 5, 8, 3, 47, 85];
    assert_eq!(mean(&v), Ok(31));
    assert_eq!(median(&v), Ok(23));
    assert_eq!(mode(&v), Ok(2));
}

#[test]
fn mode_by_frequency_counts() {
    // frequencies: 2 -> 2, 3 -> 3, 4 -> 2, 324 -> 1, 1 -> 1, 5 -> 1
    let v: Vec<u64> = vec![2, 3, 4, 324, 1, 5, 2, 4, 3, 3];
    assert_eq!(mode(&v), Ok(3));
}

#[test]
fn single_element() {
    let v: Vec<u64> = vec![7];
    assert_eq!(mean(&v), Ok(7));
    assert_eq!(median(&v), Ok(7));
    assert_eq!(mode(&v), Ok(7));
}

#[test]
fn empty_input_is_rejected() {
    let v: Vec<u64> = vec![];
    assert_eq!(mean(&v), Err(StatsError::EmptyInput));
    assert_eq!(median(&v), Err(StatsError::EmptyInput));
    assert_eq!(mode(&v), Err(StatsError::EmptyInput));
}

#[test]
fn mean_truncates_toward_zero() {
    let v: Vec<u64> = vec![1, 2];
    let m = mean(&v).unwrap();
    assert_eq!(m, 1);
    let sum: u64 = v.iter().sum();
    let count = v.len() as u64;
    assert!(m * count <= sum);
    assert!(sum < (m + 1) * count);
}

#[test]
fn median_of_even_length_is_lower_middle() {
    let v: Vec<u64> = vec![1, 2, 3, 4];
    assert_eq!(median(&v), Ok(2));
    let w: Vec<u64> = vec![4, 3, 2, 1];
    assert_eq!(median(&w), Ok(2));
}

#[test]
fn median_is_an_element_of_the_sample() {
    let v: Vec<u64> = vec![10, 90, 50];
    let m = median(&v).unwrap();
    assert_eq!(m, 50);
    assert!(v.contains(&m));
}

#[test]
fn mode_tie_breaks_to_smallest_value() {
    let v: Vec<u64> = vec![5, 1, 5, 1];
    assert_eq!(mode(&v), Ok(1));
    let w: Vec<u64> = vec![3, 3, 1, 1, 2];
    assert_eq!(mode(&w), Ok(1));
}

#[test]
fn order_does_not_change_mean_or_mode() {
    let unsorted: Vec<u64> = vec![9, 1, 4, 1, 7];
    let mut sorted = unsorted.clone();
    sorted.sort();
    assert_eq!(mean(&unsorted), mean(&sorted));
    assert_eq!(mode(&unsorted), mode(&sorted));
    assert_eq!(median(&unsorted), median(&sorted));
}

#[test]
fn large_values_within_precondition() {
    // the sum, 2^64 - 2, still fits in u64
    let v: Vec<u64> = vec![u64::MAX / 2, u64::MAX / 2 + 1];
    assert_eq!(mean(&v), Ok(u64::MAX / 2));
    assert_eq!(median(&v), Ok(u64::MAX / 2));
    assert_eq!(mode(&v), Ok(u64::MAX / 2));
}
