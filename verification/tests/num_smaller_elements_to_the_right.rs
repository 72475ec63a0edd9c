use array_questions::num_smaller_elements_to_the_right::{
    num_smaller_elements_to_the_right, num_smaller_elements_to_the_right_brute_force,
};

fn test_functions(input: Vec<i32>, expected: Vec<i32>) {
    assert_eq!(num_smaller_elements_to_the_right(&input), expected);
    assert_eq!(num_smaller_elements_to_the_right_brute_force(&input), expected);
}

fn test_exhaustive_search(input: Vec<i32>, expected: Vec<i32>) {
    assert_eq!(num_smaller_elements_to_the_right_brute_force(&input), expected);
}

/// A small deterministic generator of entries between -20 and 19.
fn entries(seed: u64, len: usize) -> Vec<i32> {
    let mut state = seed;
    let mut out = Vec::with_capacity(len);
    for _ in 0..len {
        state = state.wrapping_mul(6364136223846793005).wrapping_add(1442695040888963407);
        out.push(((state >> 33) % 40) as i32 - 20);
    }
    out
}

#[test]
fn num_smaller_elements_to_the_right_test_empty_arr() {
    let arr: Vec<i32> = Vec::new();
    let expected: Vec<i32> = vec![];
    test_functions(arr, expected);
}

#[test]
fn num_smaller_elements_to_the_right_test_size_one_arr() {
    let arr: Vec<i32> = vec![1];
    let expected: Vec<i32> = vec![0];
    test_functions(arr, expected);
}

#[test]
fn num_smaller_elements_to_the_right_test_size_all_zeroes() {
    let arr: Vec<i32> = vec![0, 0, 0];
    let expected: Vec<i32> = vec![0, 0, 0];
    test_functions(arr, expected);
}

#[test]
fn test_sorted_increasing() {
    let arr: Vec<i32> = vec![1, 2, 3, 4, 5];
    let expected: Vec<i32> = vec![0, 0, 0, 0, 0];
    test_functions(arr, expected);
}

#[test]
fn num_smaller_elements_to_the_right_test_actual() {
    let arr: Vec<i32> = vec![3, 4, 9, 6, 1];
    let expected: Vec<i32> = vec![1, 1, 2, 1, 0];
    test_functions(arr, expected);
}

#[test]
fn test_sorted_decreasing() {
    let arr: Vec<i32> = vec![10, 9, 8, 7];
    let expected: Vec<i32> = vec![3, 2, 1, 0];
    test_functions(arr, expected);
}

#[test]
fn test_empty_arr() {
    let arr: Vec<i32> = Vec::new();
    let expected: Vec<i32> = vec![];
    test_exhaustive_search(arr, expected);
}

#[test]
fn test_size_one_arr() {
    let arr: Vec<i32> = vec![1];
    let expected: Vec<i32> = vec![0];
    test_exhaustive_search(arr, expected);
}

#[test]
fn test_size_all_zeroes() {
    let arr: Vec<i32> = vec![0, 0, 0];
    let expected: Vec<i32> = vec![0, 0, 0];
    test_exhaustive_search(arr, expected);
}

#[test]
fn test_actual() {
    let arr: Vec<i32> = vec![3, 4, 9, 6, 1];
    let expected: Vec<i32> = vec![1, 1, 2, 1, 0];
    test_exhaustive_search(arr, expected);
}

#[test]
fn equal_entries_are_not_smaller() {
    test_functions(vec![2, 2, 1, 2], vec![1, 1, 0, 0]);
    test_functions(vec![5, 1, 5, 1, 5], vec![2, 0, 1, 0, 0]);
}

#[test]
fn negative_and_extreme_entries_are_counted() {
    test_functions(vec![0, -1, i32::MAX, i32::MIN, -1], vec![3, 1, 2, 0, 0]);
}

#[test]
fn rank_counter_scan_agrees_with_exhaustive_search() {
    for seed in 0..200u64 {
        let arr = entries(seed, (seed % 40) as usize);
        assert_eq!(
            num_smaller_elements_to_the_right(&arr),
            num_smaller_elements_to_the_right_brute_force(&arr)
        );
    }
}

#[test]
fn smaller_counts_of_a_long_descent() {
    let arr: Vec<i32> = (0..1000).rev().collect();
    let expected: Vec<i32> = (0..1000).rev().collect();
    test_functions(arr, expected);
}

#[test]
fn smaller_count_calls_repeat_their_results() {
    let arr = entries(11, 25);
    assert_eq!(num_smaller_elements_to_the_right(&arr), num_smaller_elements_to_the_right(&arr));
    assert_eq!(
        num_smaller_elements_to_the_right_brute_force(&arr),
        num_smaller_elements_to_the_right_brute_force(&arr)
    );
}
