use array_questions::max_subarray_sum::{
    get_max_subarray, get_max_subarray_brute_force, get_max_subarray_brute_force_wrap_around,
    get_max_subarray_wrap_around,
};

fn test_functions(input: Vec<i32>, expected_nonwraparound: i32, expected_wraparound: i32) {
    assert_eq!(get_max_subarray(&input), expected_nonwraparound);
    assert_eq!(get_max_subarray_brute_force(&input), expected_nonwraparound);
    assert_eq!(get_max_subarray_wrap_around(&input), expected_wraparound);
    assert_eq!(get_max_subarray_brute_force_wrap_around(&input), expected_wraparound);
}

/// A small deterministic generator of entries between -50 and 49.
fn entries(seed: u64, len: usize) -> Vec<i32> {
    let mut state = seed;
    let mut out = Vec::with_capacity(len);
    for _ in 0..len {
        state = state.wrapping_mul(6364136223846793005).wrapping_add(1442695040888963407);
        out.push(((state >> 33) % 100) as i32 - 50);
    }
    out
}

#[test]
fn max_subarray_sum_test_empty_arr() {
    let arr: Vec<i32> = Vec::new();
    test_functions(arr, 0, 0);
}

#[test]
fn max_subarray_sum_test_size_one_arr() {
    let arr: Vec<i32> = vec![1];
    test_functions(arr, 1, 1);
}

#[test]
fn max_subarray_sum_test_size_all_zeroes() {
    let arr: Vec<i32> = vec![0, 0, 0];
    test_functions(arr, 0, 0);
}

#[test]
fn test_all_negative() {
    let arr: Vec<i32> = vec![-5, -1, -9, -8];
    test_functions(arr, 0, 0);
}

#[test]
fn max_subarray_sum_test_actual() {
    let arr: Vec<i32> = vec![34, -50, 42, 14, -5, 86];
    test_functions(arr, 137, 171);
}

#[test]
fn test_actual_2() {
    let arr: Vec<i32> = vec![8, -1, 3, 4];
    test_functions(arr, 14, 15);
}

#[test]
fn single_negative_entry_gives_zero() {
    test_functions(vec![-5], 0, 0);
}

#[test]
fn best_range_may_be_a_single_entry() {
    test_functions(vec![5, -10, 3], 5, 8);
    test_functions(vec![-2, 7, -3], 7, 7);
}

#[test]
fn wrap_around_may_leave_out_several_entries() {
    test_functions(vec![5, -3, -4, 5], 5, 10);
    test_functions(vec![10, -1, -1, -1, 10], 17, 20);
}

#[test]
fn whole_sequence_is_a_circular_range() {
    test_functions(vec![1, 2, 3], 6, 6);
    test_functions(vec![3, -1, 3], 5, 6);
}

#[test]
fn extreme_entries_do_not_overflow() {
    test_functions(vec![i32::MIN, i32::MIN, i32::MAX], i32::MAX, i32::MAX);
    test_functions(vec![i32::MAX, i32::MIN, i32::MIN], i32::MAX, i32::MAX);
    test_functions(vec![i32::MIN, i32::MAX, i32::MIN], i32::MAX, i32::MAX);
    test_functions(vec![i32::MIN, i32::MIN], 0, 0);
}

#[test]
fn linear_scan_agrees_with_exhaustive_search() {
    for seed in 0..200u64 {
        let arr = entries(seed, (seed % 17) as usize);
        assert_eq!(get_max_subarray(&arr), get_max_subarray_brute_force(&arr));
        assert_eq!(
            get_max_subarray_wrap_around(&arr),
            get_max_subarray_brute_force_wrap_around(&arr)
        );
    }
}

#[test]
fn wrap_around_is_never_below_plain() {
    for seed in 0..100u64 {
        let arr = entries(seed + 1000, (seed % 13) as usize);
        assert!(get_max_subarray_wrap_around(&arr) >= get_max_subarray(&arr));
        assert!(get_max_subarray(&arr) >= 0);
    }
}

#[test]
fn max_subarray_calls_repeat_their_results() {
    let arr = entries(7, 12);
    assert_eq!(get_max_subarray(&arr), get_max_subarray(&arr));
    assert_eq!(get_max_subarray_brute_force(&arr), get_max_subarray_brute_force(&arr));
    assert_eq!(get_max_subarray_wrap_around(&arr), get_max_subarray_wrap_around(&arr));
    assert_eq!(
        get_max_subarray_brute_force_wrap_around(&arr),
        get_max_subarray_brute_force_wrap_around(&arr)
    );
}
