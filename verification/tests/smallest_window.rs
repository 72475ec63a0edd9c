use array_questions::smallest_window::{
    get_smallest_window_brute_force, get_smallest_window_traverse_both_ends,
    get_smallest_window_using_sorting,
};

fn test_functions(input: Vec<i32>, start_index: usize, end_index: usize) {
    let expected: (usize, usize) = (start_index, end_index);
    assert_eq!(get_smallest_window_traverse_both_ends(&input), expected);
    assert_eq!(get_smallest_window_brute_force(&input), expected);
    assert_eq!(get_smallest_window_using_sorting(&input), expected);
}

fn test_smallest_window(input: Vec<i32>, start_index: usize, end_index: usize) {
    let expected: (usize, usize) = (start_index, end_index);
    assert_eq!(get_smallest_window_traverse_both_ends(&input), expected);
    assert_eq!(get_smallest_window_using_sorting(&input), expected);
}

/// A small deterministic generator of entries between 0 and 9.
fn entries(seed: u64, len: usize) -> Vec<i32> {
    let mut state = seed;
    let mut out = Vec::with_capacity(len);
    for _ in 0..len {
        state = state.wrapping_mul(6364136223846793005).wrapping_add(1442695040888963407);
        out.push(((state >> 33) % 10) as i32);
    }
    out
}

#[test]
fn array_questions_shortest_window_to_be_sorted_test_empty_arr() {
    let arr: Vec<i32> = Vec::new();
    test_functions(arr, 0, 0);
}

#[test]
fn array_questions_shortest_window_to_be_sorted_test_size_one_arr() {
    let arr: Vec<i32> = vec![1];
    test_functions(arr, 0, 0);
}

#[test]
fn array_questions_shortest_window_to_be_sorted_test_size_all_zeroes() {
    let arr: Vec<i32> = vec![0, 0, 0];
    test_functions(arr, 0, 0);
}

#[test]
fn array_questions_shortest_window_to_be_sorted_test_actual() {
    let arr: Vec<i32> = vec![3, 7, 5, 6, 9];
    test_functions(arr, 1, 3);
}

#[test]
fn sorted_sequences_have_the_window_at_the_start() {
    test_functions(vec![1, 2, 3], 0, 0);
    test_functions(vec![-4, -4, 0, 7, 7, 9], 0, 0);
    test_functions(vec![1, 2], 0, 0);
}

#[test]
fn window_may_reach_both_ends() {
    test_functions(vec![2, 1], 0, 1);
    test_smallest_window(vec![9, 1, 2, 3, 0], 0, 4);
    test_smallest_window(vec![5, 4, 3, 2, 1], 0, 4);
}

#[test]
fn window_spans_all_out_of_place_entries() {
    test_smallest_window(vec![2, 1, 3, 5, 4], 0, 4);
    test_smallest_window(vec![1, 3, 2, 4, 6, 5, 7], 1, 5);
    test_smallest_window(vec![1, 3, 2, 2, 2], 1, 4);
    test_smallest_window(vec![1, 1, 0, 1, 1], 0, 2);
}

#[test]
fn exhaustive_search_keeps_the_first_tightest_descent() {
    assert_eq!(get_smallest_window_brute_force(&vec![2, 1, 3, 5, 4]), (0, 1));
    assert_eq!(get_smallest_window_brute_force(&vec![1, 3, 2, 4, 6, 5, 7]), (1, 2));
    assert_eq!(get_smallest_window_brute_force(&vec![5, 4, 3, 2, 1]), (3, 4));
    assert_eq!(get_smallest_window_brute_force(&vec![9, 1, 2, 3, 0]), (3, 4));
    assert_eq!(get_smallest_window_brute_force(&vec![4, 9, 1, 8, 7]), (3, 4));
    assert_eq!(get_smallest_window_brute_force(&vec![1, 3, 2, 2, 2]), (1, 4));
}

#[test]
fn sorting_the_window_sorts_the_sequence() {
    for seed in 0..200u64 {
        let arr = entries(seed, (seed % 15) as usize);
        let (left, right) = get_smallest_window_traverse_both_ends(&arr);
        let mut sorted = arr.clone();
        sorted.sort();
        if arr == sorted {
            assert_eq!((left, right), (0, 0));
        } else {
            assert!(left < right && right < arr.len());
            let mut patched = arr.clone();
            patched[left..=right].sort();
            assert_eq!(patched, sorted);
            assert_ne!(arr[left], sorted[left]);
            assert_ne!(arr[right], sorted[right]);
        }
    }
}

#[test]
fn two_passes_agree_with_sorted_copy() {
    for seed in 0..300u64 {
        let arr = entries(seed + 500, (seed % 15) as usize);
        assert_eq!(
            get_smallest_window_traverse_both_ends(&arr),
            get_smallest_window_using_sorting(&arr)
        );
    }
}

#[test]
fn tightest_descent_lies_in_the_smallest_window() {
    for seed in 0..300u64 {
        let arr = entries(seed + 900, (seed % 12) as usize);
        let small = get_smallest_window_traverse_both_ends(&arr);
        let tight = get_smallest_window_brute_force(&arr);
        assert!(small.0 <= tight.0 && tight.1 <= small.1);
        let starts = (0..arr.len())
            .filter(|i| (i + 1..arr.len()).any(|j| arr[j] < arr[*i]))
            .count();
        assert_eq!(tight == small, starts <= 1);
    }
}

#[test]
fn window_calls_repeat_their_results() {
    let arr = entries(5, 14);
    assert_eq!(
        get_smallest_window_traverse_both_ends(&arr),
        get_smallest_window_traverse_both_ends(&arr)
    );
    assert_eq!(get_smallest_window_brute_force(&arr), get_smallest_window_brute_force(&arr));
    assert_eq!(get_smallest_window_using_sorting(&arr), get_smallest_window_using_sorting(&arr));
}
