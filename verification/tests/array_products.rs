use array_questions::array_products::{
    get_product_of_all_other_elements, get_product_of_all_other_elements_brute_force,
    get_product_of_all_other_elements_no_division, make_accumulation_arr,
};

fn test_functions(input: Vec<i32>, expected: Vec<i32>) {
    assert_eq!(get_product_of_all_other_elements(&input), expected);
    assert_eq!(get_product_of_all_other_elements_brute_force(&input), expected);
    assert_eq!(get_product_of_all_other_elements_no_division(&input), expected);
}

fn test_without_division(input: Vec<i32>, expected: Vec<i32>) {
    assert_eq!(get_product_of_all_other_elements_brute_force(&input), expected);
    assert_eq!(get_product_of_all_other_elements_no_division(&input), expected);
}

/// A small deterministic generator of entries between -3 and 3.
fn entries(seed: u64, len: usize) -> Vec<i32> {
    let mut state = seed;
    let mut out = Vec::with_capacity(len);
    for _ in 0..len {
        state = state.wrapping_mul(6364136223846793005).wrapping_add(1442695040888963407);
        out.push(((state >> 33) % 7) as i32 - 3);
    }
    out
}

#[test]
fn array_questions_product_array_test_empty_arr() {
    let arr: Vec<i32> = Vec::new();
    let expected: Vec<i32> = Vec::new();
    test_functions(arr, expected);
}

#[test]
fn array_questions_product_array_test_size_one_arr() {
    let arr: Vec<i32> = vec![5];
    let expected: Vec<i32> = vec![1];
    test_functions(arr, expected);
}

#[test]
fn test_all_zeroes() {
    let arr: Vec<i32> = vec![0, 0, 0];
    let expected: Vec<i32> = vec![0, 0, 0];
    test_functions(arr, expected);
}

#[test]
fn test_one_to_five() {
    let arr: Vec<i32> = vec![1, 2, 3, 4, 5];
    let expected: Vec<i32> = vec![120, 60, 40, 30, 24];
    test_functions(arr, expected);
}

#[test]
fn test_three_to_one() {
    let arr: Vec<i32> = vec![3, 2, 1];
    let expected: Vec<i32> = vec![2, 3, 6];
    test_functions(arr, expected);
}

#[test]
fn array_questions_test_empty_arr() {
    let arr: Vec<i32> = Vec::new();
    let expected: Vec<i32> = Vec::new();
    assert_eq!(get_product_of_all_other_elements(&arr), expected);
    assert_eq!(get_product_of_all_other_elements_brute_force(&arr), expected);
    assert_eq!(get_product_of_all_other_elements_no_division(&arr), expected);
}

#[test]
fn array_questions_test_size_one_arr() {
    let arr: Vec<i32> = vec![5];
    let expected: Vec<i32> = vec![1];
    assert_eq!(get_product_of_all_other_elements(&arr), expected);
    assert_eq!(get_product_of_all_other_elements_brute_force(&arr), expected);
    assert_eq!(get_product_of_all_other_elements_no_division(&arr), expected);
}

#[test]
fn array_questions_test_all_zeroes() {
    let arr: Vec<i32> = vec![0, 0, 0];
    let expected: Vec<i32> = vec![0, 0, 0];
    assert_eq!(get_product_of_all_other_elements(&arr), expected);
    assert_eq!(get_product_of_all_other_elements_brute_force(&arr), expected);
    assert_eq!(get_product_of_all_other_elements_no_division(&arr), expected);
}

#[test]
fn array_questions_test_one_to_five() {
    let arr: Vec<i32> = vec![1, 2, 3, 4, 5];
    let expected: Vec<i32> = vec![120, 60, 40, 30, 24];
    assert_eq!(get_product_of_all_other_elements(&arr), expected);
    assert_eq!(get_product_of_all_other_elements_brute_force(&arr), expected);
    assert_eq!(get_product_of_all_other_elements_no_division(&arr), expected);
}

#[test]
fn array_questions_test_three_to_one() {
    let arr: Vec<i32> = vec![3, 2, 1];
    let expected: Vec<i32> = vec![2, 3, 6];
    assert_eq!(get_product_of_all_other_elements(&arr), expected);
    assert_eq!(get_product_of_all_other_elements_brute_force(&arr), expected);
    assert_eq!(get_product_of_all_other_elements_no_division(&arr), expected);
}

#[test]
fn negative_entries_keep_their_signs() {
    test_functions(vec![-1, 2, -3], vec![-6, 3, -2]);
    test_functions(vec![-2, 3, -4], vec![-12, 8, -6]);
    test_functions(vec![-7, 3], vec![3, -7]);
}

#[test]
fn two_zeroes_make_every_product_zero() {
    test_functions(vec![0, 4, 0, 5], vec![0, 0, 0, 0]);
}

#[test]
fn lone_zero_keeps_the_product_of_the_others() {
    test_without_division(vec![0, 2, 3], vec![6, 0, 0]);
    test_without_division(vec![4, 0, -3], vec![0, -12, 0]);
    test_without_division(vec![0], vec![1]);
}

#[test]
fn division_gives_zero_at_a_lone_zero() {
    assert_eq!(get_product_of_all_other_elements(&vec![0, 2, 3]), vec![0, 0, 0]);
    assert_eq!(get_product_of_all_other_elements(&vec![4, 0, -3]), vec![0, 0, 0]);
    assert_eq!(get_product_of_all_other_elements(&vec![0]), vec![0]);
}

#[test]
fn products_up_to_the_largest_value() {
    test_functions(vec![i32::MAX, 1], vec![1, i32::MAX]);
    test_without_division(vec![65536, 32767], vec![32767, 65536]);
    test_without_division(vec![i32::MIN, 1, 1], vec![1, i32::MIN, i32::MIN]);
}

#[test]
fn running_products_agree_with_exhaustive_search() {
    for seed in 0..200u64 {
        let arr = entries(seed, (seed % 12) as usize);
        let expected = get_product_of_all_other_elements_brute_force(&arr);
        assert_eq!(get_product_of_all_other_elements_no_division(&arr), expected);
        let zeroes = arr.iter().filter(|x| **x == 0).count();
        if zeroes != 1 {
            assert_eq!(get_product_of_all_other_elements(&arr), expected);
        } else {
            assert_ne!(get_product_of_all_other_elements(&arr), expected);
        }
    }
}

#[test]
fn product_calls_repeat_their_results() {
    let arr = entries(3, 10);
    assert_eq!(
        get_product_of_all_other_elements(&arr),
        get_product_of_all_other_elements(&arr)
    );
    assert_eq!(
        get_product_of_all_other_elements_brute_force(&arr),
        get_product_of_all_other_elements_brute_force(&arr)
    );
    assert_eq!(
        get_product_of_all_other_elements_no_division(&arr),
        get_product_of_all_other_elements_no_division(&arr)
    );
}

#[test]
fn running_products_start_at_one_and_stop_before_the_last_entry() {
    assert_eq!(make_accumulation_arr(&Vec::new()), Vec::<i32>::new());
    assert_eq!(make_accumulation_arr(&vec![7]), vec![1]);
    assert_eq!(make_accumulation_arr(&vec![1, 2, 3, 4, 5]), vec![1, 1, 2, 6, 24]);
    assert_eq!(make_accumulation_arr(&vec![-2, 3, 0, 9]), vec![1, -2, -6, 0]);
    assert_eq!(make_accumulation_arr(&vec![65536, 32767, i32::MAX]), vec![1, 65536, 2147418112]);
}
