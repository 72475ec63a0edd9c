use array_questions::rank_counter::RankCounter;
use array_questions::sorting::{rank_of, sorted_copy};

#[test]
fn new_counter_counts_nothing() {
    let counter = RankCounter::new(5);
    for bound in 0..=5 {
        assert_eq!(counter.count_below(bound), 0);
    }
    let empty = RankCounter::new(0);
    assert_eq!(empty.count_below(0), 0);
}

#[test]
fn counter_counts_ranks_below_a_bound() {
    let mut counter = RankCounter::new(8);
    counter.add(3);
    counter.add(0);
    counter.add(7);
    counter.add(3);
    assert_eq!(counter.count_below(0), 0);
    assert_eq!(counter.count_below(1), 1);
    assert_eq!(counter.count_below(3), 1);
    assert_eq!(counter.count_below(4), 3);
    assert_eq!(counter.count_below(7), 3);
    assert_eq!(counter.count_below(8), 4);
}

#[test]
fn counter_agrees_with_a_plain_count() {
    for limit in 1..40usize {
        let mut counter = RankCounter::new(limit);
        let mut added: Vec<usize> = Vec::new();
        let mut state = limit as u64;
        for _ in 0..60 {
            state = state.wrapping_mul(6364136223846793005).wrapping_add(1442695040888963407);
            let rank = ((state >> 33) % limit as u64) as usize;
            counter.add(rank);
            added.push(rank);
            for bound in 0..=limit {
                let expected = added.iter().filter(|r| **r < bound).count();
                assert_eq!(counter.count_below(bound), expected);
            }
        }
    }
}

#[test]
fn rank_is_the_number_of_smaller_entries() {
    let sorted = vec![-3, 1, 1, 4, 9, 9, 9];
    assert_eq!(rank_of(&sorted, -4), 0);
    assert_eq!(rank_of(&sorted, -3), 0);
    assert_eq!(rank_of(&sorted, 1), 1);
    assert_eq!(rank_of(&sorted, 2), 3);
    assert_eq!(rank_of(&sorted, 9), 4);
    assert_eq!(rank_of(&sorted, 10), 7);
    assert_eq!(rank_of(&Vec::new(), 0), 0);
}

#[test]
fn sorted_copy_holds_the_same_entries_in_order() {
    assert_eq!(sorted_copy(&Vec::new()), Vec::<i32>::new());
    assert_eq!(sorted_copy(&vec![7]), vec![7]);
    assert_eq!(sorted_copy(&vec![3, 7, 5, 6, 9]), vec![3, 5, 6, 7, 9]);
    assert_eq!(sorted_copy(&vec![2, -1, 2, i32::MIN, i32::MAX, -1]), vec![
        i32::MIN,
        -1,
        -1,
        2,
        2,
        i32::MAX
    ]);
    let mut state = 17u64;
    for len in 0..60usize {
        let mut v: Vec<i32> = Vec::new();
        for _ in 0..len {
            state = state.wrapping_mul(6364136223846793005).wrapping_add(1442695040888963407);
            v.push(((state >> 33) % 21) as i32 - 10);
        }
        let mut expected = v.clone();
        expected.sort();
        assert_eq!(sorted_copy(&v), expected);
    }
}
