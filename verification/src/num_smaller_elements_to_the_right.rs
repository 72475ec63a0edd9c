//! For each position of a sequence, the number of smaller entries after it.

use crate::rank_counter::{entries_below, lemma_entries_below_push, RankCounter};
use crate::sorting::{
    is_rank, is_sorted_arrangement, lemma_entry_occurs, lemma_rank_order,
    lemma_same_entries_same_length, rank_of, sorted_copy,
};
use vstd::prelude::*;

verus! {

/// The number of entries of `s` that are less than `v`.
pub open spec fn count_below(s: Seq<i32>, v: int) -> nat
    decreases s.len(),
{
    if s.len() == 0 {
        0
    } else {
        count_below(s.drop_last(), v) + if s.last() < v {
            1nat
        } else {
            0nat
        }
    }
}

/// The number of entries after position `i` of `s` that are less than the
/// entry at `i`.
pub open spec fn smaller_after(s: Seq<i32>, i: int) -> nat {
    count_below(s.skip(i + 1), s[i] as int)
}

/// `r` holds, at each position of `s`, the number of smaller entries after
/// that position.
pub open spec fn is_smaller_counts(s: Seq<i32>, r: Seq<i32>) -> bool {
    &&& r.len() == s.len()
    &&& forall|i: int| 0 <= i < s.len() ==> #[trigger] r[i] == smaller_after(s, i)
}

/// Every count of smaller later entries is a value that an `i32` holds.
pub open spec fn counts_fit(s: Seq<i32>) -> bool {
    forall|i: int| 0 <= i < s.len() ==> #[trigger] smaller_after(s, i) <= i32::MAX
}

/// The entries below a value in two sequences laid end to end are those of
/// the one and those of the other.
pub proof fn lemma_count_below_concat(a: Seq<i32>, b: Seq<i32>, v: int)
    ensures
        count_below(a + b, v) == count_below(a, v) + count_below(b, v),
    decreases b.len(),
{
    if b.len() == 0 {
        assert(a + b =~= a);
    } else {
        lemma_count_below_concat(a, b.drop_last(), v);
        assert((a + b).drop_last() =~= a + b.drop_last());
    }
}

/// No more entries lie below a value than there are entries.
pub proof fn lemma_count_below_at_most_len(s: Seq<i32>, v: int)
    ensures
        count_below(s, v) <= s.len(),
    decreases s.len(),
{
    if s.len() > 0 {
        lemma_count_below_at_most_len(s.drop_last(), v);
    }
}

/// A sequence of at most `i32::MAX + 1` entries has only counts that an
/// `i32` holds.
pub proof fn lemma_counts_fit_short(s: Seq<i32>)
    requires
        s.len() <= i32::MAX + 1,
    ensures
        counts_fit(s),
{
    assert forall|i: int| 0 <= i < s.len() implies #[trigger] smaller_after(s, i) <= i32::MAX by {
        lemma_count_below_at_most_len(s.skip(i + 1), s[i] as int);
    }
}

/// The counts of smaller later entries are determined by the sequence: two
/// results that each hold them are equal. So the scan with the rank counter
/// and the exhaustive search agree on every sequence, and a second call on
/// the same sequence returns what the first returned.
pub proof fn lemma_smaller_counts_unique(s: Seq<i32>, a: Seq<i32>, b: Seq<i32>)
    requires
        is_smaller_counts(s, a),
        is_smaller_counts(s, b),
    ensures
        a == b,
{
    assert(a =~= b);
}

/// Returns, for each position of `arr`, the number of smaller entries after
/// it. It gives every entry its rank in a sorted copy, walks `arr` from the
/// right and keeps the ranks met in a counter, which tells how many of them
/// lie below the rank of the entry at hand.
pub fn num_smaller_elements_to_the_right(arr: &Vec<i32>) -> (result: Vec<i32>)
    requires
        counts_fit(arr@),
    ensures
        is_smaller_counts(arr@, result@),
{
    let ghost s = arr@;
    let n = arr.len();
    let sorted_arr: Vec<i32> = sorted_copy(arr);
    let ghost t = sorted_arr@;
    proof {
        lemma_same_entries_same_length(s, t);
    }
    let mut seen = RankCounter::new(n);
    let mut result: Vec<i32> = vec![0i32; n];
    let mut i: usize = n;
    assert(s.skip(n as int).len() == 0);
    while i > 0
        invariant
            s == arr@,
            t == sorted_arr@,
            n == s.len(),
            n == t.len(),
            is_sorted_arrangement(s, t),
            counts_fit(s),
            i <= n,
            seen.well_formed(),
            seen.limit() == n,
            seen@.len() == n - i,
            result@.len() == n,
            forall|k: int| i <= k < n ==> #[trigger] result@[k] == smaller_after(s, k),
            forall|v: i32, rank: int| #[trigger]
                is_rank(t, v, rank) ==> entries_below(seen@, rank) == count_below(
                    s.skip(i as int),
                    v as int,
                ),
        decreases i,
    {
        i -= 1;
        let x = arr[i];
        let rank = rank_of(&sorted_arr, x);
        let ghost at = lemma_entry_occurs(s, t, i as int);
        proof {
            lemma_rank_order(t, at, rank as int, x, rank as int);
            assert(smaller_after(s, i as int) <= i32::MAX);
        }
        let below = seen.count_below(rank);
        result.set(i, below as i32);
        let ghost met = seen@;
        seen.add(rank);
        proof {
            let here = seq![x];
            assert(s.skip(i as int) =~= here + s.skip(i + 1));
            assert(here.drop_last() =~= Seq::<i32>::empty());
            assert forall|v: i32, r: int| #[trigger] is_rank(t, v, r) implies entries_below(
                seen@,
                r,
            ) == count_below(s.skip(i as int), v as int) by {
                lemma_rank_order(t, at, rank as int, v, r);
                lemma_entries_below_push(met, rank, r);
                lemma_count_below_concat(here, s.skip(i + 1), v as int);
                assert(count_below(here.drop_last(), v as int) == 0);
            }
        }
    }
    result
}

/// Returns, for each position of `arr`, the number of smaller entries after
/// it, by comparing the entry with every later one.
pub fn num_smaller_elements_to_the_right_brute_force(arr: &Vec<i32>) -> (result: Vec<i32>)
    requires
        counts_fit(arr@),
    ensures
        is_smaller_counts(arr@, result@),
{
    let ghost s = arr@;
    let n = arr.len();
    let mut result: Vec<i32> = Vec::with_capacity(n);
    let mut i: usize = 0;
    while i < n
        invariant
            s == arr@,
            n == s.len(),
            i <= n,
            counts_fit(s),
            result@.len() == i,
            forall|k: int| 0 <= k < i ==> #[trigger] result@[k] == smaller_after(s, k),
        decreases n - i,
    {
        let mut num_smaller: i32 = 0;
        let mut j: usize = i + 1;
        assert(s.subrange(i + 1, j as int).len() == 0);
        while j < n
            invariant
                s == arr@,
                n == s.len(),
                i < j <= n,
                counts_fit(s),
                num_smaller == count_below(s.subrange(i + 1, j as int), s[i as int] as int),
            decreases n - j,
        {
            proof {
                let v = s[i as int] as int;
                let so_far = s.subrange(i + 1, j as int);
                let rest = s.subrange(j as int, n as int);
                lemma_count_below_concat(so_far, rest, v);
                assert(so_far + rest =~= s.skip(i + 1));
                assert(rest.drop_last() =~= s.subrange(j as int, n - 1));
                assert(s.subrange(i + 1, j + 1).drop_last() =~= so_far);
                assert(smaller_after(s, i as int) <= i32::MAX);
                lemma_count_below_first(rest, v);
            }
            if arr[j] < arr[i] {
                num_smaller += 1;
            }
            j += 1;
        }
        assert(s.subrange(i + 1, n as int) =~= s.skip(i + 1));
        result.push(num_smaller);
        i += 1;
    }
    result
}

/// A sequence whose first entry lies below a value has at least one entry
/// below it.
proof fn lemma_count_below_first(s: Seq<i32>, v: int)
    requires
        s.len() > 0,
    ensures
        s[0] < v ==> count_below(s, v) >= 1,
    decreases s.len(),
{
    if s.len() > 1 {
        lemma_count_below_first(s.drop_last(), v);
    }
}

} // verus!
