//! The smallest window of a sequence that has to be sorted for the whole
//! sequence to be sorted.
//!
//! A window is a pair of positions `(left, right)` with `left <= right`,
//! both ends included. A sequence that is sorted already, the empty one
//! among them, has the window `(0, 0)`.

use crate::sorting::{
    is_sorted, is_sorted_arrangement, lemma_entry_occurs, lemma_same_entries_after,
    lemma_same_entries_before, lemma_same_entries_same_length, sorted_copy,
};
use vstd::prelude::*;

verus! {

/// `t` is `s` with the window `left..=right` sorted and every entry outside
/// the window left where it was, and `t` is sorted as a whole.
pub open spec fn sorts_by_window(s: Seq<i32>, t: Seq<i32>, left: int, right: int) -> bool {
    &&& 0 <= left <= right < s.len()
    &&& t.len() == s.len()
    &&& forall|k: int| 0 <= k < left || right < k < s.len() ==> t[k] == s[k]
    &&& t.subrange(left, right + 1).to_multiset() == s.subrange(left, right + 1).to_multiset()
    &&& is_sorted(t)
}

/// Sorting the window `left..=right` of `s` sorts all of `s`.
pub open spec fn window_sorts(s: Seq<i32>, left: int, right: int) -> bool {
    exists|t: Seq<i32>| sorts_by_window(s, t, left, right)
}

/// `(left, right)` is the smallest window of `s` that has to be sorted:
/// sorting it sorts all of `s`, and it lies inside every window of which
/// that holds. For a sorted `s` it is `(0, 0)`.
pub open spec fn is_smallest_window(s: Seq<i32>, left: int, right: int) -> bool {
    if is_sorted(s) {
        left == 0 && right == 0
    } else {
        &&& window_sorts(s, left, right)
        &&& forall|l: int, r: int| #[trigger] window_sorts(s, l, r) ==> l <= left && right <= r
    }
}

/// Some entry after position `i` is smaller than the entry at `i`.
pub open spec fn has_smaller_after(s: Seq<i32>, i: int) -> bool {
    exists|j: int| i < j < s.len() && s[j] < s[i]
}

/// Some entry before position `j` is larger than the entry at `j`.
pub open spec fn has_larger_before(s: Seq<i32>, j: int) -> bool {
    exists|i: int| 0 <= i < j && s[i] > s[j]
}

/// `left` is the first position of `s` with a smaller entry after it.
pub open spec fn is_first_out_of_place(s: Seq<i32>, left: int) -> bool {
    &&& 0 <= left < s.len()
    &&& has_smaller_after(s, left)
    &&& forall|i: int| 0 <= i < left ==> !has_smaller_after(s, i)
}

/// `right` is the last position of `s` with a larger entry before it.
pub open spec fn is_last_out_of_place(s: Seq<i32>, right: int) -> bool {
    &&& 0 <= right < s.len()
    &&& has_larger_before(s, right)
    &&& forall|j: int| right < j < s.len() ==> !has_larger_before(s, j)
}

/// A sequence in which no position has a smaller entry after it is sorted.
pub proof fn lemma_sorted_without_descent(s: Seq<i32>)
    requires
        forall|i: int| 0 <= i < s.len() ==> !has_smaller_after(s, i),
    ensures
        is_sorted(s),
{
    assert forall|i: int, j: int| 0 <= i <= j < s.len() implies s[i] <= s[j] by {
        assert(!has_smaller_after(s, i));
    }
}

/// The window from the first position with a smaller entry after it to the
/// last position with a larger entry before it, sorted, sorts the sequence.
proof fn lemma_out_of_place_window_sorts(s: Seq<i32>, left: int, right: int)
    requires
        is_first_out_of_place(s, left),
        is_last_out_of_place(s, right),
    ensures
        left < right,
        window_sorts(s, left, right),
{
    let j = choose|j: int| left < j < s.len() && s[j] < s[left];
    assert(has_larger_before(s, j));
    assert(j <= right);
    let leq = |a: i32, b: i32| a <= b;
    let window = s.subrange(left, right + 1);
    let ordered = window.sort_by(leq);
    assert(vstd::relations::total_ordering(leq));
    window.lemma_sort_by_ensures(leq);
    crate::sorting::lemma_same_entries_same_length(window, ordered);
    let t = s.take(left) + ordered + s.skip(right + 1);
    assert(t.len() == s.len());
    assert(t.subrange(left, right + 1) =~= ordered);
    assert forall|a: int, b: int| 0 <= a <= b < t.len() implies t[a] <= t[b] by {
        // Each entry of `t` is the entry of `s` at a position on the same
        // side of the window, or inside it.
        let pa = if left <= a <= right {
            left + lemma_entry_occurs(ordered, window, a - left)
        } else {
            a
        };
        let pb = if left <= b <= right {
            left + lemma_entry_occurs(ordered, window, b - left)
        } else {
            b
        };
        assert(t[a] == s[pa]);
        assert(t[b] == s[pb]);
        if a < left {
            assert(!has_smaller_after(s, a));
        } else if b > right {
            assert(!has_larger_before(s, b));
        } else {
            assert(vstd::relations::sorted_by(ordered, leq));
            assert(t[a] == ordered[a - left]);
            assert(t[b] == ordered[b - left]);
            assert(leq(ordered[a - left], ordered[b - left]));
        }
    }
    assert(sorts_by_window(s, t, left, right));
}

/// Every window whose sorting sorts the sequence holds the first position
/// with a smaller entry after it and the last position with a larger entry
/// before it.
proof fn lemma_sorting_window_holds_out_of_place(
    s: Seq<i32>,
    left: int,
    right: int,
    l: int,
    r: int,
)
    requires
        is_first_out_of_place(s, left),
        is_last_out_of_place(s, right),
        window_sorts(s, l, r),
    ensures
        l <= left,
        right <= r,
{
    let t = choose|t: Seq<i32>| sorts_by_window(s, t, l, r);
    let window = s.subrange(l, r + 1);
    let ordered = t.subrange(l, r + 1);
    if left < l {
        let j = choose|j: int| left < j < s.len() && s[j] < s[left];
        let k = if l <= j <= r {
            l + lemma_entry_occurs(window, ordered, j - l)
        } else {
            j
        };
        assert(t[k] == s[j]);
        assert(t[left] == s[left]);
        assert(t[left] <= t[k]);
    }
    if r < right {
        let i = choose|i: int| 0 <= i < right && s[i] > s[right];
        let k = if l <= i <= r {
            l + lemma_entry_occurs(window, ordered, i - l)
        } else {
            i
        };
        assert(t[k] == s[i]);
        assert(t[right] == s[right]);
        assert(t[k] <= t[right]);
    }
}

/// The smallest window that has to be sorted runs from the first position
/// with a smaller entry after it to the last position with a larger entry
/// before it.
pub proof fn lemma_out_of_place_window_is_smallest(s: Seq<i32>, left: int, right: int)
    requires
        is_first_out_of_place(s, left),
        is_last_out_of_place(s, right),
    ensures
        !is_sorted(s),
        left < right,
        is_smallest_window(s, left, right),
{
    let j = choose|j: int| left < j < s.len() && s[j] < s[left];
    assert(!(s[left] <= s[j]));
    lemma_out_of_place_window_sorts(s, left, right);
    assert forall|l: int, r: int| #[trigger] window_sorts(s, l, r) implies l <= left && right
        <= r by {
        lemma_sorting_window_holds_out_of_place(s, left, right, l, r);
    }
}

/// The smallest window that has to be sorted is one window: two pairs that
/// are each the smallest window of `s` are equal. So the scan from both
/// ends and the comparison with a sorted copy agree on every sequence, and
/// a second call on the same sequence returns what the first returned.
pub proof fn lemma_smallest_window_unique(s: Seq<i32>, a: (int, int), b: (int, int))
    requires
        is_smallest_window(s, a.0, a.1),
        is_smallest_window(s, b.0, b.1),
    ensures
        a == b,
{
}

/// Returns the smallest window of `arr` that has to be sorted, in two
/// passes. From left to right it keeps the largest entry seen; the last
/// position that holds less than that is the right end. From right to left
/// it keeps the smallest entry seen; the last position met that holds more
/// than that, the first in reading order, is the left end.
pub fn get_smallest_window_traverse_both_ends(arr: &Vec<i32>) -> (window: (usize, usize))
    ensures
        is_smallest_window(arr@, window.0 as int, window.1 as int),
{
    let ghost s = arr@;
    let n = arr.len();
    if n <= 1 {
        return (0, 0);
    }
    let mut max_seen: i32 = arr[0];
    let mut right: usize = 0;
    let ghost mut max_at: int = 0;
    let mut i: usize = 0;
    while i < n
        invariant
            s == arr@,
            n == s.len(),
            n > 1,
            i <= n,
            0 <= max_at < n,
            max_at <= i,
            s[max_at] == max_seen,
            forall|k: int| 0 <= k < i ==> s[k] <= max_seen,
            right == 0 || (right < i && has_larger_before(s, right as int)),
            forall|j: int| right < j < i ==> !has_larger_before(s, j),
        decreases n - i,
    {
        if arr[i] > max_seen {
            max_seen = arr[i];
            proof {
                max_at = i as int;
            }
        }
        if arr[i] < max_seen {
            right = i;
            assert(s[max_at] > s[i as int]);
        }
        i += 1;
    }
    let mut min_seen: i32 = arr[n - 1];
    let mut left: usize = right;
    let ghost mut min_at: int = n - 1;
    let ghost mut found: bool = false;
    let mut i: usize = n;
    while i > 0
        invariant
            s == arr@,
            n == s.len(),
            n > 1,
            i <= n,
            0 <= min_at < n,
            i <= min_at + 1,
            s[min_at] == min_seen,
            forall|k: int| i <= k < n ==> s[k] >= min_seen,
            found ==> i <= left < n && has_smaller_after(s, left as int),
            !found ==> left == right,
            found ==> forall|k: int| i <= k < left ==> !has_smaller_after(s, k),
            !found ==> forall|k: int| i <= k < n ==> !has_smaller_after(s, k),
        decreases i,
    {
        i -= 1;
        if arr[i] < min_seen {
            min_seen = arr[i];
            proof {
                min_at = i as int;
            }
        }
        if arr[i] > min_seen {
            left = i;
            proof {
                found = true;
            }
            assert(s[min_at] < s[i as int]);
        }
    }
    proof {
        if found {
            let j = choose|j: int| left < j < s.len() && s[j] < s[left as int];
            assert(has_larger_before(s, j));
            assert(is_first_out_of_place(s, left as int));
            assert(is_last_out_of_place(s, right as int));
            lemma_out_of_place_window_is_smallest(s, left as int, right as int);
        } else {
            lemma_sorted_without_descent(s);
            if right != 0 {
                let k = choose|k: int| 0 <= k < right && s[k] > s[right as int];
                assert(s[k] <= s[right as int]);
            }
        }
    }
    (left, right)
}

/// The first position at which a sequence differs from its sorted
/// arrangement is the first position with a smaller entry after it.
pub proof fn lemma_first_difference_is_first_out_of_place(s: Seq<i32>, t: Seq<i32>, left: int)
    requires
        is_sorted_arrangement(s, t),
        0 <= left < s.len(),
        forall|k: int| 0 <= k < left ==> s[k] == t[k],
        s[left] != t[left],
    ensures
        is_first_out_of_place(s, left),
{
    lemma_same_entries_same_length(s, t);
    assert forall|i: int| 0 <= i < left implies !has_smaller_after(s, i) by {
        if has_smaller_after(s, i) {
            let j = choose|j: int| i < j < s.len() && s[j] < s[i];
            lemma_same_entries_after(s, t, i);
            let k = lemma_entry_occurs(s.skip(i), t.skip(i), j - i);
            assert(t[i + k] == s[j]);
            assert(t[i] <= t[i + k]);
        }
    }
    lemma_same_entries_after(s, t, left);
    let k = lemma_entry_occurs(s.skip(left), t.skip(left), 0);
    assert(t[left + k] == s[left]);
    assert(t[left] <= t[left + k]);
    let j = lemma_entry_occurs(t.skip(left), s.skip(left), 0);
    assert(s[left + j] == t[left]);
    assert(left < left + j < s.len() && s[left + j] < s[left]);
}

/// The last position at which a sequence differs from its sorted
/// arrangement is the last position with a larger entry before it.
pub proof fn lemma_last_difference_is_last_out_of_place(s: Seq<i32>, t: Seq<i32>, right: int)
    requires
        is_sorted_arrangement(s, t),
        0 <= right < s.len(),
        forall|k: int| right < k < s.len() ==> s[k] == t[k],
        s[right] != t[right],
    ensures
        is_last_out_of_place(s, right),
{
    lemma_same_entries_same_length(s, t);
    assert forall|j: int| right < j < s.len() implies !has_larger_before(s, j) by {
        if has_larger_before(s, j) {
            let i = choose|i: int| 0 <= i < j && s[i] > s[j];
            lemma_same_entries_before(s, t, j + 1);
            let k = lemma_entry_occurs(s.take(j + 1), t.take(j + 1), i);
            assert(t[k] == s[i]);
            assert(t[k] <= t[j]);
        }
    }
    lemma_same_entries_before(s, t, right + 1);
    let k = lemma_entry_occurs(s.take(right + 1), t.take(right + 1), right);
    assert(t[k] == s[right]);
    assert(t[k] <= t[right]);
    let i = lemma_entry_occurs(t.take(right + 1), s.take(right + 1), right);
    assert(s[i] == t[right]);
    assert(0 <= i < right && s[i] > s[right]);
}

/// Returns the smallest window of `arr` that has to be sorted, by sorting a
/// copy: the window runs from the first to the last position at which
/// `arr` and the sorted copy differ.
pub fn get_smallest_window_using_sorting(arr: &Vec<i32>) -> (window: (usize, usize))
    ensures
        is_smallest_window(arr@, window.0 as int, window.1 as int),
{
    let ghost s = arr@;
    let n = arr.len();
    if n <= 1 {
        return (0, 0);
    }
    let sorted_arr: Vec<i32> = sorted_copy(arr);
    let ghost t = sorted_arr@;
    proof {
        lemma_same_entries_same_length(s, t);
    }
    let mut left: usize = 0;
    while left < n && arr[left] == sorted_arr[left]
        invariant
            s == arr@,
            t == sorted_arr@,
            n == s.len(),
            n == t.len(),
            left <= n,
            forall|k: int| 0 <= k < left ==> s[k] == t[k],
        decreases n - left,
    {
        left += 1;
    }
    if left == n {
        assert(s =~= t);
        return (0, 0);
    }
    let mut right: usize = n - 1;
    while right > left && arr[right] == sorted_arr[right]
        invariant
            s == arr@,
            t == sorted_arr@,
            n == s.len(),
            n == t.len(),
            left <= right < n,
            s[left as int] != t[left as int],
            forall|k: int| right < k < n ==> s[k] == t[k],
        decreases right,
    {
        right -= 1;
    }
    proof {
        lemma_first_difference_is_first_out_of_place(s, t, left as int);
        lemma_last_difference_is_last_out_of_place(s, t, right as int);
        lemma_out_of_place_window_is_smallest(s, left as int, right as int);
    }
    (left, right)
}

/// `j` is the last position after `i` that holds less than position `i`.
pub open spec fn is_farthest_smaller(s: Seq<i32>, i: int, j: int) -> bool {
    &&& 0 <= i < j < s.len()
    &&& s[j] < s[i]
    &&& forall|k: int| j < k < s.len() ==> s[k] >= s[i]
}

/// `(left, right)` is the tightest of the windows that run from a position
/// to the last smaller entry after it, and of several that are equally
/// tight the one that starts first. For a sorted `s`, which has no such
/// window, it is `(0, 0)`.
pub open spec fn is_tightest_descent(s: Seq<i32>, left: int, right: int) -> bool {
    if is_sorted(s) {
        left == 0 && right == 0
    } else {
        &&& is_farthest_smaller(s, left, right)
        &&& forall|i: int, j: int| #[trigger]
            is_farthest_smaller(s, i, j) ==> right - left < j - i || (right - left == j - i
                && left <= i)
    }
}

/// At most one position of `s` has a smaller entry after it.
pub open spec fn has_single_descent_start(s: Seq<i32>) -> bool {
    forall|i: int, j: int|
        0 <= i < s.len() && 0 <= j < s.len() && has_smaller_after(s, i) && has_smaller_after(s, j)
            ==> i == j
}

/// The tightest descent of a sequence is one window: two pairs that are
/// each the tightest descent of `s` are equal. So a second call of the
/// exhaustive search on the same sequence returns what the first returned.
pub proof fn lemma_tightest_descent_unique(s: Seq<i32>, a: (int, int), b: (int, int))
    requires
        is_tightest_descent(s, a.0, a.1),
        is_tightest_descent(s, b.0, b.1),
    ensures
        a == b,
{
    if !is_sorted(s) {
        assert(is_farthest_smaller(s, a.0, a.1));
        assert(is_farthest_smaller(s, b.0, b.1));
    }
}

/// Below a position with a smaller entry after it there is a first such
/// position.
proof fn lemma_first_out_of_place_exists(s: Seq<i32>, upto: int) -> (left: int)
    requires
        0 <= upto < s.len(),
        has_smaller_after(s, upto),
    ensures
        is_first_out_of_place(s, left),
        left <= upto,
    decreases upto,
{
    if exists|i: int| 0 <= i < upto && has_smaller_after(s, i) {
        let i = choose|i: int| 0 <= i < upto && has_smaller_after(s, i);
        lemma_first_out_of_place_exists(s, i)
    } else {
        upto
    }
}

/// Above a position with a larger entry before it there is a last such
/// position.
proof fn lemma_last_out_of_place_exists(s: Seq<i32>, from: int) -> (right: int)
    requires
        0 <= from < s.len(),
        has_larger_before(s, from),
    ensures
        is_last_out_of_place(s, right),
        from <= right,
    decreases s.len() - from,
{
    if exists|j: int| from < j < s.len() && has_larger_before(s, j) {
        let j = choose|j: int| from < j < s.len() && has_larger_before(s, j);
        lemma_last_out_of_place_exists(s, j)
    } else {
        from
    }
}

/// After a smaller entry behind position `i` there is a last one.
proof fn lemma_farthest_smaller_exists(s: Seq<i32>, i: int, from: int) -> (j: int)
    requires
        0 <= i < from < s.len(),
        s[from] < s[i],
    ensures
        is_farthest_smaller(s, i, j),
    decreases s.len() - from,
{
    if exists|k: int| from < k < s.len() && s[k] < s[i] {
        let k = choose|k: int| from < k < s.len() && s[k] < s[i];
        lemma_farthest_smaller_exists(s, i, k)
    } else {
        from
    }
}

/// A sequence that is not sorted has a first position with a smaller entry
/// after it and a last position with a larger entry before it, and its
/// smallest window that has to be sorted runs from the one to the other.
proof fn lemma_smallest_window_ends(s: Seq<i32>, small: (int, int))
    requires
        !is_sorted(s),
        is_smallest_window(s, small.0, small.1),
    ensures
        is_first_out_of_place(s, small.0),
        is_last_out_of_place(s, small.1),
{
    let (a, b) = choose|a: int, b: int| 0 <= a <= b < s.len() && !(s[a] <= s[b]);
    assert(has_smaller_after(s, a));
    assert(has_larger_before(s, b));
    let left = lemma_first_out_of_place_exists(s, a);
    let right = lemma_last_out_of_place_exists(s, b);
    lemma_out_of_place_window_is_smallest(s, left, right);
    lemma_smallest_window_unique(s, small, (left, right));
}

/// A sorted sequence has no position with a smaller entry after it.
proof fn lemma_sorted_has_no_descent(s: Seq<i32>)
    requires
        is_sorted(s),
    ensures
        forall|i: int| 0 <= i < s.len() ==> !has_smaller_after(s, i),
{
    assert forall|i: int| 0 <= i < s.len() implies !has_smaller_after(s, i) by {
        if has_smaller_after(s, i) {
            let j = choose|j: int| i < j < s.len() && s[j] < s[i];
            assert(s[i] <= s[j]);
        }
    }
}

/// Where at most one position of the sequence has a smaller entry after
/// it, the tightest descent is the smallest window that has to be sorted:
/// there the exhaustive search agrees with the scan from both ends and with
/// the comparison with a sorted copy.
pub proof fn lemma_tightest_descent_is_smallest_window(
    s: Seq<i32>,
    tight: (int, int),
    small: (int, int),
)
    requires
        has_single_descent_start(s),
        is_tightest_descent(s, tight.0, tight.1),
        is_smallest_window(s, small.0, small.1),
    ensures
        tight == small,
{
    if !is_sorted(s) {
        lemma_smallest_window_ends(s, small);
        assert(has_smaller_after(s, tight.0));
        assert(has_larger_before(s, tight.1));
        let right = small.1;
        let i = choose|i: int| 0 <= i < right && s[i] > s[right];
        assert(has_smaller_after(s, i));
        assert(i == tight.0);
    }
}

/// The tightest descent lies inside the smallest window that has to be
/// sorted. Where two positions of the sequence have a smaller entry after
/// them, it is not that window: the descent from the later of the two is
/// tighter.
pub proof fn lemma_tightest_descent_in_smallest_window(
    s: Seq<i32>,
    tight: (int, int),
    small: (int, int),
)
    requires
        is_tightest_descent(s, tight.0, tight.1),
        is_smallest_window(s, small.0, small.1),
    ensures
        small.0 <= tight.0,
        tight.1 <= small.1,
        !has_single_descent_start(s) ==> tight != small,
{
    if is_sorted(s) {
        lemma_sorted_has_no_descent(s);
    } else {
        lemma_smallest_window_ends(s, small);
        assert(has_smaller_after(s, tight.0));
        assert(has_larger_before(s, tight.1));
        if tight == small {
            assert forall|i: int, j: int|
                0 <= i < s.len() && 0 <= j < s.len() && has_smaller_after(s, i)
                    && has_smaller_after(s, j) implies i == j by {
                let x = if i == small.0 {
                    j
                } else {
                    i
                };
                if x != small.0 {
                    let k = choose|k: int| x < k < s.len() && s[k] < s[x];
                    let y = lemma_farthest_smaller_exists(s, x, k);
                    assert(has_larger_before(s, y));
                }
            }
        }
    }
}

/// Returns the tightest descent of `arr`: for each position it looks for
/// the last smaller entry after it, and of the windows found it keeps the
/// tightest, the first of them where several are equally tight.
pub fn get_smallest_window_brute_force(arr: &Vec<i32>) -> (window: (usize, usize))
    ensures
        is_tightest_descent(arr@, window.0 as int, window.1 as int),
{
    let ghost s = arr@;
    let n = arr.len();
    if n <= 1 {
        return (0, 0);
    }
    let mut result: Option<(usize, usize)> = None;
    let mut i: usize = 0;
    while i < n
        invariant
            s == arr@,
            n == s.len(),
            i <= n,
            result is None ==> forall|k: int| 0 <= k < i ==> !has_smaller_after(s, k),
            result matches Some(w) ==> {
                &&& w.0 < i
                &&& is_farthest_smaller(s, w.0 as int, w.1 as int)
                &&& forall|k: int, j: int| #[trigger]
                    is_farthest_smaller(s, k, j) && k < i ==> w.1 - w.0 < j - k || (w.1 - w.0 == j
                        - k && w.0 <= k)
            },
        decreases n - i,
    {
        let left = i;
        let mut right: Option<usize> = None;
        let mut j: usize = i + 1;
        while j < n
            invariant
                s == arr@,
                n == s.len(),
                i < j <= n,
                right is None ==> forall|k: int| i < k < j ==> s[k] >= s[i as int],
                right matches Some(x) ==> {
                    &&& i < x < j
                    &&& s[x as int] < s[i as int]
                    &&& forall|k: int| x < k < j ==> s[k] >= s[i as int]
                },
            decreases n - j,
        {
            if arr[j] < arr[i] {
                right = Some(j);
            }
            j += 1;
        }
        match right {
            Some(x) => {
                assert(is_farthest_smaller(s, left as int, x as int));
                assert forall|y: int| #[trigger] is_farthest_smaller(s, left as int, y) implies y
                    == x by {
                    if y < x {
                        assert(s[x as int] >= s[left as int]);
                    }
                }
                match result {
                    Some(res) => {
                        if res.1 - res.0 > x - left {
                            result = Some((left, x));
                        }
                    },
                    None => {
                        result = Some((left, x));
                    },
                }
            },
            None => {
                assert forall|y: int| !is_farthest_smaller(s, left as int, y) by {
                    if is_farthest_smaller(s, left as int, y) {
                        assert(s[y] >= s[left as int]);
                    }
                }
            },
        }
        proof {
            if let Some(w) = result {
                assert forall|k: int, j: int| #[trigger]
                    is_farthest_smaller(s, k, j) && k < i + 1 implies w.1 - w.0 < j - k || (w.1
                    - w.0 == j - k && w.0 <= k) by {
                    if k == i {
                        assert(right == Some(j as usize));
                    } else {
                        assert(has_smaller_after(s, k));
                    }
                }
            }
        }
        i += 1;
    }
    match result {
        Some(w) => {
            assert(!(s[w.0 as int] <= s[w.1 as int]));
            w
        },
        None => {
            proof {
                lemma_sorted_without_descent(s);
            }
            (0, 0)
        },
    }
}

} // verus!
