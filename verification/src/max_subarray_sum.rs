//! Largest sum of a contiguous range of a sequence, with and without
//! ranges that run over the end of the sequence and continue at its start.
//!
//! A range may be empty, and an empty range sums to 0, so no result is
//! negative: a sequence of negative numbers has the largest sum 0.

use vstd::prelude::*;

verus! {

/// The sum of all entries of `s`.
pub open spec fn sum(s: Seq<i32>) -> int
    decreases s.len(),
{
    if s.len() == 0 {
        0
    } else {
        sum(s.drop_last()) + s.last()
    }
}

/// The sum of the entries of `s` at the positions `lo <= k < hi`.
pub open spec fn range_sum(s: Seq<i32>, lo: int, hi: int) -> int {
    sum(s.subrange(lo, hi))
}

/// `lo..hi` is a range of positions of a sequence of length `n`.
pub open spec fn is_range(n: nat, lo: int, hi: int) -> bool {
    0 <= lo <= hi <= n
}

/// `lo..hi` is a range of positions on the circle that a sequence of length
/// `n` forms when its end is joined to its start. Positions from `n` on
/// stand for the positions `0..n` once more; no range goes round the circle
/// more than once.
pub open spec fn is_circular_range(n: nat, lo: int, hi: int) -> bool {
    0 <= lo <= hi <= 2 * n && hi - lo <= n
}

/// The sum of the entries of `s` on the circular range `lo..hi`.
pub open spec fn circular_sum(s: Seq<i32>, lo: int, hi: int) -> int {
    range_sum(s + s, lo, hi)
}

/// `m` is the largest sum of a range of `s`, empty ranges included.
pub open spec fn is_max_range_sum(s: Seq<i32>, m: int) -> bool {
    &&& exists|lo: int, hi: int| is_range(s.len(), lo, hi) && #[trigger] range_sum(s, lo, hi) == m
    &&& forall|lo: int, hi: int| is_range(s.len(), lo, hi) ==> #[trigger] range_sum(s, lo, hi) <= m
}

/// `m` is the largest sum of a circular range of `s`, empty ranges included.
pub open spec fn is_max_circular_sum(s: Seq<i32>, m: int) -> bool {
    &&& exists|lo: int, hi: int|
        is_circular_range(s.len(), lo, hi) && #[trigger] circular_sum(s, lo, hi) == m
    &&& forall|lo: int, hi: int|
        is_circular_range(s.len(), lo, hi) ==> #[trigger] circular_sum(s, lo, hi) <= m
}

/// No range of `s` sums to more than an `i32` holds.
pub open spec fn range_sums_fit(s: Seq<i32>) -> bool {
    forall|lo: int, hi: int|
        is_range(s.len(), lo, hi) ==> #[trigger] range_sum(s, lo, hi) <= i32::MAX
}

/// No circular range of `s` sums to more than an `i32` holds.
pub open spec fn circular_sums_fit(s: Seq<i32>) -> bool {
    forall|lo: int, hi: int|
        is_circular_range(s.len(), lo, hi) ==> #[trigger] circular_sum(s, lo, hi) <= i32::MAX
}

/// An empty range sums to 0.
pub proof fn lemma_range_sum_empty(s: Seq<i32>, at: int)
    requires
        0 <= at <= s.len(),
    ensures
        range_sum(s, at, at) == 0,
{
    assert(s.subrange(at, at).len() == 0);
}

/// A range that grows by one position at its end grows by that entry.
pub proof fn lemma_range_sum_extend(s: Seq<i32>, lo: int, hi: int)
    requires
        0 <= lo <= hi < s.len(),
    ensures
        range_sum(s, lo, hi + 1) == range_sum(s, lo, hi) + s[hi],
{
    let longer = s.subrange(lo, hi + 1);
    assert(longer.drop_last() =~= s.subrange(lo, hi));
    assert(longer.last() == s[hi]);
}

/// The sum of two sequences laid end to end is the sum of their sums.
pub proof fn lemma_sum_concat(a: Seq<i32>, b: Seq<i32>)
    ensures
        sum(a + b) == sum(a) + sum(b),
    decreases b.len(),
{
    if b.len() == 0 {
        assert(a + b =~= a);
    } else {
        lemma_sum_concat(a, b.drop_last());
        assert((a + b).drop_last() =~= a + b.drop_last());
        assert((a + b).last() == b.last());
    }
}

/// A range cut in two at `mid` sums to the sum of its two parts.
pub proof fn lemma_range_sum_split(s: Seq<i32>, lo: int, mid: int, hi: int)
    requires
        0 <= lo <= mid <= hi <= s.len(),
    ensures
        range_sum(s, lo, hi) == range_sum(s, lo, mid) + range_sum(s, mid, hi),
{
    lemma_sum_concat(s.subrange(lo, mid), s.subrange(mid, hi));
    assert(s.subrange(lo, mid) + s.subrange(mid, hi) =~= s.subrange(lo, hi));
}

/// A range whose entries all lie between `least` and `most` sums to a value
/// between its length times `least` and its length times `most`.
pub proof fn lemma_range_sum_bounds(s: Seq<i32>, lo: int, hi: int, least: int, most: int)
    requires
        0 <= lo <= hi <= s.len(),
        forall|k: int| lo <= k < hi ==> least <= #[trigger] s[k] <= most,
    ensures
        (hi - lo) * least <= range_sum(s, lo, hi) <= (hi - lo) * most,
    decreases hi - lo,
{
    if lo == hi {
        lemma_range_sum_empty(s, lo);
    } else {
        lemma_range_sum_bounds(s, lo, hi - 1, least, most);
        lemma_range_sum_extend(s, lo, hi - 1);
        assert((hi - lo) * least == (hi - 1 - lo) * least + least) by (nonlinear_arith);
        assert((hi - lo) * most == (hi - 1 - lo) * most + most) by (nonlinear_arith);
    }
}

/// A sequence whose entries are at most `most`, where the length times
/// `most` is a value that an `i32` holds, has no range and no circular
/// range that sums to more than an `i32` holds.
pub proof fn lemma_sums_fit_with_bounded_entries(s: Seq<i32>, most: int)
    requires
        0 <= most,
        forall|k: int| 0 <= k < s.len() ==> #[trigger] s[k] <= most,
        s.len() * most <= i32::MAX,
    ensures
        range_sums_fit(s),
        circular_sums_fit(s),
{
    let n = s.len() as int;
    assert forall|lo: int, hi: int| is_circular_range(s.len(), lo, hi) implies
        #[trigger] circular_sum(s, lo, hi) <= i32::MAX by {
        lemma_range_sum_bounds(s + s, lo, hi, i32::MIN as int, most);
        assert((hi - lo) * most <= n * most) by (nonlinear_arith)
            requires
                hi - lo <= n,
                0 <= most,
        ;
    }
    assert forall|lo: int, hi: int| is_range(s.len(), lo, hi) implies #[trigger] range_sum(
        s,
        lo,
        hi,
    ) <= i32::MAX by {
        lemma_range_is_circular(s, lo, hi);
    }
}

/// The largest range sum of a sequence is one number: any two values that
/// are each the largest range sum of `s` are equal. So the linear scan and
/// the exhaustive search agree on every sequence, and a second call on the
/// same sequence returns what the first returned.
pub proof fn lemma_max_range_sum_unique(s: Seq<i32>, a: int, b: int)
    requires
        is_max_range_sum(s, a),
        is_max_range_sum(s, b),
    ensures
        a == b,
{
}

/// Returns the largest sum of a range of `arr`, in one pass: at each
/// position it keeps the best sum of a range that ends there, which either
/// continues the best range that ended one position earlier or starts anew.
pub fn get_max_subarray(arr: &Vec<i32>) -> (best: i32)
    requires
        range_sums_fit(arr@),
    ensures
        is_max_range_sum(arr@, best as int),
{
    let ghost s = arr@;
    let n = arr.len();
    let mut max_seen: i32 = 0;
    let mut current_sum: i32 = 0;
    let ghost mut current_lo: int = 0;
    let ghost mut best_lo: int = 0;
    let ghost mut best_hi: int = 0;
    proof {
        lemma_range_sum_empty(s, 0);
    }
    let mut i: usize = 0;
    while i < n
        invariant
            s == arr@,
            n == s.len(),
            i <= n,
            range_sums_fit(s),
            0 <= current_lo <= i,
            current_sum == range_sum(s, current_lo, i as int),
            forall|lo: int| 0 <= lo < i ==> #[trigger] range_sum(s, lo, i as int) <= current_sum,
            is_range(i as nat, best_lo, best_hi),
            max_seen == range_sum(s, best_lo, best_hi),
            max_seen >= 0,
            forall|lo: int, hi: int|
                is_range(i as nat, lo, hi) ==> #[trigger] range_sum(s, lo, hi) <= max_seen,
        decreases n - i,
    {
        let x = arr[i];
        proof {
            lemma_range_sum_extend(s, current_lo, i as int);
            lemma_range_sum_extend(s, i as int, i as int);
            lemma_range_sum_empty(s, i as int);
            assert(is_range(s.len(), current_lo, i + 1));
            assert(is_range(s.len(), i as int, i + 1));
            assert forall|lo: int| 0 <= lo < i + 1 implies #[trigger] range_sum(s, lo, i + 1)
                <= if current_sum + x > x { current_sum + x } else { x as int } by {
                lemma_range_sum_extend(s, lo, i as int);
            }
        }
        let extended: i64 = current_sum as i64 + x as i64;
        if extended > x as i64 {
            current_sum = extended as i32;
        } else {
            current_sum = x;
            proof {
                current_lo = i as int;
            }
        }
        if current_sum > max_seen {
            max_seen = current_sum;
            proof {
                best_lo = current_lo;
                best_hi = i + 1;
            }
        }
        proof {
            lemma_range_sum_empty(s, i + 1);
        }
        i += 1;
    }
    max_seen
}

/// Returns the largest sum of a range of `arr`, by adding up every range:
/// for each start it walks to the end of the sequence and keeps a running
/// sum.
pub fn get_max_subarray_brute_force(arr: &Vec<i32>) -> (best: i32)
    requires
        range_sums_fit(arr@),
    ensures
        is_max_range_sum(arr@, best as int),
{
    let ghost s = arr@;
    let n = arr.len();
    let mut max_seen: i32 = 0;
    let ghost mut best_lo: int = 0;
    let ghost mut best_hi: int = 0;
    proof {
        lemma_range_sum_empty(s, 0);
    }
    let mut i: usize = 0;
    while i < n
        invariant
            s == arr@,
            n == s.len(),
            i <= n,
            range_sums_fit(s),
            is_range(s.len(), best_lo, best_hi),
            max_seen == range_sum(s, best_lo, best_hi),
            max_seen >= 0,
            forall|lo: int, hi: int|
                0 <= lo < i && lo <= hi <= n ==> #[trigger] range_sum(s, lo, hi) <= max_seen,
        decreases n - i,
    {
        let mut current_sum: i128 = 0;
        let mut j: usize = i;
        proof {
            lemma_range_sum_empty(s, i as int);
        }
        while j < n
            invariant
                s == arr@,
                n == s.len(),
                i <= j <= n,
                range_sums_fit(s),
                current_sum == range_sum(s, i as int, j as int),
                is_range(s.len(), best_lo, best_hi),
                max_seen == range_sum(s, best_lo, best_hi),
                max_seen >= 0,
                forall|lo: int, hi: int|
                    0 <= lo < i && lo <= hi <= n ==> #[trigger] range_sum(s, lo, hi) <= max_seen,
                forall|hi: int| i <= hi <= j ==> #[trigger] range_sum(s, i as int, hi) <= max_seen,
            decreases n - j,
        {
            proof {
                lemma_range_sum_extend(s, i as int, j as int);
                lemma_range_sum_bounds(s, i as int, j as int, i32::MIN as int, i32::MAX as int);
                assert(is_range(s.len(), i as int, j + 1));
            }
            current_sum = current_sum + arr[j] as i128;
            j += 1;
            if current_sum > max_seen as i128 {
                max_seen = current_sum as i32;
                proof {
                    best_lo = i as int;
                    best_hi = j as int;
                }
            }
        }
        i += 1;
    }
    max_seen
}

/// A range of `s` is a circular range of `s` with the same sum.
pub proof fn lemma_range_is_circular(s: Seq<i32>, lo: int, hi: int)
    requires
        is_range(s.len(), lo, hi),
    ensures
        is_circular_range(s.len(), lo, hi),
        circular_sum(s, lo, hi) == range_sum(s, lo, hi),
{
    assert((s + s).subrange(lo, hi) =~= s.subrange(lo, hi));
}

/// A circular range that starts in the second copy of `s` is the range one
/// full turn earlier.
pub proof fn lemma_circular_sum_turn(s: Seq<i32>, lo: int, hi: int)
    requires
        s.len() <= lo <= hi <= 2 * s.len(),
    ensures
        circular_sum(s, lo, hi) == range_sum(s, lo - s.len(), hi - s.len()),
{
    assert((s + s).subrange(lo, hi) =~= s.subrange(lo - s.len(), hi - s.len()));
}

/// A circular range that runs over the end of `s` is all of `s` without the
/// range that it leaves out.
pub proof fn lemma_circular_sum_complement(s: Seq<i32>, lo: int, hi: int)
    requires
        is_circular_range(s.len(), lo, hi),
        lo <= s.len() <= hi,
    ensures
        circular_sum(s, lo, hi) == sum(s) - range_sum(s, hi - s.len(), lo),
{
    let n = s.len() as int;
    assert((s + s).subrange(lo, hi) =~= s.subrange(lo, n) + s.subrange(0, hi - n));
    lemma_sum_concat(s.subrange(lo, n), s.subrange(0, hi - n));
    lemma_range_sum_split(s, 0, hi - n, lo);
    lemma_range_sum_split(s, 0, lo, n);
    assert(s.subrange(0, n) =~= s);
}

/// The largest circular range sum of a sequence is one number: any two
/// values that are each the largest circular range sum of `s` are equal. So
/// the linear scan and the exhaustive search agree on every sequence, and a
/// second call on the same sequence returns what the first returned.
pub proof fn lemma_max_circular_sum_unique(s: Seq<i32>, a: int, b: int)
    requires
        is_max_circular_sum(s, a),
        is_max_circular_sum(s, b),
    ensures
        a == b,
{
}

/// The largest circular range sum is never below the largest range sum.
pub proof fn lemma_circular_at_least_plain(s: Seq<i32>, plain: int, circular: int)
    requires
        is_max_range_sum(s, plain),
        is_max_circular_sum(s, circular),
    ensures
        plain <= circular,
{
    let (lo, hi) = choose|lo: int, hi: int|
        is_range(s.len(), lo, hi) && #[trigger] range_sum(s, lo, hi) == plain;
    lemma_range_is_circular(s, lo, hi);
}

/// Returns the largest sum of a circular range of `arr`, in one pass. A
/// circular range that runs over the end leaves out a plain range, so the
/// best of those is the total less the smallest sum of a plain range; the
/// result is the larger of that and the largest sum of a plain range.
pub fn get_max_subarray_wrap_around(arr: &Vec<i32>) -> (best: i32)
    requires
        circular_sums_fit(arr@),
    ensures
        is_max_circular_sum(arr@, best as int),
{
    let ghost s = arr@;
    let n = arr.len();
    proof {
        assert forall|lo: int, hi: int| is_range(s.len(), lo, hi) implies #[trigger] range_sum(
            s,
            lo,
            hi,
        ) <= i32::MAX by {
            lemma_range_is_circular(s, lo, hi);
        }
    }
    let max_seen = get_max_subarray(arr);

    let mut min_subarray_sum: i128 = 0;
    let mut current_sum: i128 = 0;
    let mut array_sum: i128 = 0;
    let ghost mut current_lo: int = 0;
    let ghost mut least_lo: int = 0;
    let ghost mut least_hi: int = 0;
    proof {
        lemma_range_sum_empty(s, 0);
    }
    let mut i: usize = 0;
    while i < n
        invariant
            s == arr@,
            n == s.len(),
            i <= n,
            0 <= current_lo <= i,
            current_sum == range_sum(s, current_lo, i as int),
            forall|lo: int| 0 <= lo < i ==> #[trigger] range_sum(s, lo, i as int) >= current_sum,
            is_range(i as nat, least_lo, least_hi),
            min_subarray_sum == range_sum(s, least_lo, least_hi),
            min_subarray_sum <= 0,
            forall|lo: int, hi: int|
                is_range(i as nat, lo, hi) ==> #[trigger] range_sum(s, lo, hi) >= min_subarray_sum,
            array_sum == range_sum(s, 0, i as int),
        decreases n - i,
    {
        let x = arr[i];
        proof {
            lemma_range_sum_extend(s, current_lo, i as int);
            lemma_range_sum_extend(s, i as int, i as int);
            lemma_range_sum_extend(s, 0, i as int);
            lemma_range_sum_empty(s, i as int);
            lemma_range_sum_bounds(s, current_lo, i as int, i32::MIN as int, i32::MAX as int);
            lemma_range_sum_bounds(s, 0, i as int, i32::MIN as int, i32::MAX as int);
            assert forall|lo: int| 0 <= lo < i + 1 implies #[trigger] range_sum(s, lo, i + 1)
                >= if current_sum + x < x { current_sum + x } else { x as int } by {
                lemma_range_sum_extend(s, lo, i as int);
            }
        }
        array_sum = array_sum + x as i128;
        if current_sum + (x as i128) < x as i128 {
            current_sum = current_sum + x as i128;
        } else {
            current_sum = x as i128;
            proof {
                current_lo = i as int;
            }
        }
        if current_sum < min_subarray_sum {
            min_subarray_sum = current_sum;
            proof {
                least_lo = current_lo;
                least_hi = i + 1;
            }
        }
        proof {
            lemma_range_sum_empty(s, i + 1);
        }
        i += 1;
    }
    proof {
        assert(s.subrange(0, n as int) =~= s);
        // The circular range that leaves out the smallest range.
        lemma_circular_sum_complement(s, least_hi, n + least_lo);
        assert(is_circular_range(s.len(), least_hi, n + least_lo));
        assert forall|lo: int, hi: int| is_circular_range(s.len(), lo, hi) implies
            #[trigger] circular_sum(s, lo, hi) <= if max_seen >= array_sum - min_subarray_sum {
            max_seen as int
        } else {
            array_sum - min_subarray_sum
        } by {
            if hi <= n {
                lemma_range_is_circular(s, lo, hi);
            } else if lo >= n {
                lemma_circular_sum_turn(s, lo, hi);
                assert(is_range(s.len(), lo - n, hi - n));
            } else {
                lemma_circular_sum_complement(s, lo, hi);
                assert(is_range(n as nat, hi - n, lo));
            }
        }
        let (lo, hi) = choose|lo: int, hi: int|
            is_range(s.len(), lo, hi) && #[trigger] range_sum(s, lo, hi) == max_seen;
        lemma_range_is_circular(s, lo, hi);
    }
    let around: i128 = array_sum - min_subarray_sum;
    if max_seen as i128 >= around {
        max_seen
    } else {
        around as i32
    }
}

/// Returns the largest sum of a circular range of `arr`, by adding up every
/// circular range: for each start it walks once round the circle and keeps
/// a running sum.
pub fn get_max_subarray_brute_force_wrap_around(arr: &Vec<i32>) -> (best: i32)
    requires
        circular_sums_fit(arr@),
    ensures
        is_max_circular_sum(arr@, best as int),
{
    let ghost s = arr@;
    let n = arr.len();
    let mut max_seen: i32 = 0;
    let ghost mut best_lo: int = 0;
    let ghost mut best_hi: int = 0;
    proof {
        lemma_range_sum_empty(s + s, 0);
    }
    let mut i: usize = 0;
    while i < n
        invariant
            s == arr@,
            n == s.len(),
            i <= n,
            circular_sums_fit(s),
            is_circular_range(s.len(), best_lo, best_hi),
            max_seen == circular_sum(s, best_lo, best_hi),
            max_seen >= 0,
            forall|lo: int, hi: int|
                0 <= lo < i && is_circular_range(s.len(), lo, hi) ==> #[trigger] circular_sum(
                    s,
                    lo,
                    hi,
                ) <= max_seen,
        decreases n - i,
    {
        let mut current_sum: i128 = 0;
        let mut steps: usize = 0;
        proof {
            lemma_range_sum_empty(s + s, i as int);
        }
        while steps < n
            invariant
                s == arr@,
                n == s.len(),
                i < n,
                steps <= n,
                circular_sums_fit(s),
                current_sum == circular_sum(s, i as int, i + steps),
                is_circular_range(s.len(), best_lo, best_hi),
                max_seen == circular_sum(s, best_lo, best_hi),
                max_seen >= 0,
                forall|lo: int, hi: int|
                    0 <= lo < i && is_circular_range(s.len(), lo, hi) ==> #[trigger] circular_sum(
                        s,
                        lo,
                        hi,
                    ) <= max_seen,
                forall|hi: int|
                    i <= hi <= i + steps ==> #[trigger] circular_sum(s, i as int, hi) <= max_seen,
            decreases n - steps,
        {
            let j: usize = if steps < n - i {
                i + steps
            } else {
                steps - (n - i)
            };
            proof {
                lemma_range_sum_extend(s + s, i as int, i + steps);
                lemma_range_sum_bounds(
                    s + s,
                    i as int,
                    i + steps,
                    i32::MIN as int,
                    i32::MAX as int,
                );
                assert((s + s)[i + steps] == s[j as int]);
                assert(is_circular_range(s.len(), i as int, i + steps + 1));
            }
            current_sum = current_sum + arr[j] as i128;
            steps += 1;
            if current_sum > max_seen as i128 {
                max_seen = current_sum as i32;
                proof {
                    best_lo = i as int;
                    best_hi = i + steps;
                }
            }
        }
        i += 1;
    }
    proof {
        assert forall|lo: int, hi: int| is_circular_range(s.len(), lo, hi) implies
            #[trigger] circular_sum(s, lo, hi) <= max_seen by {
            if lo >= n {
                lemma_circular_sum_turn(s, lo, hi);
                if lo == 2 * n {
                    lemma_range_sum_empty(s, n as int);
                } else {
                    lemma_range_is_circular(s, lo - n, hi - n);
                }
            }
        }
    }
    max_seen
}

} // verus!
