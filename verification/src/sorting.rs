//! Sorted sequences, and what a sequence shares with a sorted arrangement
//! of its entries.

use vstd::prelude::*;
use vstd::seq_lib::lemma_multiset_commutative;

verus! {

/// The entries of `s` ascend: none is larger than a later one.
pub open spec fn is_sorted(s: Seq<i32>) -> bool {
    forall|i: int, j: int| 0 <= i <= j < s.len() ==> s[i] <= s[j]
}

/// `t` holds the entries of `s`, each as often as `s` does, in ascending
/// order.
pub open spec fn is_sorted_arrangement(s: Seq<i32>, t: Seq<i32>) -> bool {
    &&& t.to_multiset() == s.to_multiset()
    &&& is_sorted(t)
}

/// A sequence has one sorted arrangement: two sequences that are each a
/// sorted arrangement of `s` are equal.
pub proof fn lemma_sorted_arrangement_unique(s: Seq<i32>, a: Seq<i32>, b: Seq<i32>)
    requires
        is_sorted_arrangement(s, a),
        is_sorted_arrangement(s, b),
    ensures
        a == b,
{
    let leq = |x: i32, y: i32| x <= y;
    assert(vstd::relations::total_ordering(leq));
    assert(vstd::relations::sorted_by(a, leq));
    assert(vstd::relations::sorted_by(b, leq));
    vstd::seq_lib::lemma_sorted_unique(a, b, leq);
}

/// Lays two sorted vectors together into one sorted vector.
fn merge(a: &Vec<i32>, b: &Vec<i32>) -> (out: Vec<i32>)
    requires
        is_sorted(a@),
        is_sorted(b@),
        a@.len() + b@.len() <= usize::MAX,
    ensures
        is_sorted(out@),
        out@.to_multiset() == a@.to_multiset().add(b@.to_multiset()),
{
    let mut out: Vec<i32> = Vec::with_capacity(a.len() + b.len());
    let mut i: usize = 0;
    let mut j: usize = 0;
    proof {
        lemma_multiset_commutative(a@.take(0), b@.take(0));
        assert(out@ =~= a@.take(0) + b@.take(0));
    }
    while i < a.len() || j < b.len()
        invariant
            is_sorted(a@),
            is_sorted(b@),
            i <= a@.len(),
            j <= b@.len(),
            out@.len() == i + j,
            is_sorted(out@),
            out@.to_multiset() == a@.take(i as int).to_multiset().add(
                b@.take(j as int).to_multiset(),
            ),
            forall|k: int| 0 <= k < out@.len() && i < a@.len() ==> out@[k] <= a@[i as int],
            forall|k: int| 0 <= k < out@.len() && j < b@.len() ==> out@[k] <= b@[j as int],
        decreases a@.len() - i + b@.len() - j,
    {
        let ghost before = out@;
        if j >= b.len() || (i < a.len() && a[i] <= b[j]) {
            out.push(a[i]);
            proof {
                broadcast use vstd::multiset::group_multiset_axioms;

                assert(a@.take(i + 1) =~= a@.take(i as int).push(a@[i as int]));
                a@.take(i as int).to_multiset_ensures();
                before.to_multiset_ensures();
                assert(out@.to_multiset() =~= a@.take(i + 1).to_multiset().add(
                    b@.take(j as int).to_multiset(),
                ));
            }
            i += 1;
        } else {
            out.push(b[j]);
            proof {
                broadcast use vstd::multiset::group_multiset_axioms;

                assert(b@.take(j + 1) =~= b@.take(j as int).push(b@[j as int]));
                b@.take(j as int).to_multiset_ensures();
                before.to_multiset_ensures();
                assert(out@.to_multiset() =~= a@.take(i as int).to_multiset().add(
                    b@.take(j + 1).to_multiset(),
                ));
            }
            j += 1;
        }
    }
    proof {
        assert(a@.take(i as int) =~= a@);
        assert(b@.take(j as int) =~= b@);
    }
    out
}

/// Returns the entries of `v` at the positions `lo <= k < hi`, sorted, by
/// sorting each half of the range and laying the halves together.
fn sorted_range(v: &Vec<i32>, lo: usize, hi: usize) -> (out: Vec<i32>)
    requires
        lo <= hi <= v@.len(),
    ensures
        is_sorted_arrangement(v@.subrange(lo as int, hi as int), out@),
    decreases hi - lo,
{
    let ghost part = v@.subrange(lo as int, hi as int);
    if hi - lo <= 1 {
        let mut out: Vec<i32> = Vec::new();
        if lo < hi {
            out.push(v[lo]);
        }
        assert(out@ =~= part);
        return out;
    }
    let mid: usize = lo + (hi - lo) / 2;
    let left = sorted_range(v, lo, mid);
    let right = sorted_range(v, mid, hi);
    proof {
        let first = v@.subrange(lo as int, mid as int);
        let second = v@.subrange(mid as int, hi as int);
        lemma_same_entries_same_length(first, left@);
        lemma_same_entries_same_length(second, right@);
        assert(first + second =~= part);
        lemma_multiset_commutative(first, second);
    }
    merge(&left, &right)
}

/// Returns the entries of `v` in ascending order.
pub fn sorted_copy(v: &Vec<i32>) -> (out: Vec<i32>)
    ensures
        is_sorted_arrangement(v@, out@),
{
    assert(v@.subrange(0, v@.len() as int) =~= v@);
    sorted_range(v, 0, v.len())
}

/// Two sequences with the same entries have the same length.
pub proof fn lemma_same_entries_same_length(s: Seq<i32>, t: Seq<i32>)
    requires
        t.to_multiset() == s.to_multiset(),
    ensures
        t.len() == s.len(),
{
    s.to_multiset_ensures();
    t.to_multiset_ensures();
}

/// Every entry of `s` stands somewhere in a sequence with the same entries.
pub proof fn lemma_entry_occurs(s: Seq<i32>, t: Seq<i32>, j: int) -> (k: int)
    requires
        t.to_multiset() == s.to_multiset(),
        0 <= j < s.len(),
    ensures
        0 <= k < t.len(),
        t[k] == s[j],
{
    vstd::seq_lib::to_multiset_contains(s, s[j]);
    vstd::seq_lib::to_multiset_contains(t, s[j]);
    assert(s.contains(s[j]));
    assert(t.contains(s[j]));
    choose|k: int| 0 <= k < t.len() && t[k] == s[j]
}

/// Two sequences with the same entries that agree before position `at`
/// have the same entries from `at` on.
pub proof fn lemma_same_entries_after(s: Seq<i32>, t: Seq<i32>, at: int)
    requires
        t.to_multiset() == s.to_multiset(),
        0 <= at <= s.len(),
        forall|k: int| 0 <= k < at ==> s[k] == t[k],
    ensures
        t.skip(at).to_multiset() == s.skip(at).to_multiset(),
{
    lemma_same_entries_same_length(s, t);
    lemma_multiset_commutative(s.take(at), s.skip(at));
    lemma_multiset_commutative(t.take(at), t.skip(at));
    assert(s.take(at) + s.skip(at) =~= s);
    assert(t.take(at) + t.skip(at) =~= t);
    assert(s.take(at) =~= t.take(at));
    let common = s.take(at).to_multiset();
    let rest_s = s.skip(at).to_multiset();
    let rest_t = t.skip(at).to_multiset();
    assert(common.add(rest_s) == common.add(rest_t));
    assert forall|v: i32| rest_s.count(v) == rest_t.count(v) by {
        assert(common.add(rest_s).count(v) == common.count(v) + rest_s.count(v));
        assert(common.add(rest_t).count(v) == common.count(v) + rest_t.count(v));
    }
    assert(rest_s =~= rest_t);
}

/// Two sequences with the same entries that agree from position `at` on
/// have the same entries before `at`.
pub proof fn lemma_same_entries_before(s: Seq<i32>, t: Seq<i32>, at: int)
    requires
        t.to_multiset() == s.to_multiset(),
        0 <= at <= s.len(),
        forall|k: int| at <= k < s.len() ==> s[k] == t[k],
    ensures
        t.take(at).to_multiset() == s.take(at).to_multiset(),
{
    lemma_same_entries_same_length(s, t);
    lemma_multiset_commutative(s.take(at), s.skip(at));
    lemma_multiset_commutative(t.take(at), t.skip(at));
    assert(s.take(at) + s.skip(at) =~= s);
    assert(t.take(at) + t.skip(at) =~= t);
    assert(s.skip(at) =~= t.skip(at));
    let common = s.skip(at).to_multiset();
    let rest_s = s.take(at).to_multiset();
    let rest_t = t.take(at).to_multiset();
    assert(rest_s.add(common) == rest_t.add(common));
    assert forall|v: i32| rest_s.count(v) == rest_t.count(v) by {
        assert(rest_s.add(common).count(v) == rest_s.count(v) + common.count(v));
        assert(rest_t.add(common).count(v) == rest_t.count(v) + common.count(v));
    }
    assert(rest_s =~= rest_t);
}

/// `rank` is the number of entries of the sorted sequence `t` that are
/// less than `v`: the entries before position `rank` are less than `v`, and
/// those from `rank` on are not.
pub open spec fn is_rank(t: Seq<i32>, v: i32, rank: int) -> bool {
    &&& 0 <= rank <= t.len()
    &&& forall|k: int| 0 <= k < rank ==> t[k] < v
    &&& forall|k: int| rank <= k < t.len() ==> t[k] >= v
}

/// A value has one rank in a sequence.
pub proof fn lemma_rank_unique(t: Seq<i32>, v: i32, a: int, b: int)
    requires
        is_rank(t, v, a),
        is_rank(t, v, b),
    ensures
        a == b,
{
    if a < b {
        assert(t[a] >= v);
    }
    if b < a {
        assert(t[b] >= v);
    }
}

/// Ranks order the entries of a sorted sequence as their values do: an
/// entry `x` has a lower rank than a value `v` exactly when it is less than
/// `v`. The rank of an entry is less than the length of the sequence.
pub proof fn lemma_rank_order(t: Seq<i32>, at: int, rank_x: int, v: i32, rank_v: int)
    requires
        0 <= at < t.len(),
        is_rank(t, t[at], rank_x),
        is_rank(t, v, rank_v),
    ensures
        rank_x < t.len(),
        rank_x < rank_v <==> t[at] < v,
{
    if rank_x < rank_v {
        assert(t[rank_x] >= t[at]);
        assert(t[rank_x] < v);
    }
}

/// Returns the rank of `v` in `sorted`, by halving the range in which the
/// first entry that is not less than `v` can stand.
pub fn rank_of(sorted: &Vec<i32>, v: i32) -> (rank: usize)
    requires
        is_sorted(sorted@),
    ensures
        is_rank(sorted@, v, rank as int),
{
    let mut low: usize = 0;
    let mut high: usize = sorted.len();
    while low < high
        invariant
            is_sorted(sorted@),
            low <= high <= sorted@.len(),
            forall|k: int| 0 <= k < low ==> sorted@[k] < v,
            forall|k: int| high <= k < sorted@.len() ==> sorted@[k] >= v,
        decreases high - low,
    {
        let mid: usize = low + (high - low) / 2;
        if sorted[mid] < v {
            low = mid + 1;
        } else {
            high = mid;
        }
    }
    low
}

} // verus!
