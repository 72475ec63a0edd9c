//! A counter of ranks that answers how many of the ranks added so far lie
//! below a bound, in a number of steps that grows with the logarithm of the
//! number of ranks.
//!
//! The counter is a binary indexed tree. Node `idx`, counted from 1, holds
//! how many of the added ranks lie in the `low_bit(idx)` ranks below `idx`,
//! where `low_bit(idx)` is the value of the lowest bit set in `idx`.

use vstd::prelude::*;

verus! {

/// The number of entries of `ranks` that are less than `bound`.
pub open spec fn entries_below(ranks: Seq<usize>, bound: int) -> nat
    decreases ranks.len(),
{
    if ranks.len() == 0 {
        0
    } else {
        entries_below(ranks.drop_last(), bound) + if ranks.last() < bound {
            1nat
        } else {
            0nat
        }
    }
}

/// The value of the lowest bit that is set in `i`; for `i` from 1 on.
pub open spec fn low_bit(i: u64) -> u64 {
    i & !((i - 1) as u64)
}

/// How many of `added` node `idx` accounts for: those from `idx -
/// low_bit(idx)` up to, but not including, `idx`.
pub open spec fn node_total(added: Seq<usize>, idx: int) -> int {
    entries_below(added, idx) - entries_below(added, idx - low_bit(idx as u64))
}

/// No more entries lie below a bound than there are entries, and none lies
/// below 0.
pub proof fn lemma_entries_below_bounds(ranks: Seq<usize>, bound: int)
    ensures
        entries_below(ranks, bound) <= ranks.len(),
        bound <= 0 ==> entries_below(ranks, bound) == 0,
    decreases ranks.len(),
{
    if ranks.len() > 0 {
        lemma_entries_below_bounds(ranks.drop_last(), bound);
    }
}

/// One more entry adds one below every bound above it and nothing below
/// the others.
pub proof fn lemma_entries_below_push(ranks: Seq<usize>, rank: usize, bound: int)
    ensures
        entries_below(ranks.push(rank), bound) == entries_below(ranks, bound) + if rank < bound {
            1nat
        } else {
            0nat
        },
{
    assert(ranks.push(rank).drop_last() =~= ranks);
}

/// The lowest bit set in a number from 1 on is at least 1 and at most the
/// number.
proof fn lemma_low_bit_bounds(i: u64)
    by (bit_vector)
    requires
        i >= 1,
    ensures
        1 <= low_bit(i) <= i,
{
}

/// Between a node and the next node that accounts for the same rank, every
/// node accounts only for ranks above the first node.
proof fn lemma_low_bit_between(i: u64, k: u64)
    by (bit_vector)
    requires
        i >= 1,
        i < k,
        k - i < low_bit(i),
    ensures
        low_bit(k) <= k - i,
{
}

/// The next node reaches at least as far down as the node before it.
proof fn lemma_low_bit_next(i: u64, next: u64)
    by (bit_vector)
    requires
        i >= 1,
        next == i + low_bit(i),
    ensures
        low_bit(next) >= low_bit(i) + low_bit(i),
{
}

/// Returns the value of the lowest bit that is set in `i`.
fn lowest_bit(i: u64) -> (bit: u64)
    requires
        i >= 1,
    ensures
        bit == low_bit(i),
        1 <= bit <= i,
{
    proof {
        lemma_low_bit_bounds(i);
    }
    i & !(i - 1)
}

/// A counter of ranks below a fixed limit.
pub struct RankCounter {
    tree: Vec<usize>,
    added: Ghost<Seq<usize>>,
}

impl View for RankCounter {
    type V = Seq<usize>;

    /// The ranks added so far, in the order in which they were added.
    closed spec fn view(&self) -> Seq<usize> {
        self.added@
    }
}

impl RankCounter {
    /// The limit below which all ranks of this counter lie.
    pub closed spec fn limit(&self) -> nat {
        self.tree@.len()
    }

    /// Every node holds the number of added ranks that it accounts for.
    pub closed spec fn well_formed(&self) -> bool {
        &&& self.added@.len() <= usize::MAX
        &&& forall|k: int|
            0 <= k < self.added@.len() ==> #[trigger] self.added@[k] < self.tree@.len()
        &&& forall|k: int|
            0 <= k < self.tree@.len() ==> #[trigger] self.tree@[k] == node_total(self.added@, k + 1)
    }

    /// Returns a counter for the ranks below `limit`, with no rank added.
    pub fn new(limit: usize) -> (counter: Self)
        ensures
            counter.well_formed(),
            counter.limit() == limit,
            counter@ == Seq::<usize>::empty(),
    {
        let tree: Vec<usize> = vec![0usize; limit];
        RankCounter { tree, added: Ghost(Seq::empty()) }
    }

    /// Returns how many of the ranks added so far are less than `bound`.
    pub fn count_below(&self, bound: usize) -> (total: usize)
        requires
            self.well_formed(),
            bound <= self.limit(),
        ensures
            total == entries_below(self@, bound as int),
    {
        let ghost added = self.added@;
        let mut total: usize = 0;
        let mut idx: u64 = bound as u64;
        while idx > 0
            invariant
                self.well_formed(),
                added == self.added@,
                idx <= bound <= self.tree@.len(),
                total + entries_below(added, idx as int) == entries_below(added, bound as int),
            decreases idx,
        {
            proof {
                lemma_low_bit_bounds(idx);
                lemma_entries_below_bounds(added, bound as int);
                lemma_entries_below_bounds(added, idx as int - low_bit(idx));
            }
            total = total + self.tree[(idx - 1) as usize];
            idx = idx - lowest_bit(idx);
        }
        proof {
            lemma_entries_below_bounds(added, 0);
        }
        total
    }

    /// Adds `rank` to the counter.
    pub fn add(&mut self, rank: usize)
        requires
            old(self).well_formed(),
            rank < old(self).limit(),
            old(self)@.len() < usize::MAX,
        ensures
            final(self).well_formed(),
            final(self).limit() == old(self).limit(),
            final(self)@ == old(self)@.push(rank),
    {
        let ghost before = self.added@;
        let ghost after = before.push(rank);
        let n: u64 = self.tree.len() as u64;
        let mut idx: u64 = rank as u64 + 1;
        proof {
            lemma_low_bit_bounds(idx);
            assert forall|k: int| 0 <= k < rank implies #[trigger] self.tree@[k] == node_total(
                after,
                k + 1,
            ) by {
                lemma_low_bit_bounds((k + 1) as u64);
                lemma_entries_below_push(before, rank, k + 1);
                lemma_entries_below_push(before, rank, k + 1 - low_bit((k + 1) as u64));
            }
        }
        loop
            invariant_except_break
                1 <= idx <= n,
                idx - low_bit(idx) <= rank < idx,
                forall|k: int|
                    0 <= k < idx - 1 ==> #[trigger] self.tree@[k] == node_total(after, k + 1),
                forall|k: int|
                    idx - 1 <= k < n ==> #[trigger] self.tree@[k] == node_total(before, k + 1),
            invariant
                n == self.tree@.len(),
                n == old(self).tree@.len(),
                n <= usize::MAX,
                self.added@ == before,
                after == before.push(rank),
                before.len() < usize::MAX,
            ensures
                forall|k: int| 0 <= k < n ==> #[trigger] self.tree@[k] == node_total(after, k + 1),
            decreases n - idx,
        {
            let at: usize = (idx - 1) as usize;
            proof {
                lemma_entries_below_push(before, rank, idx as int);
                lemma_entries_below_push(before, rank, idx - low_bit(idx));
                lemma_entries_below_bounds(before, idx as int);
                lemma_entries_below_bounds(before, idx - low_bit(idx));
            }
            let held: usize = self.tree[at];
            self.tree.set(at, held + 1);
            let step: u64 = lowest_bit(idx);
            proof {
                assert forall|k: int| idx <= k < n && k < idx + step - 1 implies
                    #[trigger] self.tree@[k] == node_total(after, k + 1) by {
                    let node = (k + 1) as u64;
                    lemma_low_bit_between(idx, node);
                    lemma_entries_below_push(before, rank, k + 1);
                    lemma_entries_below_push(before, rank, k + 1 - low_bit(node));
                }
            }
            if step > n - idx {
                break;
            }
            proof {
                lemma_low_bit_next(idx, (idx + step) as u64);
            }
            idx = idx + step;
        }
        self.added = Ghost(after);
    }
}

} // verus!
