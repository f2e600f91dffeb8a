//! Ranked candidate sets: weighted entries with best-first access.
//!
//! Weights are fixed-point plausibility scores, so they are plain
//! integers and totally ordered. `RankedSet::peek` returns the entry of
//! greatest weight; among entries of equal weight the one inserted
//! first wins, so ranking is deterministic for a given insertion order.
use vstd::prelude::*;

verus! {

/// A payload tagged with the plausibility score that ranks it,
/// in hundred-thousandths.
pub struct WeightedData<T> {
    pub weight: i128,
    pub data: T,
}

/// A collection of weighted entries supporting best-first access.
pub struct RankedSet<T> {
    entries: Vec<WeightedData<T>>,
}

impl<T> View for RankedSet<T> {
    type V = Seq<WeightedData<T>>;

    closed spec fn view(&self) -> Seq<WeightedData<T>> {
        self.entries@
    }
}

/// The index of the entry `peek` hands out: the first entry whose weight
/// no other entry exceeds. Meaningful for nonempty sequences.
pub open spec fn best_index<T>(s: Seq<WeightedData<T>>) -> int
    decreases s.len(),
{
    if s.len() <= 1 {
        0
    } else {
        let p = best_index(s.drop_last());
        if s.last().weight > s[p].weight {
            s.len() - 1
        } else {
            p
        }
    }
}

/// `best_index` indeed names the first maximum: every entry weighs at
/// most as much, and every earlier entry weighs strictly less.
pub proof fn lemma_best_index_props<T>(s: Seq<WeightedData<T>>)
    requires
        s.len() > 0,
    ensures
        0 <= best_index(s) < s.len(),
        forall|j: int| 0 <= j < s.len() ==> (#[trigger] s[j].weight) <= s[best_index(s)].weight,
        forall|j: int| 0 <= j < best_index(s) ==> (#[trigger] s[j].weight) < s[best_index(s)].weight,
    decreases s.len(),
{
    if s.len() > 1 {
        let d = s.drop_last();
        lemma_best_index_props(d);
        let p = best_index(d);
        assert(forall|j: int| 0 <= j < d.len() ==> #[trigger] d[j] == s[j]);
        if s.last().weight > s[p].weight {
            assert(best_index(s) == s.len() - 1);
            assert forall|j: int| 0 <= j < s.len() - 1 implies (#[trigger] s[j].weight)
                < s[s.len() - 1].weight by {
                assert(s[j].weight == d[j].weight);
                assert(d[j].weight <= d[p].weight);
            }
        } else {
            assert(best_index(s) == p);
            assert forall|j: int| 0 <= j < s.len() implies (#[trigger] s[j].weight)
                <= s[p].weight by {
                if j < s.len() - 1 {
                    assert(d[j].weight <= d[p].weight);
                }
            }
            assert forall|j: int| 0 <= j < p implies (#[trigger] s[j].weight) < s[p].weight by {
                assert(d[j].weight < d[p].weight);
            }
        }
    }
}

impl<T> RankedSet<T> {
    /// An empty set.
    pub fn new() -> (r: RankedSet<T>)
        ensures
            r@ == Seq::<WeightedData<T>>::empty(),
    {
        RankedSet { entries: Vec::new() }
    }

    /// How many entries the set holds.
    pub fn len(&self) -> (n: usize)
        ensures
            n == self@.len(),
    {
        self.entries.len()
    }

    /// Adds one weighted entry.
    pub fn push(&mut self, w: WeightedData<T>)
        ensures
            final(self)@ == old(self)@.push(w),
    {
        self.entries.push(w);
    }

    /// The best entry: the first one of maximal weight, or `None` when
    /// the set is empty.
    pub fn peek(&self) -> (r: Option<&WeightedData<T>>)
        ensures
            self@.len() == 0 <==> r is None,
            self@.len() > 0 ==> (r matches Some(x) && *x == self@[best_index(self@)]),
    {
        if self.entries.len() == 0 {
            return None;
        }
        let mut bi: usize = 0;
        let mut i: usize = 1;
        while i < self.entries.len()
            invariant
                1 <= i <= self@.len(),
                0 <= bi < i,
                bi == best_index(self@.take(i as int)),
            decreases self@.len() - i,
        {
            proof {
                assert(self@.take(i + 1 as int).drop_last() =~= self@.take(i as int));
            }
            if self.entries[i].weight > self.entries[bi].weight {
                bi = i;
            }
            i += 1;
        }
        proof {
            assert(self@.take(self@.len() as int) =~= self@);
        }
        Some(&self.entries[bi])
    }
}

} // verus!
