use vstd::multiset::Multiset;
use vstd::prelude::*;

use crate::bitset::{random_below, BitSet};
use crate::heuristic::Heuristic;

verus! {

/// Whether position `p` of `slots` holds a cell that the most-constrained
/// rule picks: the first cell with the fewest candidates, among the cells
/// with at least one.
pub open spec fn most_constrained_at(slots: Seq<usize>, domains: Seq<BitSet>, p: int) -> bool {
    &&& 0 <= p < slots.len()
    &&& domains[slots[p] as int]@.len() > 0
    &&& forall|q: int|
        0 <= q < slots.len() && (#[trigger] domains[slots[q] as int])@.len() > 0
            ==> domains[slots[p] as int]@.len() <= domains[slots[q] as int]@.len()
    &&& forall|q: int|
        0 <= q < p ==> (#[trigger] domains[slots[q] as int])@.len() == 0 || domains[slots[p] as int]@.len()
            < domains[slots[q] as int]@.len()
}

/// Whether position `p` of `slots` holds a cell that the least-constrained
/// rule picks: the first cell with the most candidates, among the cells with
/// at least one.
pub open spec fn least_constrained_at(slots: Seq<usize>, domains: Seq<BitSet>, p: int) -> bool {
    &&& 0 <= p < slots.len()
    &&& domains[slots[p] as int]@.len() > 0
    &&& forall|q: int|
        0 <= q < slots.len() ==> (#[trigger] domains[slots[q] as int])@.len() <= domains[slots[p] as int]@.len()
    &&& forall|q: int|
        0 <= q < p ==> (#[trigger] domains[slots[q] as int])@.len() < domains[slots[p] as int]@.len()
}

/// The cells of the entries of a stack of taken slots, oldest first.
pub open spec fn taken_cells(t: Seq<(usize, usize)>) -> Seq<usize> {
    t.map_values(|e: (usize, usize)| e.1)
}

/// The blank cells still to fill, and a stack of the ones taken, each with
/// the position it was taken from, so that each step can be undone.
pub struct EmptySlots {
    slots: Vec<usize>,
    /// A vector working as a stack on which are pushed the taken slots
    taken_slots: Vec<(usize, usize)>,
    heuristic: Heuristic,
}

/// Taking the slot at position `p` onto the stack keeps the pool.
proof fn lemma_pool_take(s: Seq<usize>, t: Seq<(usize, usize)>, p: int)
    requires
        0 <= p < s.len(),
    ensures
        s.remove(p).to_multiset().add(taken_cells(t.push((p as usize, s[p]))).to_multiset())
            == s.to_multiset().add(taken_cells(t).to_multiset()),
{
    broadcast use vstd::multiset::group_multiset_axioms;
    broadcast use vstd::seq_lib::to_multiset_build, vstd::seq_lib::to_multiset_remove;

    assert(taken_cells(t.push((p as usize, s[p]))) =~= taken_cells(t).push(s[p]));
    assert(s.to_multiset().count(s[p]) > 0) by {
        vstd::seq_lib::to_multiset_contains(s, s[p]);
        assert(s.contains(s[p]));
    }
    assert(s.remove(p).to_multiset().add(taken_cells(t).push(s[p]).to_multiset())
        =~= s.to_multiset().add(taken_cells(t).to_multiset()));
}

/// Putting the top of the stack back into the list keeps the pool.
proof fn lemma_pool_put_back(s: Seq<usize>, t: Seq<(usize, usize)>)
    requires
        t.len() > 0,
        t.last().0 <= s.len(),
    ensures
        s.insert(t.last().0 as int, t.last().1).to_multiset().add(taken_cells(t.drop_last()).to_multiset())
            == s.to_multiset().add(taken_cells(t).to_multiset()),
{
    broadcast use vstd::multiset::group_multiset_axioms;
    broadcast use vstd::seq_lib::to_multiset_build, vstd::seq_lib::to_multiset_insert;

    assert(taken_cells(t) =~= taken_cells(t.drop_last()).push(t.last().1));
    assert(s.insert(t.last().0 as int, t.last().1).to_multiset().add(taken_cells(t.drop_last()).to_multiset())
        =~= s.to_multiset().add(taken_cells(t).to_multiset()));
}

impl EmptySlots {
    /// The cells still to fill, in order.
    pub closed spec fn slots_view(&self) -> Seq<usize> {
        self.slots@
    }

    /// The taken cells with their positions, oldest first.
    pub closed spec fn taken_view(&self) -> Seq<(usize, usize)> {
        self.taken_slots@
    }

    /// The rule that picks the next cell.
    pub closed spec fn heuristic_view(&self) -> Heuristic {
        self.heuristic
    }

    /// Every cell the scheduler holds, in the list or on the stack; no step
    /// adds or loses one.
    pub open spec fn pool(&self) -> Multiset<usize> {
        self.slots_view().to_multiset().add(taken_cells(self.taken_view()).to_multiset())
    }

    /// Each taken position can be put back: it was within the list when it
    /// was taken, and each later step changed the length by one.
    pub closed spec fn wf(&self) -> bool {
        forall|k: int|
            0 <= k < self.taken_slots@.len() ==> (#[trigger] self.taken_slots@[k]).0
                <= self.slots@.len() + (self.taken_slots@.len() - 1 - k)
    }

    /// A scheduler over `slots`, picking greedily, with nothing taken yet.
    pub fn from(slots: Vec<usize>) -> (r: Self)
        ensures
            r.wf(),
            r.slots_view() == slots@,
            r.taken_view() == Seq::<(usize, usize)>::empty(),
            r.heuristic_view() == Heuristic::Greedy,
            r.pool() == slots@.to_multiset(),
    {
        let r = EmptySlots { slots, taken_slots: Vec::new(), heuristic: Heuristic::Greedy };
        proof {
            broadcast use vstd::multiset::group_multiset_axioms;
            broadcast use vstd::seq_lib::to_multiset_len;

            assert(taken_cells(r.taken_slots@) =~= Seq::<usize>::empty());
            assert(taken_cells(r.taken_slots@).to_multiset().len() == 0);
            vstd::multiset::lemma_multiset_empty_len(taken_cells(r.taken_slots@).to_multiset());
            assert(r.pool() =~= r.slots@.to_multiset());
        }
        r
    }

    pub fn set_heuristic(&mut self, heuristic: &Heuristic)
        ensures
            final(self).heuristic_view() == *heuristic,
            final(self).slots_view() == old(self).slots_view(),
            final(self).taken_view() == old(self).taken_view(),
            final(self).wf() == old(self).wf(),
    {
        self.heuristic = *heuristic;
    }

    /// The number of cells still to fill.
    pub fn remaining(&self) -> (r: usize)
        ensures
            r == self.slots_view().len(),
    {
        self.slots.len()
    }

    /// The position of the first cell with the fewest candidates, among the
    /// cells with at least one.
    fn most_constrained(&self, domains: &[BitSet]) -> (r: Option<usize>)
        requires
            forall|k: int| 0 <= k < self.slots@.len() ==> #[trigger] self.slots@[k] < domains@.len(),
        ensures
            r matches Some(p) ==> most_constrained_at(self.slots@, domains@, p as int),
            r is None ==> forall|q: int|
                0 <= q < self.slots@.len() ==> (#[trigger] domains@[self.slots@[q] as int])@.len() == 0,
    {
        let mut best: Option<usize> = None;
        let mut best_len: usize = 0;
        let mut q: usize = 0;
        while q < self.slots.len()
            invariant
                forall|k: int| 0 <= k < self.slots@.len() ==> #[trigger] self.slots@[k] < domains@.len(),
                q <= self.slots@.len(),
                best matches Some(p) ==> {
                    &&& p < q
                    &&& best_len == domains@[self.slots@[p as int] as int]@.len()
                    &&& best_len > 0
                    &&& forall|k: int| 0 <= k < q && (#[trigger] domains@[self.slots@[k] as int])@.len() > 0 ==> best_len <= domains@[self.slots@[k] as int]@.len()
                    &&& forall|k: int| 0 <= k < p ==> (#[trigger] domains@[self.slots@[k] as int])@.len() == 0 || best_len < domains@[self.slots@[k] as int]@.len()
                },
                best is None ==> forall|k: int| 0 <= k < q ==> (#[trigger] domains@[self.slots@[k] as int])@.len() == 0,
            decreases self.slots@.len() - q,
        {
            let n = domains[self.slots[q]].len();
            if n != 0 && (best.is_none() || n < best_len) {
                best = Some(q);
                best_len = n;
            }
            q = q + 1;
        }
        best
    }

    /// The position of the first cell with the most candidates, if it has
    /// at least one.
    fn least_constrained(&self, domains: &[BitSet]) -> (r: Option<usize>)
        requires
            forall|k: int| 0 <= k < self.slots@.len() ==> #[trigger] self.slots@[k] < domains@.len(),
        ensures
            r matches Some(p) ==> least_constrained_at(self.slots@, domains@, p as int),
            r is None ==> forall|q: int|
                0 <= q < self.slots@.len() ==> (#[trigger] domains@[self.slots@[q] as int])@.len() == 0,
    {
        if self.slots.len() == 0 {
            return None;
        }
        let mut best: usize = 0;
        let mut best_len: usize = domains[self.slots[0]].len();
        let mut q: usize = 1;
        while q < self.slots.len()
            invariant
                forall|k: int| 0 <= k < self.slots@.len() ==> #[trigger] self.slots@[k] < domains@.len(),
                1 <= q <= self.slots@.len(),
                best < q,
                best_len == domains@[self.slots@[best as int] as int]@.len(),
                forall|k: int| 0 <= k < q ==> (#[trigger] domains@[self.slots@[k] as int])@.len() <= best_len,
                forall|k: int| 0 <= k < best ==> (#[trigger] domains@[self.slots@[k] as int])@.len() < best_len,
            decreases self.slots@.len() - q,
        {
            let n = domains[self.slots[q]].len();
            if n > best_len {
                best = q;
                best_len = n;
            }
            q = q + 1;
        }
        if best_len == 0 {
            return None;
        }
        Some(best)
    }

    /// Takes the next cell to fill, by the heuristic, and records it. The
    /// two rules by candidate count pass over cells with no candidate. `None`
    /// when no cell is left, or, for those two rules, when every cell left
    /// has no candidate.
    pub fn next(&mut self, domains: &[BitSet]) -> (r: Option<usize>)
        requires
            old(self).wf(),
            forall|k: int|
                0 <= k < old(self).slots_view().len() ==> #[trigger] old(self).slots_view()[k]
                    < domains@.len(),
        ensures
            final(self).wf(),
            final(self).heuristic_view() == old(self).heuristic_view(),
            final(self).pool() == old(self).pool(),
            ({
                let s = old(self).slots_view();
                let h = old(self).heuristic_view();
                match r {
                    Some(slot) => {
                        let p = final(self).taken_view().last().0 as int;
                        &&& 0 <= p < s.len()
                        &&& slot == s[p]
                        &&& final(self).slots_view() == s.remove(p)
                        &&& final(self).taken_view() == old(self).taken_view().push((p as usize, slot))
                        &&& h == Heuristic::Greedy ==> p == 0
                        &&& h == Heuristic::Reverse ==> p == s.len() - 1
                        &&& h == Heuristic::MostConstrainedVariable ==> most_constrained_at(s, domains@, p)
                        &&& h == Heuristic::LeastConstrainedVariable ==> least_constrained_at(s, domains@, p)
                    },
                    None => {
                        &&& final(self).slots_view() == s
                        &&& final(self).taken_view() == old(self).taken_view()
                        &&& (s.len() == 0 || ((h == Heuristic::MostConstrainedVariable || h
                            == Heuristic::LeastConstrainedVariable) && forall|q: int|
                            0 <= q < s.len() ==> (#[trigger] domains@[s[q] as int])@.len() == 0))
                    },
                }
            }),
    {
        if self.slots.len() == 0 {
            return None;
        }
        let len = self.slots.len();
        proof {
            assert forall|k: int| 0 <= k < self.slots@.len() implies #[trigger] self.slots@[k] < domains@.len() by {
                assert(old(self).slots_view()[k] == self.slots@[k]);
            }
        }
        let pos = match self.heuristic {
            Heuristic::Greedy => 0,
            Heuristic::Reverse => len - 1,
            Heuristic::Random => random_below(len),
            Heuristic::MostConstrainedVariable => {
                match self.most_constrained(domains) {
                    Some(p) => p,
                    None => {
                        return None;
                    },
                }
            },
            Heuristic::LeastConstrainedVariable => {
                match self.least_constrained(domains) {
                    Some(p) => p,
                    None => {
                        return None;
                    },
                }
            },
        };
        let slot = self.slots.remove(pos);
        self.taken_slots.push((pos, slot));
        proof {
            let p = pos as int;
            assert(0 <= p < old(self).slots@.len());
            assert(slot == old(self).slots@[p]);
            assert(self.slots@ == old(self).slots@.remove(p));
            assert(self.taken_slots@ == old(self).taken_slots@.push((pos, slot)));
            lemma_pool_take(old(self).slots@, old(self).taken_slots@, p);
            assert forall|k: int|
                0 <= k < self.taken_slots@.len() implies (#[trigger] self.taken_slots@[k]).0
                <= self.slots@.len() + (self.taken_slots@.len() - 1 - k) by {
                if k < self.taken_slots@.len() - 1 {
                    assert(self.taken_slots@[k] == old(self).taken_slots@[k]);
                }
            }
        }
        Some(slot)
    }

    /// Puts back the cell taken last, then the one taken before it, and
    /// returns the latter to be tried again. `None` when fewer than two cells
    /// were taken (the one taken, if any, is put back).
    pub fn backtrack(&mut self) -> (r: Option<usize>)
        requires
            old(self).wf(),
        ensures
            final(self).wf(),
            final(self).heuristic_view() == old(self).heuristic_view(),
            final(self).pool() == old(self).pool(),
            old(self).taken_view().len() >= 1 ==> old(self).taken_view().last().0 <= old(self).slots_view().len(),
            old(self).taken_view().len() >= 2 ==> old(self).taken_view()[old(self).taken_view().len() - 2].0
                <= old(self).slots_view().len() + 1,
            ({
                let s = old(self).slots_view();
                let t = old(self).taken_view();
                let n = t.len();
                if n == 0 {
                    &&& r is None
                    &&& final(self).slots_view() == s
                    &&& final(self).taken_view() == t
                } else if n == 1 {
                    &&& r is None
                    &&& final(self).slots_view() == s.insert(t[0].0 as int, t[0].1)
                    &&& final(self).taken_view() == Seq::<(usize, usize)>::empty()
                } else {
                    &&& r == Some(t[n - 2].1)
                    &&& final(self).slots_view() == s.insert(t[n - 1].0 as int, t[n - 1].1).insert(
                        t[n - 2].0 as int,
                        t[n - 2].1,
                    )
                    &&& final(self).taken_view() == t.subrange(0, n - 2)
                }
            }),
    {
        if self.taken_slots.len() == 0 {
            return None;
        }
        proof {
            let n = self.taken_slots@.len();
            assert(self.taken_slots@[n - 1].0 <= self.slots@.len());
            if n >= 2 {
                assert(self.taken_slots@[n - 2].0 <= self.slots@.len() + 1);
            }
        }
        // remove the current one from the stack
        let ghost s0 = self.slots@;
        let ghost t0 = self.taken_slots@;
        let (idx, slot) = self.taken_slots.pop().unwrap();
        self.slots.insert(idx, slot);
        proof {
            assert forall|k: int|
                0 <= k < self.taken_slots@.len() implies (#[trigger] self.taken_slots@[k]).0
                <= self.slots@.len() + (self.taken_slots@.len() - 1 - k) by {
                assert(self.taken_slots@[k] == old(self).taken_slots@[k]);
            }
            assert(self.taken_slots@ =~= t0.drop_last());
            lemma_pool_put_back(s0, t0);
        }
        // go back to the previous value
        if self.taken_slots.len() == 0 {
            proof {
                assert(self.taken_slots@ =~= Seq::<(usize, usize)>::empty());
            }
            return None;
        }
        let ghost mid = self.taken_slots@;
        let ghost s1 = self.slots@;
        let (idx, slot) = self.taken_slots.pop().unwrap();
        self.slots.insert(idx, slot);
        proof {
            assert(self.taken_slots@ =~= mid.drop_last());
            lemma_pool_put_back(s1, mid);
            assert(self.taken_slots@ =~= old(self).taken_slots@.subrange(0, old(self).taken_slots@.len() - 2));
            assert forall|k: int|
                0 <= k < self.taken_slots@.len() implies (#[trigger] self.taken_slots@[k]).0
                <= self.slots@.len() + (self.taken_slots@.len() - 1 - k) by {
                assert(self.taken_slots@[k] == mid[k]);
            }
        }
        Some(slot)
    }
}

} // verus!
