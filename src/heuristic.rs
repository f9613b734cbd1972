use vstd::prelude::*;

use crate::bitset::BitSet;

verus! {

/// How the next cell, or the next candidate value, is chosen.
#[derive(Debug, Clone, Copy, PartialEq, Eq, Structural)]
pub enum Heuristic {
    Greedy,
    Random,
    Reverse,
    MostConstrainedVariable,
    LeastConstrainedVariable,
}

/// The heuristics that hand out the smallest candidate first.
pub open spec fn ascending(h: Heuristic) -> bool {
    h == Heuristic::Greedy || h == Heuristic::MostConstrainedVariable
        || h == Heuristic::LeastConstrainedVariable
}

/// A candidate set that can hand out values under a heuristic.
pub trait HeuristicDomainOperations {
    /// The values still available.
    spec fn candidates(&self) -> Set<u32>;

    /// A candidate chosen by `heuristic`, or 0 when none is left.
    fn next(&self, heuristic: &Heuristic) -> (r: u32)
        ensures
            self.candidates().len() == 0 ==> r == 0,
            self.candidates().len() > 0 ==> self.candidates().contains(r),
            ascending(*heuristic) ==> forall|x: u32| self.candidates().contains(x) ==> r <= x,
            *heuristic == Heuristic::Reverse ==> forall|x: u32|
                self.candidates().contains(x) ==> x <= r,
    ;

    fn remove(&mut self, v: u32)
        requires
            v < 64,
        ensures
            final(self).candidates() == old(self).candidates().remove(v),
    ;
}

impl BitSet {
    /// What `pick` returns under `h`: the smallest member for the ascending
    /// heuristics, the largest for `Reverse`, any member for `Random`; 0 when
    /// the set is empty.
    pub open spec fn picks(self, h: Heuristic, r: u32) -> bool {
        if self.elems().len() == 0 {
            r == 0
        } else {
            match h {
                Heuristic::Random => self@.contains(r),
                Heuristic::Reverse => r == self.elems().last(),
                _ => r == self.elems()[0],
            }
        }
    }

    /// The candidate that `h` chooses, or 0 when the set is empty.
    pub fn pick(self, h: &Heuristic) -> (r: u32)
        ensures
            self.picks(*h, r),
            self@.len() == 0 ==> r == 0,
            self@.len() > 0 ==> self@.contains(r),
            ascending(*h) ==> forall|x: u32| self@.contains(x) ==> r <= x,
            *h == Heuristic::Reverse ==> forall|x: u32| self@.contains(x) ==> x <= r,
    {
        proof {
            self.lemma_elems();
        }
        let r = match h {
            Heuristic::Random => self.random(),
            Heuristic::Reverse => self.last(),
            _ => self.current(),
        };
        proof {
            let e = self.elems();
            if e.len() > 0 {
                assert(e.contains(e[0]));
                assert(e.contains(e.last()));
                assert forall|x: u32| self@.contains(x) implies e[0] <= x && x <= e.last() by {
                    assert(e.to_set().contains(x));
                    let k = choose|k: int| 0 <= k < e.len() && e[k] == x;
                    if k > 0 {
                        assert(e[0] < e[k]);
                    }
                    if k < e.len() - 1 {
                        assert(e[k] < e[e.len() - 1]);
                    }
                }
            }
        }
        r
    }
}

impl HeuristicDomainOperations for BitSet {
    open spec fn candidates(&self) -> Set<u32> {
        self@
    }

    fn next(&self, heuristic: &Heuristic) -> (r: u32) {
        proof {
            self.lemma_elems();
        }
        self.pick(heuristic)
    }

    fn remove(&mut self, v: u32) {
        BitSet::remove(self, v)
    }
}

} // verus!
