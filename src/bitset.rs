use vstd::prelude::*;

use crate::heuristic::{ascending, Heuristic};

verus! {

/// Whether bit `k` of `s` is set.
pub open spec fn has_bit(s: u64, k: u64) -> bool {
    (s >> k) & 1u64 == 1u64
}

/// The members of the bit pattern `s` that are below `i`, in ascending order.
pub open spec fn members_below(s: u64, i: nat) -> Seq<u32>
    decreases i,
{
    if i == 0 {
        Seq::empty()
    } else {
        let prev = members_below(s, (i - 1) as nat);
        if has_bit(s, (i - 1) as u64) {
            prev.push((i - 1) as u32)
        } else {
            prev
        }
    }
}

/// A set of the integers `0..64`, one bit per value.
#[derive(Debug, Clone, Copy, PartialEq, Eq, Structural)]
pub struct BitSet {
    set: u64,
}

impl View for BitSet {
    type V = Set<u32>;

    open spec fn view(&self) -> Set<u32> {
        Set::new(|k: u32| k < 64 && has_bit(self.bits(), k as u64))
    }
}

proof fn lemma_members_below(s: u64, i: nat)
    requires
        i <= 64,
    ensures
        forall|j: int| 0 <= j < members_below(s, i).len() ==> members_below(s, i)[j] < i,
        forall|j: int, k: int|
            0 <= j < k < members_below(s, i).len() ==> members_below(s, i)[j] < members_below(
                s,
                i,
            )[k],
        forall|k: u32| members_below(s, i).contains(k) <==> (k < i && has_bit(s, k as u64)),
        members_below(s, i).len() <= i,
    decreases i,
{
    if i > 0 {
        lemma_members_below(s, (i - 1) as nat);
        let prev = members_below(s, (i - 1) as nat);
        let cur = members_below(s, i);
        assert forall|k: u32| cur.contains(k) <==> (k < i && has_bit(s, k as u64)) by {
            if has_bit(s, (i - 1) as u64) {
                if k == (i - 1) as u32 {
                    assert(cur[prev.len() as int] == k);
                }
                if cur.contains(k) && k != (i - 1) as u32 {
                    let j = choose|j: int| 0 <= j < cur.len() && cur[j] == k;
                    assert(prev[j] == k);
                }
                if prev.contains(k) {
                    let j = choose|j: int| 0 <= j < prev.len() && prev[j] == k;
                    assert(cur[j] == k);
                }
            }
        }
    }
}

/// Relies on rand's `thread_rng().gen_range(low, high)`: a value in `low..high`;
/// it panics when `low >= high`, which `requires` rules out.
#[verifier::external_body]
pub(crate) fn random_below(n: usize) -> (r: usize)
    requires
        n > 0,
    ensures
        r < n,
{
    rand::Rng::gen_range(&mut rand::thread_rng(), 0, n)
}


/// Inserting a value that is not a member and then removing it gives back
/// the set; once inserted, a value is among the members that iteration
/// yields.
pub proof fn lemma_insert_remove(s: BitSet, t: BitSet, v: u32)
    requires
        v < 64,
        t@ == s@.insert(v),
    ensures
        !s@.contains(v) ==> t@.remove(v) == s@,
        t.elems().contains(v),
{
    if !s@.contains(v) {
        assert(t@.remove(v) =~= s@);
    }
    t.lemma_elems();
    assert(t.elems().to_set().contains(v));
}

/// The number of members is the number of values that iteration yields.
pub proof fn lemma_len_is_iteration_count(s: BitSet)
    ensures
        s@.len() == s.elems().len(),
{
    s.lemma_elems();
}

/// Two strictly ascending sequences with the same members are equal.
proof fn lemma_sorted_eq(a: Seq<u32>, b: Seq<u32>)
    requires
        forall|j: int, k: int| 0 <= j < k < a.len() ==> a[j] < a[k],
        forall|j: int, k: int| 0 <= j < k < b.len() ==> b[j] < b[k],
        forall|x: u32| a.contains(x) <==> b.contains(x),
    ensures
        a == b,
    decreases a.len(),
{
    if a.len() == 0 {
        if b.len() > 0 {
            assert(b.contains(b[0]));
        }
        assert(a =~= b);
    } else {
        assert(a.contains(a[0]));
        assert(b.len() > 0);
        assert(b.contains(b[0]));
        let k = choose|k: int| 0 <= k < b.len() && b[k] == a[0];
        let j = choose|j: int| 0 <= j < a.len() && a[j] == b[0];
        if k > 0 {
            assert(b[0] < b[k]);
        }
        if j > 0 {
            assert(a[0] < a[j]);
        }
        let a1 = a.drop_first();
        let b1 = b.drop_first();
        assert forall|x: u32| a1.contains(x) <==> b1.contains(x) by {
            if a1.contains(x) {
                let m = choose|m: int| 0 <= m < a1.len() && a1[m] == x;
                assert(a[m + 1] == x);
                assert(a.contains(x));
                let n = choose|n: int| 0 <= n < b.len() && b[n] == x;
                assert(a[0] < a[m + 1]);
                assert(n != 0);
                assert(b1[n - 1] == x);
            }
            if b1.contains(x) {
                let m = choose|m: int| 0 <= m < b1.len() && b1[m] == x;
                assert(b[m + 1] == x);
                assert(b.contains(x));
                let n = choose|n: int| 0 <= n < a.len() && a[n] == x;
                assert(b[0] < b[m + 1]);
                assert(n != 0);
                assert(a1[n - 1] == x);
            }
        }
        lemma_sorted_eq(a1, b1);
        assert(a.len() == b.len());
        assert forall|i: int| 0 <= i < a.len() implies a[i] == b[i] by {
            if i > 0 {
                assert(a[i] == a1[i - 1]);
                assert(b[i] == b1[i - 1]);
            }
        }
        assert(a =~= b);
    }
}

impl BitSet {
    /// The raw bit pattern.
    pub closed spec fn bits(&self) -> u64 {
        self.set
    }

    /// The members in ascending order.
    pub open spec fn elems(&self) -> Seq<u32> {
        members_below(self.bits(), 64)
    }

    /// The ascending sequence holds each member once, and nothing else.
    pub proof fn lemma_elems(&self)
        ensures
            self.elems().no_duplicates(),
            forall|j: int, k: int|
                0 <= j < k < self.elems().len() ==> self.elems()[j] < self.elems()[k],
            forall|j: int| 0 <= j < self.elems().len() ==> self.elems()[j] < 64,
            self.elems().to_set() == self@,
            self@.finite(),
            self.elems().len() == self@.len(),
            self@.len() <= 64,
    {
        lemma_members_below(self.set, 64);
        let e = self.elems();
        assert(e.to_set() =~= self@);
        e.unique_seq_to_set();
    }

    pub fn new() -> (r: Self)
        ensures
            r@ == Set::<u32>::empty(),
    {
        let r = BitSet { set: 0 };
        assert(r@ =~= Set::<u32>::empty()) by {
            assert forall|k: u64| k < 64 implies !has_bit(0u64, k) by {
                assert((0u64 >> k) & 1u64 == 0u64) by (bit_vector);
            }
        }
        r
    }

    pub fn insert(&mut self, n: u32)
        requires
            n < 64,
        ensures
            final(self)@ == old(self)@.insert(n),
    {
        let s = self.set;
        let m = n as u64;
        self.set = s | (1u64 << m);
        let t = self.set;
        assert forall|k: u64| k < 64 implies has_bit(t, k) == (has_bit(s, k) || k == m) by {
            assert(t == s | (1u64 << m));
            assert(m < 64 && k < 64 ==> (((s | (1u64 << m)) >> k) & 1u64 == 1u64 <==> ((s >> k)
                & 1u64 == 1u64 || k == m))) by (bit_vector);
        }
        assert(final(self)@ =~= old(self)@.insert(n));
    }

    pub fn remove(&mut self, n: u32)
        requires
            n < 64,
        ensures
            final(self)@ == old(self)@.remove(n),
    {
        let s = self.set;
        let m = n as u64;
        self.set = s & !(1u64 << m);
        let t = self.set;
        assert forall|k: u64| k < 64 implies has_bit(t, k) == (has_bit(s, k) && k != m) by {
            assert(t == s & !(1u64 << m));
            assert(m < 64 && k < 64 ==> (((s & !(1u64 << m)) >> k) & 1u64 == 1u64 <==> ((s >> k)
                & 1u64 == 1u64 && k != m))) by (bit_vector);
        }
        assert(final(self)@ =~= old(self)@.remove(n));
    }

    /// The number of members.
    pub fn len(self) -> (r: usize)
        ensures
            r == self@.len(),
            r == self.elems().len(),
    {
        let mut count: usize = 0;
        let mut i: u64 = 0;
        while i < 64
            invariant
                i <= 64,
                count == members_below(self.set, i as nat).len(),
                count <= i,
            decreases 64 - i,
        {
            proof {
                lemma_members_below(self.set, i as nat);
            }
            if (self.set >> i) & 1u64 == 1u64 {
                count = count + 1;
            }
            i = i + 1;
        }
        proof {
            self.lemma_elems();
        }
        count
    }

    pub fn is_empty(self) -> (r: bool)
        ensures
            r == (self@.len() == 0),
            r == (self@ == Set::<u32>::empty()),
    {
        proof {
            self.lemma_elems();
            if self@.len() == 0 {
                assert(self@ =~= Set::<u32>::empty());
            }
        }
        self.len() == 0
    }

    /// The smallest member, or 0 when the set is empty.
    pub fn current(self) -> (r: u32)
        ensures
            r == (if self.elems().len() == 0 {
                0
            } else {
                self.elems()[0]
            }),
    {
        proof {
            vstd::std_specs::bits::axiom_u64_trailing_zeros(self.set);
            self.lemma_elems();
            lemma_members_below(self.set, 64);
        }
        let t = self.set.trailing_zeros();
        let r = t & !64u32;
        assert(t <= 64 ==> (t == 64 ==> t & !64u32 == 0) && (t < 64 ==> t & !64u32 == t))
            by (bit_vector);
        proof {
            let e = self.elems();
            if t < 64 {
                assert(self@.contains(t));
                assert(e.contains(t));
                let j = choose|j: int| 0 <= j < e.len() && e[j] == t;
                assert(e.contains(e[0]));
                let k0 = e[0];
                if k0 < t {
                    assert((self.set >> (k0 as u64)) & 1u64 == 0u64);
                }
                if j > 0 {
                    assert(e[0] < e[j]);
                }
            } else {
                if e.len() > 0 {
                    assert(e.contains(e[0]));
                    let k0 = e[0];
                    assert((self.set >> (k0 as u64)) & 1u64 == 0u64);
                }
            }
        }
        r
    }

    /// The members in ascending order, taken from a copy of the set.
    pub fn iter(self) -> (r: Vec<u32>)
        ensures
            r@ == self.elems(),
    {
        let mut out: Vec<u32> = Vec::new();
        let mut i: u64 = 0;
        while i < 64
            invariant
                i <= 64,
                out@ == members_below(self.set, i as nat),
            decreases 64 - i,
        {
            if (self.set >> i) & 1u64 == 1u64 {
                out.push(i as u32);
            }
            i = i + 1;
        }
        out
    }

    /// The largest member, or 0 when the set is empty.
    pub fn last(self) -> (r: u32)
        ensures
            r == (if self.elems().len() == 0 {
                0
            } else {
                self.elems().last()
            }),
    {
        let v = self.iter();
        if v.len() == 0 {
            0
        } else {
            v[v.len() - 1]
        }
    }

    /// The member at position `pos` in ascending order, or 0 past the end.
    pub fn nth(self, pos: usize) -> (r: u32)
        ensures
            r == (if pos < self.elems().len() {
                self.elems()[pos as int]
            } else {
                0
            }),
    {
        let v = self.iter();
        if pos < v.len() {
            v[pos]
        } else {
            0
        }
    }

    /// A member drawn at random, or 0 when the set is empty.
    pub fn random(self) -> (r: u32)
        ensures
            self@.len() == 0 ==> r == 0,
            self@.len() > 0 ==> self@.contains(r),
    {
        let len = self.len();
        if len == 0 {
            return 0;
        }
        let pos = random_below(len);
        proof {
            self.lemma_elems();
            assert(self.elems().contains(self.elems()[pos as int]));
        }
        self.nth(pos)
    }

    /// The members in the order that `heuristic` hands them out, taken from
    /// a copy of the set: each next one is what `pick` gives on what is left.
    pub fn iter_h(self, heuristic: &Heuristic) -> (r: Vec<u32>)
        ensures
            r@.len() == self@.len(),
            r@.no_duplicates(),
            forall|x: u32| r@.contains(x) <==> self@.contains(x),
            r@.len() > 0 ==> self.picks(*heuristic, r@[0]),
            ascending(*heuristic) ==> r@ == self.elems(),
            *heuristic == Heuristic::Reverse ==> r@ == self.elems().reverse(),
    {
        let mut current = self;
        let mut out: Vec<u32> = Vec::new();
        proof {
            self.lemma_elems();
        }
        while !current.is_empty()
            invariant
                current@.finite(),
                current@.subset_of(self@),
                out@.no_duplicates(),
                forall|x: u32| out@.contains(x) <==> (self@.contains(x) && !current@.contains(x)),
                out@.len() + current@.len() == self@.len(),
                out@.len() > 0 ==> self.picks(*heuristic, out@[0]),
                out@.len() == 0 ==> current == self,
                ascending(*heuristic) ==> forall|j: int, k: int| 0 <= j < k < out@.len() ==> out@[j] < out@[k],
                ascending(*heuristic) ==> forall|j: int, x: u32| 0 <= j < out@.len() && current@.contains(x) ==> out@[j] < x,
                *heuristic == Heuristic::Reverse ==> forall|j: int, k: int| 0 <= j < k < out@.len() ==> out@[j] > out@[k],
                *heuristic == Heuristic::Reverse ==> forall|j: int, x: u32| 0 <= j < out@.len() && current@.contains(x) ==> out@[j] > x,
            decreases current@.len(),
        {
            proof {
                current.lemma_elems();
            }
            let next = current.pick(heuristic);
            proof {
                assert(current@.contains(next));
                assert(!out@.contains(next));
            }
            let ghost cur0 = current@;
            let ghost out0 = out@;
            current.remove(next);
            out.push(next);
            proof {
                assert forall|x: u32| out@.contains(x) <==> (self@.contains(x) && !current@.contains(x)) by {
                    if out@.contains(x) && x != next {
                        let k = choose|k: int| 0 <= k < out@.len() && out@[k] == x;
                        assert(out@.drop_last()[k] == x);
                    }
                    if x != next && self@.contains(x) && !current@.contains(x) {
                        let old_out = out@.drop_last();
                        assert(old_out == out0);
                        assert(!cur0.contains(x));
                        assert(old_out.contains(x));
                        let k = choose|k: int| 0 <= k < old_out.len() && old_out[k] == x;
                        assert(out@[k] == x);
                    }
                    if x == next {
                        assert(out@[out@.len() - 1] == x);
                    }
                }
            }
        }
        proof {
            current.lemma_elems();
            self.lemma_elems();
            let e = self.elems();
            assert forall|x: u32| e.contains(x) <==> self@.contains(x) by {
                assert(e.to_set().contains(x) == e.contains(x));
            }
            if ascending(*heuristic) {
                lemma_sorted_eq(out@, e);
            }
            if *heuristic == Heuristic::Reverse {
                let rv = out@.reverse();
                assert forall|j: int, k: int| 0 <= j < k < rv.len() implies rv[j] < rv[k] by {
                    assert(rv[j] == out@[out@.len() - 1 - j]);
                    assert(rv[k] == out@[out@.len() - 1 - k]);
                }
                assert forall|x: u32| rv.contains(x) <==> out@.contains(x) by {
                    if rv.contains(x) {
                        let j = choose|j: int| 0 <= j < rv.len() && rv[j] == x;
                        assert(out@[out@.len() - 1 - j] == x);
                    }
                    if out@.contains(x) {
                        let j = choose|j: int| 0 <= j < out@.len() && out@[j] == x;
                        assert(rv[out@.len() - 1 - j] == x);
                    }
                }
                lemma_sorted_eq(rv, e);
                assert(out@ =~= rv.reverse());
            }
        }
        out
    }
}


/// A candidate set that hands out its values in ascending order.
pub trait DomainOperations {
    /// The values still available.
    spec fn members(&self) -> Set<u32>;

    /// The smallest value left, or 0 when none is.
    fn next(&self) -> (r: u32)
        ensures
            self.members().len() == 0 ==> r == 0,
            self.members().len() > 0 ==> self.members().contains(r),
            forall|x: u32| self.members().contains(x) ==> r <= x,
    ;

    fn remove(&mut self, v: u32)
        requires
            v < 64,
        ensures
            final(self).members() == old(self).members().remove(v),
    ;
}

impl DomainOperations for BitSet {
    open spec fn members(&self) -> Set<u32> {
        self@
    }

    fn next(&self) -> (r: u32) {
        proof {
            self.lemma_elems();
        }
        let r = self.current();
        proof {
            let e = self.elems();
            if e.len() > 0 {
                assert(e.contains(e[0]));
                assert forall|x: u32| self@.contains(x) implies r <= x by {
                    assert(e.to_set().contains(x));
                    let k = choose|k: int| 0 <= k < e.len() && e[k] == x;
                    if k > 0 {
                        assert(e[0] < e[k]);
                    }
                }
            }
        }
        r
    }

    fn remove(&mut self, v: u32) {
        BitSet::remove(self, v)
    }
}

} // verus!
