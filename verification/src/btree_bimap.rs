//! A bidirectional map: a bijection between left and right keys.
use vstd::prelude::*;

use crate::bound::{Bound, in_range, is_above, is_below};
use crate::order::TotalOrder;
use crate::vec_map::VecMap;

verus! {

/// A bijection between left keys and right keys, kept as a map each way.
pub struct BTreeBimap<L, R> {
    left: VecMap<L, R>,
    right: VecMap<R, L>,
}

impl<L: TotalOrder, R: TotalOrder> BTreeBimap<L, R> {
    /// The map from left keys to right keys.
    pub closed spec fn view(&self) -> Map<L, R> {
        self.left@
    }

    /// The map from right keys to left keys.
    pub closed spec fn inverse(&self) -> Map<R, L> {
        self.right@
    }

    /// The two maps are valid and inverse to each other.
    pub closed spec fn wf(&self) -> bool {
        &&& self.left.wf()
        &&& self.right.wf()
        &&& forall|l: L| #[trigger] self.left@.contains_key(l) ==> self.right@.contains_key(self.left@[l]) && self.right@[self.left@[l]] == l
        &&& forall|r: R| #[trigger] self.right@.contains_key(r) ==> self.left@.contains_key(self.right@[r]) && self.left@[self.right@[r]] == r
    }

    /// The left map is one-to-one, and the inverse is its inverse.
    pub proof fn lemma_bijection(&self)
        requires
            self.wf(),
        ensures
            forall|l1: L, l2: L| self@.contains_key(l1) && self@.contains_key(l2) && self@[l1] == self@[l2] ==> l1 == l2,
            forall|r: R| self.inverse().contains_key(r) <==> exists|l: L| self@.contains_key(l) && self@[l] == r,
            forall|l: L| #[trigger] self@.contains_key(l) ==> self.inverse()[self@[l]] == l,
            self@.dom().finite(),
    {
        self.left.lemma_view();
        assert forall|r: R| self.inverse().contains_key(r) <==> exists|l: L| self@.contains_key(l) && self@[l] == r by {
            if self.inverse().contains_key(r) {
                let l = self.right@[r];
                assert(self@.contains_key(l) && self@[l] == r);
            }
        }
    }

    pub fn new() -> (r: Self)
        ensures
            r.wf(),
            r@ == Map::<L, R>::empty(),
    {
        BTreeBimap { left: VecMap::new(), right: VecMap::new() }
    }

    pub fn is_empty(&self) -> (r: bool)
        requires
            self.wf(),
        ensures
            r == (self@.dom().len() == 0),
    {
        proof {
            self.left.lemma_view();
        }
        self.left.len() == 0
    }

    pub fn len(&self) -> (r: usize)
        requires
            self.wf(),
        ensures
            r == self@.dom().len(),
    {
        proof {
            self.left.lemma_view();
        }
        self.left.len()
    }

    /// Pairs `l` with `r`, dropping the pairs that either was in.
    pub fn insert(&mut self, l: L, r: R)
        requires
            old(self).wf(),
        ensures
            final(self).wf(),
            forall|x: L| #[trigger] final(self)@.contains_key(x) <==> x == l || (old(self)@.contains_key(x) && old(self)@[x] != r),
            final(self)@[l] == r,
            forall|x: L| #[trigger] final(self)@.contains_key(x) && x != l ==> final(self)@[x] == old(self)@[x],
    {
        let ghost lm = self.left@;
        let ghost rm = self.right@;
        if let Some(old_r) = self.left.insert(l, r) {
            self.right.remove(&old_r);
        }
        if let Some(old_l) = self.right.insert(r, l) {
            self.left.remove(&old_l);
        }
        proof {
            let lf = self.left@;
            let rf = self.right@;
            assert forall|x: L| #[trigger] lf.contains_key(x) <==> x == l || (lm.contains_key(x) && lm[x] != r) by {
                if lm.contains_key(x) && lm[x] == r && x != l {
                    assert(rm.contains_key(r) && rm[r] == x);
                }
            }
        }
    }

    /// Drops the pair of the left key `l`.
    pub fn remove_left(&mut self, l: &L)
        requires
            old(self).wf(),
        ensures
            final(self).wf(),
            final(self)@ == old(self)@.remove(*l),
    {
        if let Some(old_r) = self.left.remove(l) {
            self.right.remove(&old_r);
        }
    }

    /// Drops the pair of the right key `r`.
    pub fn remove_right(&mut self, r: &R)
        requires
            old(self).wf(),
        ensures
            final(self).wf(),
            final(self).inverse() == old(self).inverse().remove(*r),
            forall|x: L| #[trigger] final(self)@.contains_key(x) <==> old(self)@.contains_key(x) && old(self)@[x] != *r,
            forall|x: L| #[trigger] final(self)@.contains_key(x) ==> final(self)@[x] == old(self)@[x],
    {
        let ghost lm = self.left@;
        let ghost rm = self.right@;
        if let Some(old_l) = self.right.remove(r) {
            self.left.remove(&old_l);
        }
        proof {
            assert forall|x: L| #[trigger] self.left@.contains_key(x) <==> lm.contains_key(x) && lm[x] != *r by {
                if lm.contains_key(x) && lm[x] == *r {
                    assert(rm.contains_key(*r));
                }
            }
        }
    }

    /// The pairs whose left key lies between `start` and `end`, in
    /// increasing order of left key.
    pub fn range_left(&self, start: Bound<L>, end: Bound<L>) -> (res: Vec<(L, R)>)
        requires
            self.wf(),
        ensures
            forall|i: int, j: int| 0 <= i < j < res@.len() ==> res@[i].0.rank() < res@[j].0.rank(),
            forall|x: L| (self@.contains_key(x) && in_range(start, end, x)) <==> exists|i: int| 0 <= i < res@.len() && res@[i].0 == x,
            forall|i: int| 0 <= i < res@.len() ==> self@.contains_key(res@[i].0) && self@[res@[i].0] == res@[i].1,
    {
        range_of(&self.left, start, end)
    }

    /// The pairs whose right key lies between `start` and `end`, in
    /// increasing order of right key, as (right, left).
    pub fn range_right(&self, start: Bound<R>, end: Bound<R>) -> (res: Vec<(R, L)>)
        requires
            self.wf(),
        ensures
            forall|i: int, j: int| 0 <= i < j < res@.len() ==> res@[i].0.rank() < res@[j].0.rank(),
            forall|x: R| (self.inverse().contains_key(x) && in_range(start, end, x)) <==> exists|i: int| 0 <= i < res@.len() && res@[i].0 == x,
            forall|i: int| 0 <= i < res@.len() ==> self.inverse().contains_key(res@[i].0) && self.inverse()[res@[i].0] == res@[i].1,
    {
        range_of(&self.right, start, end)
    }
}

/// The entries of `m` whose key lies between `start` and `end`, in
/// increasing order of key.
pub fn range_of<K: TotalOrder, V: Copy>(m: &VecMap<K, V>, start: Bound<K>, end: Bound<K>) -> (res: Vec<(K, V)>)
    requires
        m.wf(),
    ensures
        forall|i: int, j: int| 0 <= i < j < res@.len() ==> res@[i].0.rank() < res@[j].0.rank(),
        forall|x: K| (m@.contains_key(x) && in_range(start, end, x)) <==> exists|i: int| 0 <= i < res@.len() && res@[i].0 == x,
        forall|i: int| 0 <= i < res@.len() ==> m@.contains_key(res@[i].0) && m@[res@[i].0] == res@[i].1,
{
    proof {
        m.lemma_view();
    }
    let ghost s = m.entries();
    let mut res: Vec<(K, V)> = Vec::new();
    let mut i: usize = 0;
    let n = m.len();
    let ghost mut idx: Seq<int> = Seq::empty();
    while i < n
        invariant
            i <= n == s.len(),
            s == m.entries(),
            m.wf(),
            crate::vec_map::keys_sorted(s),
            res@.len() == idx.len(),
            forall|a: int| 0 <= a < idx.len() ==> 0 <= #[trigger] idx[a] < i && res@[a] == s[idx[a]],
            forall|a: int, b: int| 0 <= a < b < idx.len() ==> idx[a] < idx[b],
            forall|j: int| 0 <= j < i && in_range(start, end, s[j].0) ==> exists|a: int| 0 <= a < idx.len() && idx[a] == j,
            forall|a: int| 0 <= a < idx.len() ==> in_range(start, end, #[trigger] res@[a].0),
        decreases n - i,
    {
        let e = m.entry(i);
        let ghost old_idx = idx;
        if is_above(&start, &e.0) && is_below(&end, &e.0) {
            res.push(e);
            proof {
                idx = idx.push(i as int);
            }
        }
        i += 1;
        proof {
            assert forall|j: int| 0 <= j < i && in_range(start, end, s[j].0) implies exists|a: int| 0 <= a < idx.len() && idx[a] == j by {
                if j < i - 1 {
                    let a = choose|a: int| 0 <= a < old_idx.len() && old_idx[a] == j;
                    assert(idx[a] == old_idx[a]);
                } else {
                    assert(idx[idx.len() - 1] == j);
                }
            }
        }
    }
    proof {
        assert forall|a: int, b: int| 0 <= a < b < res@.len() implies res@[a].0.rank() < res@[b].0.rank() by {
            assert(idx[a] < idx[b]);
        }
        assert forall|x: K| (m@.contains_key(x) && in_range(start, end, x)) <==> exists|a: int| 0 <= a < res@.len() && res@[a].0 == x by {
            if m@.contains_key(x) && in_range(start, end, x) {
                let j = choose|j: int| 0 <= j < s.len() && s[j].0 == x;
                let a = choose|a: int| 0 <= a < idx.len() && idx[a] == j;
                assert(res@[a].0 == x);
            }
            if exists|a: int| 0 <= a < res@.len() && res@[a].0 == x {
                let a = choose|a: int| 0 <= a < res@.len() && res@[a].0 == x;
                assert(s[idx[a]] == res@[a]);
            }
        }
        assert forall|a: int| 0 <= a < res@.len() implies m@.contains_key(res@[a].0) && m@[res@[a].0] == res@[a].1 by {
            assert(s[idx[a]] == res@[a]);
        }
    }
    res
}

} // verus!
