//! A max-heap from which any element it holds can be removed.
use vstd::prelude::*;
use vstd::multiset::Multiset;

use crate::order::TotalOrder;

verus! {

broadcast use vstd::seq_lib::group_to_multiset_ensures, vstd::multiset::group_multiset_axioms;

/// `s` is non-decreasing.
pub open spec fn ascending<T: TotalOrder>(s: Seq<T>) -> bool {
    forall|i: int, j: int| 0 <= i <= j < s.len() ==> s[i].rank() <= s[j].rank()
}

/// Inserts `x` into the non-decreasing `v`, keeping it so.
fn insert_sorted<T: TotalOrder>(v: &mut Vec<T>, x: T)
    requires
        ascending(old(v)@),
    ensures
        ascending(final(v)@),
        final(v)@.len() == old(v)@.len() + 1,
        final(v)@.to_multiset() == old(v)@.to_multiset().insert(x),
{
    let mut i = v.len();
    while i > 0 && x.less(&v[i - 1])
        invariant
            i <= v@.len(),
            forall|j: int| i <= j < v@.len() ==> x.rank() < v@[j].rank(),
        decreases i,
    {
        i -= 1;
    }
    let ghost s = v@;
    v.insert(i, x);
    proof {
        assert(v@ == s.insert(i as int, x));
        s.insert_ensures(i as int, x);
        vstd::seq_lib::to_multiset_insert(s, i as int, x);
        assert forall|a: int, b: int| 0 <= a <= b < v@.len() implies v@[a].rank() <= v@[b].rank() by {
            if b < i {
            } else if a < i && b == i {
                assert(!(x.rank() < s[i - 1].rank()));
            } else if a < i {
                assert(v@[b] == s[b - 1]);
                assert(!(x.rank() < s[i - 1].rank()));
            } else if a == i && b == i {
            } else if a == i {
                assert(v@[b] == s[b - 1]);
            } else {
                assert(v@[a] == s[a - 1]);
                assert(v@[b] == s[b - 1]);
            }
        }
    }
}

/// A max-heap from which any element it holds can be removed: removals
/// are kept aside and carried out once the removed element reaches the top.
pub struct RemovableHeap<T> {
    alive: Vec<T>,
    dead: Vec<T>,
    len: usize,
}

impl<T: TotalOrder> RemovableHeap<T> {
    /// The elements held, with multiplicity.
    pub closed spec fn items(&self) -> Multiset<T> {
        self.alive@.to_multiset().sub(self.dead@.to_multiset())
    }

    pub closed spec fn wf(&self) -> bool {
        &&& ascending(self.alive@)
        &&& ascending(self.dead@)
        &&& self.dead@.to_multiset().subset_of(self.alive@.to_multiset())
        &&& self.len == self.alive@.len() - self.dead@.len()
        &&& self.dead@.len() > 0 ==> self.dead@.last().rank() < self.alive@.last().rank()
    }

    proof fn lemma_items(&self)
        requires
            self.wf(),
        ensures
            self.items().len() == self.len,
            self.len == 0 <==> self.alive@.len() == 0,
            self.alive@.len() > 0 ==> self.items().count(self.alive@.last()) > 0,
            self.alive@.len() > 0 ==> forall|y: T| self.items().count(y) > 0 ==> y.rank() <= self.alive@.last().rank(),
            forall|y: T| self.items().count(y) > 0 ==> self.alive@.to_multiset().count(y) > 0,
    {
        let a = self.alive@.to_multiset();
        let d = self.dead@.to_multiset();
        assert(self.items().len() == a.len() - d.len());
        if self.alive@.len() > 0 {
            let m = self.alive@.last();
            assert(self.alive@.contains(m));
            if d.count(m) > 0 {
                assert(self.dead@.contains(m));
                let j = choose|j: int| 0 <= j < self.dead@.len() && self.dead@[j] == m;
            }
            assert forall|y: T| self.items().count(y) > 0 implies y.rank() <= m.rank() by {
                assert(self.alive@.contains(y));
                let j = choose|j: int| 0 <= j < self.alive@.len() && self.alive@[j] == y;
            }
        }
        if self.len == 0 && self.alive@.len() > 0 {
            assert(self.dead@.len() == self.alive@.len());
            let m = self.alive@.last();
            assert(self.alive@.contains(m));
            assert(a.count(m) > 0);
            assert(d.count(m) < a.count(m)) by {
                if d.count(m) > 0 {
                    assert(self.dead@.contains(m));
                    let j = choose|j: int| 0 <= j < self.dead@.len() && self.dead@[j] == m;
                }
            }
            assert(d.len() < a.len()) by {
                let diff = a.sub(d);
                assert(diff.count(m) > 0);
                assert(diff.len() > 0);
                assert(a.len() == diff.len() + d.len()) by {
                    assert(a =~= diff.add(d));
                }
            }
        }
        assert(a.len() == a.sub(d).len() + d.len()) by {
            assert(a =~= a.sub(d).add(d));
        }
    }

    /// An empty heap.
    pub fn new() -> (r: Self)
        ensures
            r.wf(),
            r.items() =~= Multiset::empty(),
    {
        RemovableHeap { alive: Vec::new(), dead: Vec::new(), len: 0 }
    }

    /// Adds `item`.
    pub fn push(&mut self, item: T)
        requires
            old(self).wf(),
            old(self).items().len() < usize::MAX,
        ensures
            final(self).wf(),
            final(self).items() == old(self).items().insert(item),
    {
        proof {
            self.lemma_items();
        }
        let ghost d = self.dead@;
        insert_sorted(&mut self.alive, item);
        self.len += 1;
        proof {
            assert(self.alive@.len() == old(self).alive@.len() + 1);
            assert(self.alive@.contains(self.alive@.last()));
            if d.len() > 0 {
                let m = self.alive@.last();
                let om = old(self).alive@.last();
                assert(old(self).alive@.contains(om));
                assert(self.alive@.to_multiset().count(om) > 0);
                assert(self.alive@.contains(om));
                let j = choose|j: int| 0 <= j < self.alive@.len() && self.alive@[j] == om;
            }
            assert(self.items() =~= old(self).items().insert(item));
        }
    }

    /// Carries out the removals whose element is at the top.
    fn force(&mut self)
        requires
            ascending(old(self).alive@),
            ascending(old(self).dead@),
            old(self).dead@.to_multiset().subset_of(old(self).alive@.to_multiset()),
            old(self).len == old(self).alive@.len() - old(self).dead@.len(),
        ensures
            final(self).wf(),
            final(self).items() == old(self).items(),
    {
        while self.alive.len() > 0 && self.dead.len() > 0 && self.alive[self.alive.len() - 1].same(&self.dead[self.dead.len() - 1])
            invariant
                ascending(self.alive@),
                ascending(self.dead@),
                self.dead@.to_multiset().subset_of(self.alive@.to_multiset()),
                self.len == self.alive@.len() - self.dead@.len(),
                self.items() == old(self).items(),
            decreases self.alive@.len(),
        {
            let ghost a0 = self.alive@;
            let ghost d0 = self.dead@;
            let x = self.alive.pop().unwrap();
            let y = self.dead.pop().unwrap();
            proof {
                T::rank_injective(x, y);
                assert(a0 =~= self.alive@.push(x));
                assert(d0 =~= self.dead@.push(y));
                assert(a0.to_multiset() =~= self.alive@.to_multiset().insert(x));
                assert(d0.to_multiset() =~= self.dead@.to_multiset().insert(x));
                assert forall|v: T| self.dead@.to_multiset().count(v) <= self.alive@.to_multiset().count(v) by {
                    assert(d0.to_multiset().count(v) <= a0.to_multiset().count(v));
                }
                assert(self.items() =~= old(self).items());
            }
        }
        proof {
            if self.dead@.len() > 0 {
                let m = self.dead@.last();
                assert(self.dead@.contains(m));
                assert(self.alive@.to_multiset().count(m) > 0);
                assert(self.alive@.contains(m));
                let j = choose|j: int| 0 <= j < self.alive@.len() && self.alive@[j] == m;
                assert(self.alive@[j].rank() <= self.alive@.last().rank());
                if m.rank() == self.alive@.last().rank() {
                    T::rank_injective(m, self.alive@.last());
                }
            }
        }
    }

    /// Removes one `item`, which the heap must hold.
    pub fn remove(&mut self, item: T)
        requires
            old(self).wf(),
            old(self).items().count(item) > 0,
        ensures
            final(self).wf(),
            final(self).items() == old(self).items().remove(item),
    {
        proof {
            self.lemma_items();
            assert(self.items().len() > 0);
        }
        self.len -= 1;
        insert_sorted(&mut self.dead, item);
        proof {
            assert(self.dead@.to_multiset().subset_of(self.alive@.to_multiset()));
            assert(self.items() =~= old(self).items().remove(item));
        }
        self.force();
    }

    /// Removes and returns the greatest element.
    pub fn pop(&mut self) -> (r: Option<T>)
        requires
            old(self).wf(),
        ensures
            final(self).wf(),
            r is None <==> old(self).items().len() == 0,
            r matches Some(x) ==> old(self).items().count(x) > 0
                && (forall|y: T| old(self).items().count(y) > 0 ==> y.rank() <= x.rank())
                && final(self).items() == old(self).items().remove(x),
            r is None ==> final(self).items() == old(self).items(),
    {
        proof {
            self.lemma_items();
        }
        if self.alive.len() == 0 {
            return None;
        }
        let ghost a0 = self.alive@;
        let x = self.alive.pop().unwrap();
        self.len -= 1;
        proof {
            assert(a0 =~= self.alive@.push(x));
            let d = self.dead@.to_multiset();
            if d.count(x) > 0 {
                assert(self.dead@.contains(x));
                let j = choose|j: int| 0 <= j < self.dead@.len() && self.dead@[j] == x;
                assert(self.dead@[j].rank() <= self.dead@.last().rank());
            }
            assert(d.subset_of(self.alive@.to_multiset()));
            assert(self.items() =~= old(self).items().remove(x));
        }
        self.force();
        Some(x)
    }

    /// The greatest element.
    pub fn peek(&self) -> (r: Option<&T>)
        requires
            self.wf(),
        ensures
            r is None <==> self.items().len() == 0,
            r matches Some(x) ==> self.items().count(*x) > 0
                && forall|y: T| self.items().count(y) > 0 ==> y.rank() <= x.rank(),
    {
        proof {
            self.lemma_items();
        }
        let n = self.alive.len();
        if n == 0 {
            None
        } else {
            Some(&self.alive[n - 1])
        }
    }

    pub fn is_empty(&self) -> (r: bool)
        requires
            self.wf(),
        ensures
            r == (self.items().len() == 0),
    {
        proof {
            self.lemma_items();
        }
        self.len == 0
    }

    /// The number of elements held.
    pub fn len(&self) -> (r: usize)
        requires
            self.wf(),
        ensures
            r == self.items().len(),
    {
        proof {
            self.lemma_items();
        }
        self.len
    }
}

} // verus!
