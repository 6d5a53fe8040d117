//! Sets of points, kept as unions of intervals.
use vstd::prelude::*;

use crate::bound::Bound;
use crate::interval::{hi, interval_of, lo, Interval, Left, Right};
use crate::interval_map::{before, canonical, constant_on, holds, lemma_some_point, lemma_value, map_of, points, IntervalMap};
use crate::order::TotalOrder;

verus! {

/// The bound at a lower end.
pub open spec fn left_bound<K>(l: Left<K>) -> Bound<K> {
    match l {
        Left::NegInfinity => Bound::Unbounded,
        Left::Closed(x) => Bound::Included(x),
        Left::Open(x) => Bound::Excluded(x),
    }
}

/// The bound at an upper end.
pub open spec fn right_bound<K>(r: Right<K>) -> Bound<K> {
    match r {
        Right::Open(x) => Bound::Excluded(x),
        Right::Closed(x) => Bound::Included(x),
        Right::PosInfinity => Bound::Unbounded,
    }
}

/// The bounds of an interval.
pub open spec fn bounds_of<K>(it: Interval<K>) -> (Bound<K>, Bound<K>) {
    (left_bound(it.left), right_bound(it.right))
}

/// The least point above a lower bound; `None` for no bound.
pub open spec fn start_point<K: TotalOrder>(b: Bound<K>) -> Option<int> {
    match b {
        Bound::Included(x) => Some(2 * x.rank()),
        Bound::Excluded(x) => Some(2 * x.rank() + 1),
        Bound::Unbounded => None,
    }
}

fn left_bound_exec<K: TotalOrder>(l: &Left<K>) -> (r: Bound<K>)
    ensures
        r == left_bound(*l),
{
    match l {
        Left::NegInfinity => Bound::Unbounded,
        Left::Closed(x) => Bound::Included(*x),
        Left::Open(x) => Bound::Excluded(*x),
    }
}

fn right_bound_exec<K: TotalOrder>(r: &Right<K>) -> (b: Bound<K>)
    ensures
        b == right_bound(*r),
{
    match r {
        Right::Open(x) => Bound::Excluded(*x),
        Right::Closed(x) => Bound::Included(*x),
        Right::PosInfinity => Bound::Unbounded,
    }
}

/// Whether the interval holds the point of `x`.
fn holds_value<K: TotalOrder>(it: &Interval<K>, x: &K) -> (r: bool)
    ensures
        r == it.has_point(2 * x.rank()),
{
    let above = match &it.left {
        Left::NegInfinity => true,
        Left::Closed(a) => !x.less(a),
        Left::Open(a) => a.less(x),
    };
    let below = match &it.right {
        Right::PosInfinity => true,
        Right::Closed(b) => !b.less(x),
        Right::Open(b) => x.less(b),
    };
    above && below
}

/// A set of points, kept as a union of intervals with a point between any
/// two of them.
pub struct IntervalSet<K> {
    map: IntervalMap<K, bool>,
}

impl<K: TotalOrder> View for IntervalSet<K> {
    type V = Set<int>;

    /// The points of the intervals.
    open spec fn view(&self) -> Set<int> {
        Set::new(|z: int| exists|i: int| 0 <= i < self.intervals().len() && #[trigger] self.intervals()[i].has_point(z))
    }
}

impl<K: TotalOrder> IntervalSet<K> {
    /// The intervals, in order.
    pub closed spec fn intervals(&self) -> Seq<Interval<K>> {
        self.map.entries().map_values(|e: (Interval<K>, bool)| e.0)
    }

    /// The intervals are non-empty, in order, and have a point between any
    /// two of them.
    pub closed spec fn wf(&self) -> bool {
        &&& self.map.wf()
        &&& forall|z: int| #[trigger] self.map@.dom().contains(z) ==> self.map@[z]
    }

    /// What `wf` says of the intervals.
    pub proof fn lemma_wf(&self)
        requires
            self.wf(),
        ensures
            forall|i: int| 0 <= i < self.intervals().len() ==> !(#[trigger] self.intervals()[i]).empty_spec(),
            forall|i: int, j: int| 0 <= i < j < self.intervals().len() ==> before(#[trigger] self.intervals()[i], #[trigger] self.intervals()[j], 1),
    {
        self.lemma_entries();
        let es = self.map.entries();
        assert forall|i: int, j: int| 0 <= i < j < es.len() implies before(#[trigger] es[i].0, #[trigger] es[j].0, 1) by {
            self.lemma_gap(i, j);
        }
    }

    /// Every entry of the map has the value `true`, and the view is the
    /// map's domain.
    proof fn lemma_entries(&self)
        requires
            self.wf(),
        ensures
            forall|i: int| 0 <= i < self.map.entries().len() ==> (#[trigger] self.map.entries()[i]).1,
            self.intervals().len() == self.map.entries().len(),
            forall|i: int| 0 <= i < self.map.entries().len() ==> #[trigger] self.intervals()[i] == self.map.entries()[i].0,
            self@ == self.map@.dom(),
    {
        let es = self.map.entries();
        assert forall|i: int| 0 <= i < es.len() implies (#[trigger] es[i]).1 by {
            lemma_some_point(es[i].0);
            let z = choose|z: int| es[i].0.has_point(z);
            lemma_value(es, i, z);
            assert(self.map@.dom().contains(z));
        }
        assert forall|z: int| self@.contains(z) <==> self.map@.dom().contains(z) by {
            if self@.contains(z) {
                let i = choose|i: int| 0 <= i < self.intervals().len() && #[trigger] self.intervals()[i].has_point(z);
                assert(holds(es[i], z));
            }
            if self.map@.dom().contains(z) {
                let i = choose|i: int| 0 <= i < es.len() && #[trigger] holds(es[i], z);
                assert(self.intervals()[i].has_point(z));
            }
        }
        assert(self@ =~= self.map@.dom());
    }

    /// Two intervals of the set have a point between them.
    proof fn lemma_gap(&self, i: int, j: int)
        requires
            self.wf(),
            0 <= i < j < self.map.entries().len(),
        ensures
            before(self.map.entries()[i].0, self.map.entries()[j].0, 1),
        decreases j - i,
    {
        self.lemma_entries();
        let es = self.map.entries();
        assert(es[i].1 == es[i + 1].1);
        assert(before(es[i].0, es[i + 1].0, 1));
        if j > i + 1 {
            self.lemma_gap(i + 1, j);
        }
    }

    /// The empty set.
    pub fn new() -> (r: Self)
        ensures
            r.wf(),
            r.intervals() == Seq::<Interval<K>>::empty(),
            r@ == Set::<int>::empty(),
    {
        let r = IntervalSet { map: IntervalMap::new() };
        proof {
            assert(r.intervals() =~= Seq::<Interval<K>>::empty());
            assert(r@ =~= Set::<int>::empty());
        }
        r
    }

    /// Whether the set holds no point.
    pub fn is_empty(&self) -> (r: bool)
        requires
            self.wf(),
        ensures
            r == (self@ == Set::<int>::empty()),
            r == (self.intervals().len() == 0),
    {
        proof {
            self.lemma_entries();
            if self.map@ == Map::<int, bool>::empty() {
                assert(self@ =~= Set::<int>::empty());
            } else {
                assert(self.map@.dom() != Set::<int>::empty()) by {
                    if self.map@.dom() =~= Set::<int>::empty() {
                        assert(self.map@ =~= Map::<int, bool>::empty());
                    }
                }
            }
        }
        self.map.is_empty()
    }

    /// Adds the points of the interval between `start` and `end`.
    pub fn insert(&mut self, start: Bound<K>, end: Bound<K>)
        requires
            old(self).wf(),
        ensures
            final(self).wf(),
            final(self)@ == old(self)@.union(points(interval_of(start, end))),
    {
        proof {
            self.lemma_entries();
        }
        self.map.insert(start, end, true);
        proof {
            self.lemma_entries();
            assert(self@ =~= old(self)@.union(points(interval_of(start, end))));
        }
    }

    /// Takes out the points of the interval between `start` and `end`.
    pub fn remove(&mut self, start: Bound<K>, end: Bound<K>)
        requires
            old(self).wf(),
        ensures
            final(self).wf(),
            final(self)@ == old(self)@.difference(points(interval_of(start, end))),
    {
        proof {
            self.lemma_entries();
        }
        let _ = self.map.remove(start, end);
        proof {
            self.lemma_entries();
            assert(self@ =~= old(self)@.difference(points(interval_of(start, end))));
        }
    }

    /// Makes the set empty.
    pub fn clear(&mut self)
        ensures
            final(self).wf(),
            final(self)@ == Set::<int>::empty(),
    {
        *self = IntervalSet::new();
    }

    /// The least point at or above `x` outside the set, given as the lower
    /// bound at which it starts; no bound where every point from `x` on is
    /// in the set.
    pub fn mex(&self, x: K) -> (r: Bound<K>)
        requires
            self.wf(),
        ensures
            match start_point(r) {
                None => forall|z: int| z >= 2 * x.rank() ==> self@.contains(z),
                Some(q) => 2 * x.rank() <= q && !self@.contains(q) && forall|z: int| 2 * x.rank() <= z < q ==> self@.contains(z),
            },
    {
        let es = self.map.iter();
        proof {
            self.lemma_entries();
            self.lemma_wf();
        }
        let ghost p = 2 * x.rank();
        let n = es.len();
        let mut i: usize = 0;
        while i < n
            invariant
                n == es@.len(),
                es@ == self.map.entries(),
                i <= n,
                self.wf(),
                p == 2 * x.rank(),
                forall|k: int| 0 <= k < i ==> !(#[trigger] es@[k]).0.has_point(p),
            decreases n - i,
        {
            if holds_value(&es[i].0, &x) {
                let r = match &es[i].0.right {
                    Right::Closed(y) => Bound::Excluded(*y),
                    Right::Open(y) => Bound::Included(*y),
                    Right::PosInfinity => Bound::Unbounded,
                };
                proof {
                    self.lemma_entries();
                    self.lemma_wf();
                    let e = es@[i as int].0;
                    assert(self.intervals()[i as int] == e);
                    assert forall|z: int| p <= z && (hi(e.right) matches Some(h) ==> z <= h) implies self@.contains(z) by {
                        assert(e.has_point(z));
                    }
                    if let Some(q) = start_point(r) {
                        assert(q == hi(e.right).unwrap() + 1);
                        assert forall|k: int| 0 <= k < self.intervals().len() implies !(#[trigger] self.intervals()[k]).has_point(q) by {
                            if k < i {
                                assert(before(self.intervals()[k], e, 1));
                            } else if k > i {
                                assert(before(e, self.intervals()[k], 1));
                            }
                        }
                    }
                }
                return r;
            }
            i += 1;
        }
        proof {
            assert forall|k: int| 0 <= k < self.intervals().len() implies !(#[trigger] self.intervals()[k]).has_point(p) by {
                assert(self.intervals()[k] == es@[k].0);
            }
        }
        Bound::Included(x)
    }

    /// The bounds of the interval of the set that holds the whole interval
    /// between `start` and `end`; where that interval is empty, those of
    /// the first interval of the set.
    pub fn covering(&self, start: Bound<K>, end: Bound<K>) -> (r: Option<(Bound<K>, Bound<K>)>)
        requires
            self.wf(),
        ensures
            r is None <==> (self.intervals().len() == 0 || (!interval_of(start, end).empty_spec()
                && forall|i: int| 0 <= i < self.intervals().len() ==> !interval_of(start, end).subset_spec(#[trigger] self.intervals()[i]))),
            r matches Some(b) ==> exists|i: int| 0 <= i < self.intervals().len() && b == bounds_of(#[trigger] self.intervals()[i])
                && (if interval_of(start, end).empty_spec() { i == 0 } else { interval_of(start, end).subset_spec(self.intervals()[i]) }),
    {
        proof {
            self.lemma_entries();
        }
        if self.map.is_empty() {
            return None;
        }
        let it = Interval::from_bounds(start, end);
        if it.is_empty() {
            let es = self.map.iter();
            let b = (left_bound_exec(&es[0].0.left), right_bound_exec(&es[0].0.right));
            proof {
                assert(b == bounds_of(self.intervals()[0]));
            }
            return Some(b);
        }
        match self.map.superset_of(start, end) {
            None => None,
            Some(e) => {
                let b = (left_bound_exec(&e.0.left), right_bound_exec(&e.0.right));
                proof {
                    let i = choose|i: int| 0 <= i < self.map.entries().len() && #[trigger] self.map.entries()[i] == e;
                    assert(b == bounds_of(self.intervals()[i]));
                }
                Some(b)
            },
        }
    }

    /// Whether some interval of the set holds the whole interval between
    /// `start` and `end`; for an empty interval, whether the set has any.
    pub fn has_range(&self, start: Bound<K>, end: Bound<K>) -> (r: bool)
        requires
            self.wf(),
        ensures
            r == (self.intervals().len() > 0 && (interval_of(start, end).empty_spec()
                || exists|i: int| 0 <= i < self.intervals().len() && interval_of(start, end).subset_spec(#[trigger] self.intervals()[i]))),
    {
        self.covering(start, end).is_some()
    }

    /// The bounds of the intervals, in order.
    pub fn iter(&self) -> (r: Vec<(Bound<K>, Bound<K>)>)
        requires
            self.wf(),
        ensures
            r@ == self.intervals().map_values(|it: Interval<K>| bounds_of(it)),
    {
        let es = self.map.iter();
        let n = es.len();
        let mut r: Vec<(Bound<K>, Bound<K>)> = Vec::new();
        let mut i: usize = 0;
        while i < n
            invariant
                n == es@.len(),
                es@ == self.map.entries(),
                i <= n,
                r@ == self.intervals().map_values(|it: Interval<K>| bounds_of(it)).subrange(0, i as int),
            decreases n - i,
        {
            r.push((left_bound_exec(&es[i].0.left), right_bound_exec(&es[i].0.right)));
            proof {
                assert(r@ =~= self.intervals().map_values(|it: Interval<K>| bounds_of(it)).subrange(0, i + 1));
            }
            i += 1;
        }
        proof {
            assert(r@ =~= self.intervals().map_values(|it: Interval<K>| bounds_of(it)));
        }
        r
    }
}

} // verus!
