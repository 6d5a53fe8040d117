//! Intervals of a totally ordered type, read as intervals of a dense
//! order: between two distinct values there is always another point.
//!
//! A point is modelled by an integer: `2 * x.rank()` stands for `x`
//! itself, and `2 * x.rank() + 1` for the points just above `x`.
use vstd::prelude::*;

use crate::bound::Bound;
use crate::order::TotalOrder;

verus! {

/// A lower end.
#[derive(Debug, PartialEq, Eq)]
pub enum Left<T> {
    NegInfinity,
    Closed(T),
    Open(T),
}

/// An upper end.
#[derive(Debug, PartialEq, Eq)]
pub enum Right<T> {
    Open(T),
    Closed(T),
    PosInfinity,
}

impl<T: TotalOrder> Clone for Left<T> {
    fn clone(&self) -> (r: Self)
        ensures
            r == *self,
    {
        match self {
            Left::NegInfinity => Left::NegInfinity,
            Left::Closed(x) => Left::Closed(*x),
            Left::Open(x) => Left::Open(*x),
        }
    }
}

impl<T: TotalOrder> Clone for Right<T> {
    fn clone(&self) -> (r: Self)
        ensures
            r == *self,
    {
        match self {
            Right::Open(x) => Right::Open(*x),
            Right::Closed(x) => Right::Closed(*x),
            Right::PosInfinity => Right::PosInfinity,
        }
    }
}

/// The least point above a lower end; `None` for minus infinity.
pub open spec fn lo<T: TotalOrder>(l: Left<T>) -> Option<int> {
    match l {
        Left::NegInfinity => None,
        Left::Closed(x) => Some(2 * x.rank()),
        Left::Open(x) => Some(2 * x.rank() + 1),
    }
}

/// The greatest point below an upper end; `None` for plus infinity.
pub open spec fn hi<T: TotalOrder>(r: Right<T>) -> Option<int> {
    match r {
        Right::Open(x) => Some(2 * x.rank() - 1),
        Right::Closed(x) => Some(2 * x.rank()),
        Right::PosInfinity => None,
    }
}

/// `z` lies above the lower end `l`.
pub open spec fn above_left<T: TotalOrder>(l: Left<T>, z: int) -> bool {
    match lo(l) {
        None => true,
        Some(a) => a <= z,
    }
}

/// `z` lies below the upper end `r`.
pub open spec fn below_right<T: TotalOrder>(r: Right<T>, z: int) -> bool {
    match hi(r) {
        None => true,
        Some(b) => z <= b,
    }
}

/// The order of lower ends: `a` is not above `b`.
pub open spec fn left_le<T: TotalOrder>(a: Left<T>, b: Left<T>) -> bool {
    match (lo(a), lo(b)) {
        (None, _) => true,
        (_, None) => false,
        (Some(x), Some(y)) => x <= y,
    }
}

/// The order of upper ends: `a` is not above `b`.
pub open spec fn right_le<T: TotalOrder>(a: Right<T>, b: Right<T>) -> bool {
    match (hi(a), hi(b)) {
        (_, None) => true,
        (None, _) => false,
        (Some(x), Some(y)) => x <= y,
    }
}

/// An interval: the points between a lower and an upper end.
#[derive(Debug, PartialEq, Eq)]
pub struct Interval<T> {
    pub left: Left<T>,
    pub right: Right<T>,
}

impl<T: TotalOrder> Clone for Interval<T> {
    fn clone(&self) -> (r: Self)
        ensures
            r == *self,
    {
        Interval { left: self.left.clone(), right: self.right.clone() }
    }
}

/// `a` comes before `b`: by lower end, then by upper end.
pub open spec fn interval_lt<T: TotalOrder>(a: Interval<T>, b: Interval<T>) -> bool {
    (left_le(a.left, b.left) && !left_le(b.left, a.left)) || (lo(a.left) == lo(b.left) && right_le(a.right, b.right) && !right_le(b.right, a.right))
}

/// The lower end of `b` lies no further up than just past the upper end of `a`.
pub open spec fn reaches<T: TotalOrder>(a: Right<T>, b: Left<T>, slack: int) -> bool {
    match (lo(b), hi(a)) {
        (None, _) => true,
        (_, None) => true,
        (Some(x), Some(y)) => x <= y + slack,
    }
}

impl<T: TotalOrder> Interval<T> {
    /// `z` is a point of the interval.
    pub open spec fn has_point(self, z: int) -> bool {
        above_left(self.left, z) && below_right(self.right, z)
    }

    /// The interval holds no point.
    pub open spec fn empty_spec(self) -> bool {
        match (lo(self.left), hi(self.right)) {
            (Some(a), Some(b)) => a > b,
            _ => false,
        }
    }

    /// What `intersects` decides: ordering the two, the later one starts
    /// before the earlier one ends.
    pub open spec fn intersects_spec(self, other: Self) -> bool {
        if interval_lt(self, other) {
            reaches(self.right, other.left, 0)
        } else {
            reaches(other.right, self.left, 0)
        }
    }

    /// What `is_connected_with` decides: ordering the two, no point lies
    /// between the end of the earlier and the start of the later one.
    pub open spec fn connected_spec(self, other: Self) -> bool {
        if interval_lt(self, other) {
            reaches(self.right, other.left, 1)
        } else {
            reaches(other.right, self.left, 1)
        }
    }

    /// What `is_subset_of` decides: the ends of `self` lie within those of
    /// `other`.
    pub open spec fn subset_spec(self, other: Self) -> bool {
        left_le(other.left, self.left) && right_le(self.right, other.right)
    }
}

/// Whether lower end `a` is not above lower end `b`.
pub fn left_le_exec<T: TotalOrder>(a: &Left<T>, b: &Left<T>) -> (r: bool)
    ensures
        r == left_le(*a, *b),
{
    match (a, b) {
        (Left::NegInfinity, _) => true,
        (_, Left::NegInfinity) => false,
        (Left::Closed(x), Left::Closed(y)) => !y.less(x),
        (Left::Closed(x), Left::Open(y)) => !y.less(x),
        (Left::Open(x), Left::Closed(y)) => x.less(y),
        (Left::Open(x), Left::Open(y)) => !y.less(x),
    }
}

/// Whether upper end `a` is not above upper end `b`.
pub fn right_le_exec<T: TotalOrder>(a: &Right<T>, b: &Right<T>) -> (r: bool)
    ensures
        r == right_le(*a, *b),
{
    match (a, b) {
        (_, Right::PosInfinity) => true,
        (Right::PosInfinity, _) => false,
        (Right::Closed(x), Right::Closed(y)) => !y.less(x),
        (Right::Closed(x), Right::Open(y)) => x.less(y),
        (Right::Open(x), Right::Closed(y)) => !y.less(x),
        (Right::Open(x), Right::Open(y)) => !y.less(x),
    }
}

/// Whether `a` comes before `b`.
pub fn interval_less<T: TotalOrder>(a: &Interval<T>, b: &Interval<T>) -> (r: bool)
    ensures
        r == interval_lt(*a, *b),
{
    let ab = left_le_exec(&a.left, &b.left);
    let ba = left_le_exec(&b.left, &a.left);
    if ab && !ba {
        true
    } else if ab && ba {
        right_le_exec(&a.right, &b.right) && !right_le_exec(&b.right, &a.right)
    } else {
        false
    }
}

/// Whether `b` starts no further up than `slack` points past the end of `a`.
pub(crate) fn reaches_exec<T: TotalOrder>(a: &Right<T>, b: &Left<T>, slack: bool) -> (r: bool)
    ensures
        r == reaches(*a, *b, if slack { 1int } else { 0 }),
{
    match (b, a) {
        (Left::NegInfinity, _) => true,
        (_, Right::PosInfinity) => true,
        (Left::Closed(x), Right::Closed(y)) => !y.less(x),
        (Left::Closed(x), Right::Open(y)) => if slack { !y.less(x) } else { x.less(y) },
        (Left::Open(x), Right::Closed(y)) => if slack { !y.less(x) } else { x.less(y) },
        (Left::Open(x), Right::Open(y)) => x.less(y),
    }
}

impl<T: TotalOrder> Left<T> {
    /// The value at the end, if finite.
    pub fn inner(&self) -> (r: Option<&T>)
        ensures
            r == match *self {
                Left::NegInfinity => None,
                Left::Closed(x) => Some(&x),
                Left::Open(x) => Some(&x),
            },
    {
        match self {
            Left::Open(x) | Left::Closed(x) => Some(x),
            Left::NegInfinity => None,
        }
    }
}

impl<T: TotalOrder> Right<T> {
    /// The value at the end, if finite.
    pub fn inner(&self) -> (r: Option<&T>)
        ensures
            r == match *self {
                Right::PosInfinity => None,
                Right::Closed(x) => Some(&x),
                Right::Open(x) => Some(&x),
            },
    {
        match self {
            Right::PosInfinity => None,
            Right::Closed(x) | Right::Open(x) => Some(x),
        }
    }
}

/// The interval between two bounds.
pub open spec fn interval_of<T>(start: Bound<T>, end: Bound<T>) -> Interval<T> {
    Interval {
        left: match start {
            Bound::Unbounded => Left::NegInfinity,
            Bound::Included(x) => Left::Closed(x),
            Bound::Excluded(x) => Left::Open(x),
        },
        right: match end {
            Bound::Excluded(x) => Right::Open(x),
            Bound::Included(x) => Right::Closed(x),
            Bound::Unbounded => Right::PosInfinity,
        },
    }
}

impl<T: TotalOrder> Interval<T> {
    /// The interval between two bounds.
    pub fn from_bounds(start: Bound<T>, end: Bound<T>) -> (r: Self)
        ensures
            r == interval_of(start, end),
    {
        let left = match start {
            Bound::Unbounded => Left::NegInfinity,
            Bound::Included(x) => Left::Closed(x),
            Bound::Excluded(x) => Left::Open(x),
        };
        let right = match end {
            Bound::Excluded(x) => Right::Open(x),
            Bound::Included(x) => Right::Closed(x),
            Bound::Unbounded => Right::PosInfinity,
        };
        Interval { left, right }
    }

    /// The lower end's value, if finite.
    pub fn inf(&self) -> (r: Option<&T>)
        ensures
            r == match self.left {
                Left::NegInfinity => None,
                Left::Closed(x) => Some(&x),
                Left::Open(x) => Some(&x),
            },
    {
        self.left.inner()
    }

    /// The upper end's value, if finite.
    pub fn sup(&self) -> (r: Option<&T>)
        ensures
            r == match self.right {
                Right::PosInfinity => None,
                Right::Closed(x) => Some(&x),
                Right::Open(x) => Some(&x),
            },
    {
        self.right.inner()
    }

    /// Whether the interval holds no point.
    pub fn is_empty(&self) -> (r: bool)
        ensures
            r == self.empty_spec(),
            r <==> forall|z: int| !self.has_point(z),
    {
        proof {
            if !self.empty_spec() {
                match (lo(self.left), hi(self.right)) {
                    (Some(a), _) => assert(self.has_point(a)),
                    (None, Some(b)) => assert(self.has_point(b)),
                    (None, None) => assert(self.has_point(0)),
                }
            }
        }
        match (&self.left, &self.right) {
            (Left::NegInfinity, _) => false,
            (_, Right::PosInfinity) => false,
            (Left::Closed(x), Right::Closed(y)) => y.less(x),
            (Left::Closed(x), Right::Open(y)) => !x.less(y),
            (Left::Open(x), Right::Closed(y)) => !x.less(y),
            (Left::Open(x), Right::Open(y)) => !x.less(y),
        }
    }

    /// Ordering the two, whether the later one starts before the earlier
    /// one ends; for non-empty intervals, whether they share a point.
    pub fn intersects(&self, other: &Self) -> (r: bool)
        ensures
            r == self.intersects_spec(*other),
    {
        if interval_less(self, other) {
            reaches_exec(&self.right, &other.left, false)
        } else {
            reaches_exec(&other.right, &self.left, false)
        }
    }

    /// Ordering the two, whether no point lies between the end of the
    /// earlier one and the start of the later one.
    pub fn is_connected_with(&self, other: &Self) -> (r: bool)
        ensures
            r == self.connected_spec(*other),
    {
        if interval_less(self, other) {
            reaches_exec(&self.right, &other.left, true)
        } else {
            reaches_exec(&other.right, &self.left, true)
        }
    }

    /// Whether the ends of `self` lie within those of `other`.
    pub fn is_subset_of(&self, other: &Self) -> (r: bool)
        ensures
            r == self.subset_spec(*other),
    {
        left_le_exec(&other.left, &self.left) && right_le_exec(&self.right, &other.right)
    }

    /// Whether the ends of `other` lie within those of `self`.
    pub fn is_superset_of(&self, other: &Self) -> (r: bool)
        ensures
            r == other.subset_spec(*self),
    {
        left_le_exec(&self.left, &other.left) && right_le_exec(&other.right, &self.right)
    }
}


impl<T: TotalOrder> Interval<T> {
    /// The candidate intersection: the lower end of the later interval and
    /// the upper end of the earlier one.
    pub open spec fn meet_spec(self, other: Self) -> Self {
        if interval_lt(self, other) {
            Interval { left: other.left, right: self.right }
        } else {
            Interval { left: self.left, right: other.right }
        }
    }

    /// The candidate union: the lower end of the earlier interval and the
    /// upper end of the later one.
    pub open spec fn join_spec(self, other: Self) -> Self {
        if interval_lt(self, other) {
            Interval { left: self.left, right: other.right }
        } else {
            Interval { left: other.left, right: self.right }
        }
    }

    /// Ordering the two, the interval from the start of the later one to
    /// the end of the earlier one, unless it is empty; where the later one
    /// does not end first, their intersection.
    pub fn intersection(self, other: Self) -> (r: Option<Interval<T>>)
        ensures
            r == if self.meet_spec(other).empty_spec() { None } else { Some(self.meet_spec(other)) },
    {
        let it = if interval_less(&self, &other) {
            Interval { left: other.left, right: self.right }
        } else {
            Interval { left: self.left, right: other.right }
        };
        if it.is_empty() {
            None
        } else {
            Some(it)
        }
    }

    /// Ordering the two, where no point lies between them, the interval
    /// from the start of the earlier one to the end of the later one; where
    /// the later one does not end first, their union.
    pub fn connection(self, other: Self) -> (r: Option<Interval<T>>)
        ensures
            r == if self.connected_spec(other) { Some(self.join_spec(other)) } else { None },
    {
        let c = self.is_connected_with(&other);
        if !c {
            return None;
        }
        if interval_less(&self, &other) {
            Some(Interval { left: self.left, right: other.right })
        } else {
            Some(Interval { left: other.left, right: self.right })
        }
    }

    /// The part of `self` inside `other`, if any, and the parts of `self`
    /// outside it.
    pub fn intersection_minus(self, other: Self) -> (r: (Option<Interval<T>>, Vec<Interval<T>>))
        requires
            !self.empty_spec(),
            !other.empty_spec(),
        ensures
            forall|z: int| (r.0 matches Some(i) && i.has_point(z)) <==> (self.has_point(z) && other.has_point(z)),
            forall|z: int| (exists|k: int| 0 <= k < r.1@.len() && r.1@[k].has_point(z)) <==> (self.has_point(z) && !other.has_point(z)),
            forall|k: int| 0 <= k < r.1@.len() ==> !(#[trigger] r.1@[k]).empty_spec(),
            r.1@.len() <= 2,
            r.0 is None <==> forall|z: int| !(self.has_point(z) && other.has_point(z)),
            r.0 matches Some(i) ==> !i.empty_spec(),
            forall|k1: int, k2: int, z: int|
                0 <= k1 < k2 < r.1@.len() ==> !(#[trigger] r.1@[k1].has_point(z) && #[trigger] r.1@[k2].has_point(z)),
    {
        proof {
            lemma_intersects_points(self, other);
        }
        if !self.intersects(&other) {
            let v = vec![self];
            proof {
                assert forall|z: int| (exists|k: int| 0 <= k < v@.len() && v@[k].has_point(z)) <==> (self.has_point(z) && !other.has_point(z)) by {
                    if self.has_point(z) {
                        assert(v@[0].has_point(z));
                    }
                    if exists|k: int| 0 <= k < v@.len() && v@[k].has_point(z) {
                        let k = choose|k: int| 0 <= k < v@.len() && v@[k].has_point(z);
                        assert(v@[k] == self);
                        assert(!(self.has_point(z) && other.has_point(z)));
                    }
                }
            }
            let r = (None, v);
            assert(r.1@ == v@);
            return r;
        }
        if self.is_subset_of(&other) {
            let v: Vec<Interval<T>> = Vec::new();
            return (Some(self), v);
        }
        if self.is_superset_of(&other) {
            let ll = self.left;
            let lr = self.right;
            let rl = other.left;
            let rr = other.right;
            let ghost s = Interval { left: ll, right: lr };
            let ghost o = Interval { left: rl, right: rr };
            let mut minus: Vec<Interval<T>> = Vec::new();
            match rl {
                Left::NegInfinity => {},
                Left::Closed(x) => {
                    let it = Interval { left: ll, right: Right::Open(x) };
                    if !it.is_empty() {
                        minus.push(it);
                    }
                },
                Left::Open(x) => {
                    let it = Interval { left: ll, right: Right::Closed(x) };
                    if !it.is_empty() {
                        minus.push(it);
                    }
                },
            }
            let ghost m1 = minus@;
            match rr {
                Right::PosInfinity => {},
                Right::Open(x) => {
                    let it = Interval { left: Left::Closed(x), right: lr };
                    if !it.is_empty() {
                        minus.push(it);
                    }
                },
                Right::Closed(x) => {
                    let it = Interval { left: Left::Open(x), right: lr };
                    if !it.is_empty() {
                        minus.push(it);
                    }
                },
            }
            proof {
                assert forall|z: int| (exists|k: int| 0 <= k < minus@.len() && minus@[k].has_point(z)) <==> (s.has_point(z) && !o.has_point(z)) by {
                    if s.has_point(z) && !o.has_point(z) {
                        if !above_left(rl, z) {
                            assert(minus@[0].has_point(z));
                        } else {
                            assert(minus@[minus@.len() - 1].has_point(z));
                        }
                    }
                }
                assert forall|k1: int, k2: int, z: int|
                    0 <= k1 < k2 < minus@.len() implies !(#[trigger] minus@[k1].has_point(z) && #[trigger] minus@[k2].has_point(z)) by {
                    assert(k1 == 0 && k2 == 1);
                    assert(m1.len() == 1);
                    assert(!o.empty_spec());
                }
            }
            let isx = Interval { left: rl, right: rr };
            return (Some(isx), minus);
        }
        let swap = interval_less(&other, &self);
        let ghost s = self;
        let ghost o = other;
        let (left, right) = if swap { (other, self) } else { (self, other) };
        let ll = left.left;
        let lr = left.right;
        let rl = right.left;
        let rr = right.right;
        let minus = if swap {
            let l = match lr {
                Right::Open(x) => Left::Closed(x),
                Right::Closed(x) => Left::Open(x),
                Right::PosInfinity => {
                    proof {
                        assert(false);
                    }
                    Left::NegInfinity
                },
            };
            Interval { left: l, right: rr }
        } else {
            let r = match rl {
                Left::NegInfinity => {
                    proof {
                        assert(false);
                    }
                    Right::PosInfinity
                },
                Left::Closed(x) => Right::Open(x),
                Left::Open(x) => Right::Closed(x),
            };
            Interval { left: ll, right: r }
        };
        let isx = Interval { left: rl, right: lr };
        let v = vec![minus];
        proof {
            let z0 = choose|z: int| self.has_point(z) && other.has_point(z);
            assert(isx.has_point(z0));
            assert forall|z: int| (exists|k: int| 0 <= k < v@.len() && v@[k].has_point(z)) <==> (s.has_point(z) && !o.has_point(z)) by {
                if s.has_point(z) && !o.has_point(z) {
                    assert(v@[0].has_point(z));
                }
            }
        }
        (Some(isx), v)
    }
}

/// For non-empty intervals, `intersects` decides whether they share a point.
pub proof fn lemma_intersects_points<T: TotalOrder>(a: Interval<T>, b: Interval<T>)
    requires
        !a.empty_spec(),
        !b.empty_spec(),
    ensures
        a.intersects_spec(b) <==> exists|z: int| a.has_point(z) && b.has_point(z),
{
    let (p, q) = if interval_lt(a, b) { (a, b) } else { (b, a) };
    if a.intersects_spec(b) {
        match (lo(q.left), lo(p.left)) {
            (Some(x), _) => assert(a.has_point(x) && b.has_point(x)),
            (None, Some(y)) => assert(a.has_point(y) && b.has_point(y)),
            (None, None) => {
                match (hi(p.right), hi(q.right)) {
                    (Some(x), Some(y)) => {
                        let m = if x < y { x } else { y };
                        assert(a.has_point(m) && b.has_point(m));
                    },
                    (Some(x), None) => assert(a.has_point(x) && b.has_point(x)),
                    (None, Some(y)) => assert(a.has_point(y) && b.has_point(y)),
                    (None, None) => assert(a.has_point(0) && b.has_point(0)),
                }
            },
        }
    }
}

/// For non-empty intervals, `is_subset_of` decides whether every point of
/// the first is a point of the second.
pub proof fn lemma_subset_points<T: TotalOrder>(a: Interval<T>, b: Interval<T>)
    requires
        !a.empty_spec(),
    ensures
        a.subset_spec(b) <==> forall|z: int| a.has_point(z) ==> b.has_point(z),
{
    if !a.subset_spec(b) {
        if !left_le(b.left, a.left) {
            let bl = lo(b.left).unwrap();
            match lo(a.left) {
                Some(x) => assert(a.has_point(x) && !b.has_point(x)),
                None => {
                    let z = match hi(a.right) {
                        Some(y) => if y < bl - 1 { y } else { bl - 1 },
                        None => bl - 1,
                    };
                    assert(a.has_point(z) && !b.has_point(z));
                },
            }
        } else {
            match hi(a.right) {
                Some(y) => assert(a.has_point(y) && !b.has_point(y)),
                None => {
                    let y = hi(b.right).unwrap();
                    let z = match lo(a.left) {
                        Some(x) => if x > y + 1 { x } else { y + 1 },
                        None => y + 1,
                    };
                    assert(a.has_point(z) && !b.has_point(z));
                },
            }
        }
    }
}

/// Where the later of two intervals does not end first, `intersection`
/// gives exactly their common points.
pub proof fn lemma_intersection_points<T: TotalOrder>(a: Interval<T>, b: Interval<T>, z: int)
    requires
        if interval_lt(a, b) { right_le(a.right, b.right) } else { right_le(b.right, a.right) },
    ensures
        a.meet_spec(b).has_point(z) <==> (a.has_point(z) && b.has_point(z)),
{
}

/// `z` is a point of `a` or of `b`.
pub open spec fn in_union<T: TotalOrder>(a: Interval<T>, b: Interval<T>, z: int) -> bool {
    a.has_point(z) || b.has_point(z)
}

/// The union of `a` and `b` has no gap: every point between two of its
/// points is one of its points.
pub open spec fn union_convex<T: TotalOrder>(a: Interval<T>, b: Interval<T>) -> bool {
    forall|x: int, y: int, z: int|
        #![trigger in_union(a, b, x), in_union(a, b, y), in_union(a, b, z)]
        x <= y <= z && in_union(a, b, x) && in_union(a, b, z) ==> in_union(a, b, y)
}

/// For non-empty intervals, `is_connected_with` decides whether their union
/// is an interval (has no gap), and so does not depend on the order of the
/// two.
pub proof fn lemma_connected_points<T: TotalOrder>(a: Interval<T>, b: Interval<T>)
    requires
        !a.empty_spec(),
        !b.empty_spec(),
    ensures
        a.connected_spec(b) == b.connected_spec(a),
        a.connected_spec(b) <==> union_convex(a, b),
{
    let (p, q) = if interval_lt(a, b) { (a, b) } else { (b, a) };
    if !a.connected_spec(b) {
        let x = lo(q.left).unwrap();
        let y = hi(p.right).unwrap();
        assert(p.has_point(y));
        assert(q.has_point(x));
        assert(in_union(a, b, y) && in_union(a, b, x) && !in_union(a, b, y + 1));
    }
}

} // verus!
