//! An endpoint of a range.
use vstd::prelude::*;

use crate::order::TotalOrder;

verus! {

/// An endpoint of a range: included, excluded, or none.
#[derive(Copy, Debug, PartialEq, Eq)]
pub enum Bound<T> {
    Included(T),
    Excluded(T),
    Unbounded,
}

impl<T: Copy> Clone for Bound<T> {
    fn clone(&self) -> (r: Self)
        ensures
            r == *self,
    {
        *self
    }
}

/// `x` lies above the lower end `b`.
pub open spec fn above<T: TotalOrder>(b: Bound<T>, x: T) -> bool {
    match b {
        Bound::Included(a) => a.rank() <= x.rank(),
        Bound::Excluded(a) => a.rank() < x.rank(),
        Bound::Unbounded => true,
    }
}

/// `x` lies below the upper end `b`.
pub open spec fn below<T: TotalOrder>(b: Bound<T>, x: T) -> bool {
    match b {
        Bound::Included(a) => x.rank() <= a.rank(),
        Bound::Excluded(a) => x.rank() < a.rank(),
        Bound::Unbounded => true,
    }
}

/// `x` lies between `lo` and `hi`.
pub open spec fn in_range<T: TotalOrder>(lo: Bound<T>, hi: Bound<T>, x: T) -> bool {
    above(lo, x) && below(hi, x)
}

/// Whether `x` lies above the lower end `b`.
pub fn is_above<T: TotalOrder>(b: &Bound<T>, x: &T) -> (r: bool)
    ensures
        r == above(*b, *x),
{
    match b {
        Bound::Included(a) => !x.less(a),
        Bound::Excluded(a) => a.less(x),
        Bound::Unbounded => true,
    }
}

/// Whether `x` lies below the upper end `b`.
pub fn is_below<T: TotalOrder>(b: &Bound<T>, x: &T) -> (r: bool)
    ensures
        r == below(*b, *x),
{
    match b {
        Bound::Included(a) => !a.less(x),
        Bound::Excluded(a) => x.less(a),
        Bound::Unbounded => true,
    }
}

} // verus!
