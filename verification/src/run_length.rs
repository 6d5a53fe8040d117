//! Run-length encoding of the elements of a vector, as methods of it.
use vstd::prelude::*;

use crate::order::TotalOrder;
use crate::rle;

verus! {

/// The runs of equal elements.
pub trait Rle<T: TotalOrder>: Sized {
    spec fn elements(&self) -> Seq<T>;

    fn rle(self) -> (r: rle::Rle<T>)
        ensures
            r.wf(),
            r.rest() == self.elements(),
    ;
}

impl<T: TotalOrder> Rle<T> for Vec<T> {
    open spec fn elements(&self) -> Seq<T> {
        self@
    }

    fn rle(self) -> (r: rle::Rle<T>) {
        rle::Rle::new(self)
    }
}

/// The runs of elements related to the first of their run by `compare`.
pub trait RleBy<T: Copy>: Sized {
    spec fn elements(&self) -> Seq<T>;

    fn rle_by<F: Fn(&T, &T) -> bool>(self, compare: F) -> (r: rle::RleBy<T, F>)
        ensures
            r.wf(),
            r.rest() == self.elements(),
            r.compare() == compare,
    ;
}

impl<T: Copy> RleBy<T> for Vec<T> {
    open spec fn elements(&self) -> Seq<T> {
        self@
    }

    fn rle_by<F: Fn(&T, &T) -> bool>(self, compare: F) -> (r: rle::RleBy<T, F>) {
        rle::RleBy::new(self, compare)
    }
}

/// The runs of elements of equal keys.
pub trait RleByKey<T: Copy>: Sized {
    spec fn elements(&self) -> Seq<T>;

    fn rle_by_key<U: TotalOrder, K: Fn(&T) -> U>(self, key: K) -> (r: rle::RleByKey<T, K>)
        ensures
            r.wf(),
            r.rest() == self.elements(),
            r.key() == key,
    ;
}

impl<T: Copy> RleByKey<T> for Vec<T> {
    open spec fn elements(&self) -> Seq<T> {
        self@
    }

    fn rle_by_key<U: TotalOrder, K: Fn(&T) -> U>(self, key: K) -> (r: rle::RleByKey<T, K>) {
        rle::RleByKey::new(self, key)
    }
}

} // verus!
