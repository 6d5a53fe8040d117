use vstd::prelude::*;

verus! {

/// A totally ordered type whose values are ordered as the integers given
/// by `rank`, which tells different values apart.
pub trait TotalOrder: Copy {
    /// The integer by which a value is ordered.
    spec fn rank(&self) -> int;

    /// Different values have different ranks.
    proof fn rank_injective(a: Self, b: Self)
        requires
            a.rank() == b.rank(),
        ensures
            a == b,
    ;

    /// `self < other`.
    fn less(&self, other: &Self) -> (r: bool)
        ensures
            r == (self.rank() < other.rank()),
    ;

    /// `self == other`.
    fn same(&self, other: &Self) -> (r: bool)
        ensures
            r == (self.rank() == other.rank()),
    ;
}

/// The integer value of an index.
pub open spec fn int_of(u: usize) -> int {
    u as int
}

/// `a` is not greater than `b`.
pub open spec fn le<T: TotalOrder>(a: T, b: T) -> bool {
    a.rank() <= b.rank()
}

/// `a` is less than `b`.
pub open spec fn lt<T: TotalOrder>(a: T, b: T) -> bool {
    a.rank() < b.rank()
}

/// `s` is sorted in non-decreasing order.
pub open spec fn sorted<T: TotalOrder>(s: Seq<T>) -> bool {
    forall|i: int, j: int| 0 <= i <= j < s.len() ==> s[i].rank() <= s[j].rank()
}

/// `s` is sorted in non-increasing order.
pub open spec fn sorted_desc<T: TotalOrder>(s: Seq<T>) -> bool {
    forall|i: int, j: int| 0 <= i <= j < s.len() ==> s[i].rank() >= s[j].rank()
}

/// `s` is strictly increasing.
pub open spec fn strictly_sorted<T: TotalOrder>(s: Seq<T>) -> bool {
    forall|i: int, j: int| 0 <= i < j < s.len() ==> s[i].rank() < s[j].rank()
}

/// `a` is not greater than `b`.
pub fn less_equal<T: TotalOrder>(a: &T, b: &T) -> (r: bool)
    ensures
        r == le(*a, *b),
{
    !b.less(a)
}

impl TotalOrder for bool {
    open spec fn rank(&self) -> int {
        if *self { 1 } else { 0 }
    }

    proof fn rank_injective(a: Self, b: Self) {
    }

    fn less(&self, other: &Self) -> (r: bool) {
        !*self && *other
    }

    fn same(&self, other: &Self) -> (r: bool) {
        *self == *other
    }
}

impl TotalOrder for char {
    open spec fn rank(&self) -> int {
        *self as int
    }

    proof fn rank_injective(a: Self, b: Self) {
    }

    fn less(&self, other: &Self) -> (r: bool) {
        *self < *other
    }

    fn same(&self, other: &Self) -> (r: bool) {
        *self == *other
    }
}

impl TotalOrder for u8 {
    open spec fn rank(&self) -> int {
        *self as int
    }

    proof fn rank_injective(a: Self, b: Self) {
    }

    fn less(&self, other: &Self) -> (r: bool) {
        *self < *other
    }

    fn same(&self, other: &Self) -> (r: bool) {
        *self == *other
    }
}

impl TotalOrder for u16 {
    open spec fn rank(&self) -> int {
        *self as int
    }

    proof fn rank_injective(a: Self, b: Self) {
    }

    fn less(&self, other: &Self) -> (r: bool) {
        *self < *other
    }

    fn same(&self, other: &Self) -> (r: bool) {
        *self == *other
    }
}

impl TotalOrder for u32 {
    open spec fn rank(&self) -> int {
        *self as int
    }

    proof fn rank_injective(a: Self, b: Self) {
    }

    fn less(&self, other: &Self) -> (r: bool) {
        *self < *other
    }

    fn same(&self, other: &Self) -> (r: bool) {
        *self == *other
    }
}

impl TotalOrder for u64 {
    open spec fn rank(&self) -> int {
        *self as int
    }

    proof fn rank_injective(a: Self, b: Self) {
    }

    fn less(&self, other: &Self) -> (r: bool) {
        *self < *other
    }

    fn same(&self, other: &Self) -> (r: bool) {
        *self == *other
    }
}

impl TotalOrder for usize {
    open spec fn rank(&self) -> int {
        *self as int
    }

    proof fn rank_injective(a: Self, b: Self) {
    }

    fn less(&self, other: &Self) -> (r: bool) {
        *self < *other
    }

    fn same(&self, other: &Self) -> (r: bool) {
        *self == *other
    }
}

impl TotalOrder for i8 {
    open spec fn rank(&self) -> int {
        *self as int
    }

    proof fn rank_injective(a: Self, b: Self) {
    }

    fn less(&self, other: &Self) -> (r: bool) {
        *self < *other
    }

    fn same(&self, other: &Self) -> (r: bool) {
        *self == *other
    }
}

impl TotalOrder for i16 {
    open spec fn rank(&self) -> int {
        *self as int
    }

    proof fn rank_injective(a: Self, b: Self) {
    }

    fn less(&self, other: &Self) -> (r: bool) {
        *self < *other
    }

    fn same(&self, other: &Self) -> (r: bool) {
        *self == *other
    }
}

impl TotalOrder for i32 {
    open spec fn rank(&self) -> int {
        *self as int
    }

    proof fn rank_injective(a: Self, b: Self) {
    }

    fn less(&self, other: &Self) -> (r: bool) {
        *self < *other
    }

    fn same(&self, other: &Self) -> (r: bool) {
        *self == *other
    }
}

impl TotalOrder for i64 {
    open spec fn rank(&self) -> int {
        *self as int
    }

    proof fn rank_injective(a: Self, b: Self) {
    }

    fn less(&self, other: &Self) -> (r: bool) {
        *self < *other
    }

    fn same(&self, other: &Self) -> (r: bool) {
        *self == *other
    }
}

impl TotalOrder for isize {
    open spec fn rank(&self) -> int {
        *self as int
    }

    proof fn rank_injective(a: Self, b: Self) {
    }

    fn less(&self, other: &Self) -> (r: bool) {
        *self < *other
    }

    fn same(&self, other: &Self) -> (r: bool) {
        *self == *other
    }
}
} // verus!
