//! The number of inversions of a sequence.
use vstd::prelude::*;

use crate::counting::{count_of, lemma_count_bound, lemma_count_split};
use crate::order::TotalOrder;

verus! {

/// The number of pairs `i < j` with `s[i]` above `s[j]`.
pub open spec fn inversions<T: TotalOrder>(s: Seq<T>) -> int
    decreases s.len(),
{
    if s.len() == 0 {
        0
    } else {
        inversions(s.drop_last()) + count_of(|i: int| s[i].rank() > s.last().rank(), 0, s.len() - 1)
    }
}

/// A prefix has no more inversions than the whole.
proof fn lemma_inversions_prefix<T: TotalOrder>(s: Seq<T>, j: int)
    requires
        0 <= j <= s.len(),
    ensures
        inversions(s.take(j)) <= inversions(s),
    decreases s.len(),
{
    if j < s.len() {
        assert(s.drop_last().take(j) =~= s.take(j));
        lemma_inversions_prefix(s.drop_last(), j);
    } else {
        assert(s.take(j) =~= s);
    }
}

/// Counting inversions.
pub trait Inversion {
    /// The number of inversions.
    spec fn inversion_count(&self) -> int;

    /// The number of inversions, where it fits in `u64`.
    fn inversion(&self) -> (r: u64)
        requires
            self.inversion_count() <= u64::MAX,
        ensures
            r == self.inversion_count(),
    ;
}

impl<T: TotalOrder> Inversion for [T] {
    open spec fn inversion_count(&self) -> int {
        inversions(self@)
    }

    fn inversion(&self) -> (r: u64) {
        let n = self.len();
        let ghost s = self@;
        let mut res: u64 = 0;
        let mut j: usize = 0;
        while j < n
            invariant
                n == s.len(),
                s == self@,
                j <= n,
                inversions(s) <= u64::MAX,
                res == inversions(s.take(j as int)),
            decreases n - j,
        {
            let ghost t = s.take(j + 1);
            let ghost pred = |i: int| t[i].rank() > t.last().rank();
            proof {
                assert(t.drop_last() =~= s.take(j as int));
                lemma_inversions_prefix(s, j + 1);
            }
            let mut i: usize = 0;
            while i < j
                invariant
                    n == s.len(),
                    s == self@,
                    j < n,
                    i <= j,
                    t == s.take(j + 1),
                    pred == (|i: int| t[i].rank() > t.last().rank()),
                    inversions(t) <= u64::MAX,
                    inversions(t) == inversions(s.take(j as int)) + count_of(pred, 0, j as int),
                    res == inversions(s.take(j as int)) + count_of(pred, 0, i as int),
                decreases j - i,
            {
                proof {
                    lemma_count_split(pred, 0, i as int, j as int);
                    lemma_count_split(pred, i as int, i + 1, j as int);
                    lemma_count_bound(pred, i + 1, j as int);
                    assert(count_of(pred, i as int, i as int) == 0);
                    reveal_with_fuel(count_of, 2);
                    assert(t[i as int] == self@[i as int]);
                    assert(t.last() == self@[j as int]);
                }
                if self[j].less(&self[i]) {
                    res += 1;
                }
                i += 1;
            }
            j += 1;
        }
        proof {
            assert(s.take(n as int) =~= s);
        }
        res
    }
}

} // verus!
