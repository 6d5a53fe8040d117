//! Counting the integers of a range that satisfy a predicate.
use vstd::prelude::*;

verus! {

/// The number of `i` in `lo..hi` for which `f(i)` holds.
pub open spec fn count_of(f: spec_fn(int) -> bool, lo: int, hi: int) -> nat
    decreases hi - lo,
{
    if hi <= lo {
        0
    } else {
        count_of(f, lo, hi - 1) + if f(hi - 1) { 1nat } else { 0nat }
    }
}

/// The count is the size of the set of integers in `lo..hi` that satisfy `f`.
pub proof fn lemma_count_card(f: spec_fn(int) -> bool, lo: int, hi: int)
    requires
        lo <= hi,
    ensures
        Set::new(|i: int| lo <= i < hi && f(i)).finite(),
        count_of(f, lo, hi) == Set::new(|i: int| lo <= i < hi && f(i)).len(),
    decreases hi - lo,
{
    let s1 = Set::new(|i: int| lo <= i < hi && f(i));
    if hi == lo {
        assert(s1 =~= Set::empty());
    } else {
        lemma_count_card(f, lo, hi - 1);
        let s0 = Set::new(|i: int| lo <= i < hi - 1 && f(i));
        if f(hi - 1) {
            assert(s1 =~= s0.insert(hi - 1));
        } else {
            assert(s1 =~= s0);
        }
    }
}

/// Counting a weaker predicate gives no less.
pub proof fn lemma_count_le(f: spec_fn(int) -> bool, g: spec_fn(int) -> bool, lo: int, hi: int)
    requires
        forall|j: int| lo <= j < hi && #[trigger] f(j) ==> g(j),
    ensures
        count_of(f, lo, hi) <= count_of(g, lo, hi),
    decreases hi - lo,
{
    if hi > lo {
        lemma_count_le(f, g, lo, hi - 1);
    }
}

/// Counting a weaker predicate that also holds at `i`, where the stronger
/// does not, gives more.
pub proof fn lemma_count_lt(f: spec_fn(int) -> bool, g: spec_fn(int) -> bool, lo: int, hi: int, i: int)
    requires
        forall|j: int| lo <= j < hi && #[trigger] f(j) ==> g(j),
        lo <= i < hi,
        g(i),
        !f(i),
    ensures
        count_of(f, lo, hi) < count_of(g, lo, hi),
    decreases hi - lo,
{
    if hi - 1 == i {
        lemma_count_le(f, g, lo, hi - 1);
    } else {
        lemma_count_lt(f, g, lo, hi - 1, i);
    }
}

pub proof fn lemma_count_flip(f: spec_fn(int) -> bool, g: spec_fn(int) -> bool, lo: int, hi: int, i: int)
    requires
        lo <= i < hi,
        forall|j: int| lo <= j < hi && j != i ==> #[trigger] f(j) == g(j),
    ensures
        count_of(g, lo, hi) + (if f(i) { 1int } else { 0 }) == count_of(f, lo, hi) + (if g(i) { 1int } else { 0 }),
    decreases hi - lo,
{
    if hi - 1 > i {
        lemma_count_flip(f, g, lo, hi - 1, i);
    } else {
        lemma_count_same(f, g, lo, hi - 1);
    }
}

pub proof fn lemma_count_same(f: spec_fn(int) -> bool, g: spec_fn(int) -> bool, lo: int, hi: int)
    requires
        forall|j: int| lo <= j < hi ==> #[trigger] f(j) == g(j),
    ensures
        count_of(g, lo, hi) == count_of(f, lo, hi),
    decreases hi - lo,
{
    if hi > lo {
        lemma_count_same(f, g, lo, hi - 1);
    }
}

pub proof fn lemma_count_bound(f: spec_fn(int) -> bool, lo: int, hi: int)
    ensures
        lo <= hi ==> count_of(f, lo, hi) <= hi - lo,
    decreases hi - lo,
{
    if hi > lo {
        lemma_count_bound(f, lo, hi - 1);
    }
}

pub proof fn lemma_count_split(f: spec_fn(int) -> bool, lo: int, mid: int, hi: int)
    requires
        lo <= mid <= hi,
    ensures
        count_of(f, lo, hi) == count_of(f, lo, mid) + count_of(f, mid, hi),
    decreases hi - lo,
{
    if hi > mid {
        lemma_count_split(f, lo, mid, hi - 1);
    }
}

pub proof fn lemma_count_zero(lo: int, hi: int)
    ensures
        count_of(|i: int| false, lo, hi) == 0,
    decreases hi - lo,
{
    if hi > lo {
        lemma_count_zero(lo, hi - 1);
    }
}


/// Counting a disjoint union adds the counts.
pub proof fn lemma_count_union(f: spec_fn(int) -> bool, g: spec_fn(int) -> bool, h: spec_fn(int) -> bool, lo: int, hi: int)
    requires
        forall|j: int| lo <= j < hi ==> !(#[trigger] f(j) && g(j)),
        forall|j: int| lo <= j < hi ==> #[trigger] h(j) == (f(j) || g(j)),
    ensures
        count_of(h, lo, hi) == count_of(f, lo, hi) + count_of(g, lo, hi),
    decreases hi - lo,
{
    if hi > lo {
        lemma_count_union(f, g, h, lo, hi - 1);
        assert(h(hi - 1) == (f(hi - 1) || g(hi - 1)));
        assert(!(f(hi - 1) && g(hi - 1)));
    }
}

/// Where `f` fails somewhere in `lo..hi`, fewer than `hi - lo` satisfy it.
pub proof fn lemma_count_missing(f: spec_fn(int) -> bool, lo: int, hi: int, i: int)
    requires
        lo <= i < hi,
        !f(i),
    ensures
        count_of(f, lo, hi) < hi - lo,
{
    lemma_count_split(f, lo, i, hi);
    lemma_count_split(f, i, i + 1, hi);
    lemma_count_bound(f, lo, i);
    lemma_count_bound(f, i + 1, hi);
    assert(count_of(f, i, i) == 0);
    assert(count_of(f, i, i + 1) == 0) by {
        reveal_with_fuel(count_of, 2);
    }
}

} // verus!
