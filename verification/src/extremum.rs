//! The peak of a unimodal function, found by Fibonacci search.
use vstd::prelude::*;

use crate::order::TotalOrder;

verus! {

/// `f` has a single outcome at each index of `start..end`.
pub open spec fn deterministic<T, F: Fn(usize) -> T>(f: F, start: usize, end: usize) -> bool {
    forall|i: usize, a: T, b: T|
        start <= i < end && #[trigger] call_ensures(f, (i,), a) && #[trigger] call_ensures(f, (i,), b) ==> a == b
}

/// `f` returns something at `i`.
pub open spec fn returns_at<T, F: Fn(usize) -> T>(f: F, i: usize) -> bool {
    exists|t: T| call_ensures(f, (i,), t)
}

/// `p` is the peak of `f` on `start..end`: the outcomes of `f` rise
/// strictly up to `p` and fall strictly after it.
pub open spec fn is_peak<T: TotalOrder, F: Fn(usize) -> T>(f: F, start: usize, end: usize, p: usize) -> bool {
    &&& start <= p < end
    &&& forall|i: usize, j: usize, a: T, b: T|
        start <= i < j <= p && #[trigger] call_ensures(f, (i,), a) && #[trigger] call_ensures(f, (j,), b) ==> a.rank() < b.rank()
    &&& forall|i: usize, j: usize, a: T, b: T|
        p <= i < j < end && #[trigger] call_ensures(f, (i,), a) && #[trigger] call_ensures(f, (j,), b) ==> a.rank() > b.rank()
}

/// The Fibonacci numbers.
pub open spec fn fib(k: nat) -> nat
    decreases k,
{
    if k == 0 {
        0
    } else if k == 1 {
        1
    } else {
        fib((k - 1) as nat) + fib((k - 2) as nat)
    }
}

proof fn lemma_fib_pos(k: nat)
    requires
        k >= 1,
    ensures
        fib(k) >= 1,
    decreases k,
{
    if k > 1 {
        lemma_fib_pos((k - 1) as nat);
    }
}

proof fn lemma_fib_mono(k: nat)
    ensures
        fib(k) <= fib(k + 1),
    decreases k,
{
    if k >= 1 {
        lemma_fib_pos(k);
    }
    assert(fib(k + 1) == if k + 1 == 1 { 1 } else { fib(k) + fib((k - 1) as nat) });
}

/// A unimodal function that returns at every index has one peak.
pub proof fn lemma_peak_unique<T: TotalOrder, F: Fn(usize) -> T>(f: F, start: usize, end: usize, p: usize, q: usize)
    requires
        is_peak(f, start, end, p),
        is_peak(f, start, end, q),
        forall|i: usize| start <= i < end ==> #[trigger] returns_at(f, i),
    ensures
        p == q,
{
    if p != q {
        let m = if p < q { p } else { q };
        assert(returns_at(f, m) && returns_at(f, (m + 1) as usize));
        let m1 = (m + 1) as usize;
        let a = choose|t: T| #[trigger] call_ensures(f, (m,), t);
        let b = choose|t: T| #[trigger] call_ensures(f, (m1,), t);
        assert(call_ensures(f, (m,), a) && call_ensures(f, (m1,), b));
    }
}

/// `f` at `start + i`, where `i < n`.
fn probe<T: TotalOrder, F: Fn(usize) -> T>(f: &F, start: usize, n: usize, i: usize) -> (r: Option<T>)
    requires
        start + n <= usize::MAX,
        forall|j: usize| start <= j < start + n ==> call_requires(*f, (j,)),
    ensures
        r is Some <==> i < n,
        r matches Some(t) ==> call_ensures(*f, ((start + i) as usize,), t),
{
    if i < n {
        let t = f(start + i);
        Some(t)
    } else {
        None
    }
}

/// The peak of `f` on `start..end`, where `f` rises strictly up to a point
/// and falls strictly after it, with its value there.
pub fn extremum<T: TotalOrder, F: Fn(usize) -> T>(start: usize, end: usize, f: F) -> (r: (usize, T))
    requires
        start < end,
        end - start <= usize::MAX / 2,
        forall|i: usize| start <= i < end ==> call_requires(f, (i,)),
        deterministic(f, start, end),
        exists|p: usize| is_peak(f, start, end, p),
    ensures
        is_peak(f, start, end, r.0),
        call_ensures(f, (r.0,), r.1),
{
    let n = end - start;
    let ghost p = choose|p: usize| is_peak(f, start, end, p);
    let ghost pp: int = p - start;
    let mut i0: usize = 0;
    let mut i1: usize = 1;
    let ghost mut k: nat = 0;
    proof {
        assert(fib(1) == 1);
    }
    while i0 + i1 < n
        invariant
            n == end - start,
            n <= usize::MAX / 2,
            i0 == fib(k),
            i1 == fib(k + 1),
            i0 <= i1 <= n,
            i1 >= 1,
        decreases 2 * n - (i0 + i1),
    {
        let tmp = i0 + i1;
        proof {
            assert(fib(k + 2) == fib(k + 1) + fib(k));
            lemma_fib_pos(k + 1);
            lemma_fib_mono(k + 1);
        }
        i0 = i1;
        i1 = tmp;
        proof {
            k = k + 1;
            lemma_fib_pos(k);
        }
    }
    let mut d = i0;
    let mut g0 = probe(&f, start, n, i0);
    let mut g1 = probe(&f, start, n, i1);
    let ghost mut j: nat = k;
    proof {
        assert(fib(k + 1) == i1);
    }
    while d > 0
        invariant
            n == end - start,
            n <= usize::MAX / 2,
            forall|i: usize| start <= i < end ==> call_requires(f, (i,)),
            deterministic(f, start, end),
            is_peak(f, start, end, p),
            pp == p - start,
            d == fib(j),
            d + (i1 - i0) == fib(j + 1),
            i0 <= i1,
            d <= i0,
            i1 + d <= 2 * n,
            i0 - d <= pp <= i1 + d,
            d > 0 ==> pp < i1 + d,
            g0 is Some <==> i0 < n,
            g1 is Some <==> i1 < n,
            g0 matches Some(x) ==> call_ensures(f, ((start + i0) as usize,), x),
            g1 matches Some(x) ==> call_ensures(f, ((start + i1) as usize,), x),
        decreases j,
    {
        proof {
            lemma_fib_pos(j);
            if j == 0 {
                assert(false);
            }
            assert(fib(j + 1) == fib(j) + fib((j - 1) as nat));
        }
        let right = match (&g0, &g1) {
            (Some(f0), Some(f1)) => {
                let r = f0.less(f1);
                proof {
                    let a0 = (start + i0) as usize;
                    let a1 = (start + i1) as usize;
                    assert(call_ensures(f, (a0,), *f0) && call_ensures(f, (a1,), *f1));
                }
                r
            },
            _ => false,
        };
        if right {
            let tmp = i0 + d;
            i0 = i1;
            i1 = tmp;
            g0 = g1;
            g1 = probe(&f, start, n, i1);
        } else {
            let tmp = i1 - d;
            i1 = i0;
            i0 = tmp;
            g1 = g0;
            g0 = probe(&f, start, n, i0);
        }
        d = d + i0 - i1;
        proof {
            j = (j - 1) as nat;
        }
    }
    proof {
        assert(fib(1) == 1);
        if j > 0 {
            lemma_fib_pos(j);
        }
    }
    match (g0, g1) {
        (Some(f0), Some(f1)) => {
            proof {
                let a0 = (start + i0) as usize;
                let a1 = (start + i1) as usize;
                assert(call_ensures(f, (a0,), f0) && call_ensures(f, (a1,), f1));
            }
            if f0.less(&f1) {
                (start + i1, f1)
            } else {
                (start + i0, f0)
            }
        },
        (Some(f0), None) => (start + i0, f0),
        (None, _) => {
            proof {
                assert(false);
            }
            (start, f(start))
        },
    }
}

} // verus!
