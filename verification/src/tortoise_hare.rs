//! Floyd's cycle detection on the sequence `x, f(x), f(f(x)), ...`.
use vstd::prelude::*;

use crate::order::TotalOrder;

verus! {

/// Every outcome of `f` is what `g` gives.
pub open spec fn follows<T, F: Fn(T) -> T>(f: F, g: spec_fn(T) -> T) -> bool {
    forall|y: T, z: T| #[trigger] call_ensures(f, (y,), z) ==> z == g(y)
}

/// `g` applied `k` times to `x`.
pub open spec fn orbit<T>(g: spec_fn(T) -> T, x: T, k: nat) -> T
    decreases k,
{
    if k == 0 {
        x
    } else {
        g(orbit(g, x, (k - 1) as nat))
    }
}

/// The sequence from `x` under `g` reaches its cycle after `mu` steps, and
/// the cycle has `lambda` elements.
pub open spec fn is_rho<T>(g: spec_fn(T) -> T, x: T, mu: nat, lambda: nat) -> bool {
    &&& lambda > 0
    &&& orbit(g, x, mu + lambda) == orbit(g, x, mu)
    &&& forall|k: nat| mu < k < mu + lambda ==> #[trigger] orbit(g, x, k) != orbit(g, x, mu)
    &&& forall|k: nat| k < mu ==> orbit(g, x, k + lambda) != #[trigger] orbit(g, x, k)
}

/// Walks compose.
pub proof fn lemma_orbit_add<T>(f: spec_fn(T) -> T, x: T, a: nat, b: nat)
    ensures
        orbit(f, x, a + b) == orbit(f, orbit(f, x, a), b),
    decreases b,
{
    if b > 0 {
        lemma_orbit_add(f, x, a, (b - 1) as nat);
        assert(orbit(f, x, a + b) == f(orbit(f, x, (a + b - 1) as nat)));
    }
}

/// Equal elements have equal successors.
proof fn lemma_shift<T>(f: spec_fn(T) -> T, x: T, a: nat, b: nat, i: nat)
    requires
        orbit(f, x, a) == orbit(f, x, b),
    ensures
        orbit(f, x, a + i) == orbit(f, x, b + i),
{
    lemma_orbit_add(f, x, a, i);
    lemma_orbit_add(f, x, b, i);
}

/// On the cycle, going round it `c` times leads back.
proof fn lemma_periodic<T>(f: spec_fn(T) -> T, x: T, mu: nat, lambda: nat, k: nat, c: nat)
    requires
        is_rho(f, x, mu, lambda),
        k >= mu,
    ensures
        orbit(f, x, k + c * lambda) == orbit(f, x, k),
    decreases c,
{
    if c > 0 {
        let c1 = (c - 1) as nat;
        lemma_periodic(f, x, mu, lambda, k, c1);
        let kk: nat = k + c1 * lambda;
        assert(kk + lambda == k + c * lambda) by (nonlinear_arith)
            requires
                c1 == c - 1,
                kk == k + c1 * lambda,
        ;
        assert(kk >= mu) by (nonlinear_arith)
            requires
                kk == k + c1 * lambda,
                k >= mu,
        ;
        // one more round, from the start of the cycle
        let i = (kk - mu) as nat;
        lemma_shift(f, x, mu + lambda, mu, i);
        assert(mu + lambda + i == kk + lambda);
        assert(mu + i == kk);
    } else {
        assert(c * lambda == 0) by (nonlinear_arith)
            requires
                c == 0,
        ;
    }
}

/// An element that comes back after `q` steps keeps coming back after
/// `c * q` steps.
proof fn lemma_repeat<T>(f: spec_fn(T) -> T, x: T, m: nat, q: nat, c: nat)
    requires
        orbit(f, x, m) == orbit(f, x, m + q),
    ensures
        orbit(f, x, m + c * q) == orbit(f, x, m),
    decreases c,
{
    if c > 0 {
        let c1 = (c - 1) as nat;
        lemma_repeat(f, x, m, q, c1);
        let i: nat = c1 * q;
        assert(m + i + q == m + c * q) by (nonlinear_arith)
            requires
                c1 == c - 1,
                i == c1 * q,
        ;
        lemma_shift(f, x, m, m + q, i);
        assert(m + q + i == m + i + q);
    } else {
        assert(c * q == 0) by (nonlinear_arith)
            requires
                c == 0,
        ;
    }
}

/// Before the cycle, no element comes back.
proof fn lemma_tail<T>(f: spec_fn(T) -> T, x: T, mu: nat, lambda: nat, m: nat, q: nat)
    requires
        is_rho(f, x, mu, lambda),
        m < mu,
        q >= 1,
    ensures
        orbit(f, x, m) != orbit(f, x, m + q),
{
    if orbit(f, x, m) == orbit(f, x, m + q) {
        let c = mu;
        assert(c * q >= mu) by (nonlinear_arith)
            requires
                q >= 1,
                c == mu,
        ;
        lemma_repeat(f, x, m, q, c);
        let k = (m + c * q) as nat;
        // from `m + c * q`, on the cycle, one round leads back
        lemma_periodic(f, x, mu, lambda, k, 1);
        assert(k + 1 * lambda == k + lambda);
        // and `m + lambda` is `lambda` steps from `m`, as `k + lambda` is from `k`
        lemma_shift(f, x, k, m, lambda);
        assert(orbit(f, x, m + lambda) == orbit(f, x, m));
    }
}

/// Where the tortoise meets the hare, `t` steps from the start of the
/// cycle lead back to it.
proof fn lemma_meet<T>(f: spec_fn(T) -> T, x: T, mu: nat, lambda: nat, t: nat)
    requires
        is_rho(f, x, mu, lambda),
        t >= 1,
        orbit(f, x, t) == orbit(f, x, t + t),
    ensures
        t >= mu,
        orbit(f, x, mu) == orbit(f, x, mu + t),
{
    if t < mu {
        lemma_tail(f, x, mu, lambda, t, t);
    }
    let s = (t - mu) as nat;
    let c = s;
    assert(c * lambda >= s) by (nonlinear_arith)
        requires
            lambda >= 1,
            c == s,
    ;
    let r = (c * lambda - s) as nat;
    // from the meeting point, `r` more steps on both sides
    lemma_shift(f, x, t, t + t, r);
    assert(t + r == mu + c * lambda);
    lemma_periodic(f, x, mu, lambda, mu, c);
    lemma_periodic(f, x, mu, lambda, mu + t, c);
    assert(t + t + r == mu + t + c * lambda);
}

/// Every point of the orbit of `x` under `g` before step `n` has been
/// handed to `f`, with the next point as its outcome.
pub open spec fn recorded<T, F: Fn(T) -> T>(f: F, g: spec_fn(T) -> T, x: T, n: nat) -> bool {
    forall|k: nat| k < n ==> call_ensures(f, (#[trigger] orbit(g, x, k),), orbit(g, x, k + 1))
}

/// Where `f` has been called along the orbit, every function that `f`
/// follows gives the same orbit.
proof fn lemma_same_orbit<T, F: Fn(T) -> T>(f: F, g: spec_fn(T) -> T, h: spec_fn(T) -> T, x: T, n: nat, k: nat)
    requires
        recorded(f, g, x, n),
        follows(f, h),
        k <= n,
    ensures
        orbit(h, x, k) == orbit(g, x, k),
    decreases k,
{
    if k > 0 {
        let k1 = (k - 1) as nat;
        lemma_same_orbit(f, g, h, x, n, k1);
        assert(call_ensures(f, (orbit(g, x, k1),), orbit(g, x, k1 + 1)));
    }
}

/// The number of steps from `x` to the cycle of `x, f(x), f(f(x)), ...`,
/// and the length of the cycle.
pub fn tortoise_hare<T: TotalOrder, F: Fn(T) -> T>(x: T, f: F) -> (r: (usize, usize))
    requires
        forall|y: T| call_requires(f, (y,)),
        exists|g: spec_fn(T) -> T, mu: nat, lambda: nat|
            follows(f, g) && is_rho(g, x, mu, lambda) && mu <= usize::MAX && lambda <= usize::MAX,
    ensures
        forall|g: spec_fn(T) -> T| #[trigger] follows(f, g) ==> is_rho(g, x, r.0 as nat, r.1 as nat),
{
    let ghost (g, mu0, lambda0) = choose|g: spec_fn(T) -> T, mu: nat, lambda: nat|
        follows(f, g) && is_rho(g, x, mu, lambda) && mu <= usize::MAX && lambda <= usize::MAX;
    let ghost t_star: nat = (mu0 + 1) * lambda0;
    proof {
        assert(t_star >= mu0 + 1) by (nonlinear_arith)
            requires
                lambda0 >= 1,
                t_star == (mu0 + 1) * lambda0,
        ;
        lemma_periodic(g, x, mu0, lambda0, t_star, mu0 + 1);
        assert(t_star + (mu0 + 1) * lambda0 == t_star + t_star);
    }
    let mut tor = f(x);
    let mut har = f(tor);
    let ghost mut t: nat = 1;
    proof {
        assert(orbit(g, x, 0) == x);
        assert(orbit(g, x, 1) == g(x));
        assert(orbit(g, x, 2) == g(orbit(g, x, 1)));
        assert forall|k: nat| k < 2 implies call_ensures(f, (#[trigger] orbit(g, x, k),), orbit(g, x, k + 1)) by {
            if k == 1 {
                assert(orbit(g, x, 1) == tor);
            }
        }
    }
    while !tor.same(&har)
        invariant
            forall|y: T| call_requires(f, (y,)),
            follows(f, g),
            is_rho(g, x, mu0, lambda0),
            orbit(g, x, t_star) == orbit(g, x, t_star + t_star),
            1 <= t <= t_star,
            tor == orbit(g, x, t),
            har == orbit(g, x, t + t),
            recorded(f, g, x, t + t),
        decreases t_star - t,
    {
        let ghost t2 = t + t;
        tor = f(tor);
        let h1 = f(har);
        har = f(h1);
        proof {
            assert(orbit(g, x, t + 1) == g(orbit(g, x, t)));
            assert(orbit(g, x, t2 + 1) == g(orbit(g, x, t2)));
            assert(orbit(g, x, t2 + 2) == g(orbit(g, x, t2 + 1)));
            assert forall|k: nat| k < t2 + 2 implies call_ensures(f, (#[trigger] orbit(g, x, k),), orbit(g, x, k + 1)) by {
                if k == t2 {
                    assert(h1 == orbit(g, x, t2 + 1));
                } else if k == t2 + 1 {
                    assert(h1 == orbit(g, x, t2 + 1));
                }
            }
            t = t + 1;
            assert(t + t == (t - 1) + (t - 1) + 2);
        }
    }
    proof {
        T::rank_injective(tor, har);
        lemma_meet(g, x, mu0, lambda0, t);
        if t < lambda0 {
            assert(orbit(g, x, mu0 + t) != orbit(g, x, mu0));
        }
    }
    let ghost reach: nat = t + t;
    // from the start, and from `t` steps ahead, until they meet: at the
    // start of the cycle
    tor = x;
    let mut mu: usize = 0;
    proof {
        assert(har == orbit(g, x, t));
        lemma_shift(g, x, t, t + t, 0);
    }
    while !tor.same(&har)
        invariant
            forall|y: T| call_requires(f, (y,)),
            follows(f, g),
            is_rho(g, x, mu0, lambda0),
            mu0 <= usize::MAX,
            t >= 1,
            orbit(g, x, mu0) == orbit(g, x, mu0 + t),
            mu <= mu0,
            tor == orbit(g, x, mu as nat),
            har == orbit(g, x, (mu + t) as nat),
            recorded(f, g, x, reach),
        decreases mu0 - mu,
    {
        tor = f(tor);
        har = f(har);
        proof {
            assert(orbit(g, x, (mu + 1) as nat) == g(orbit(g, x, mu as nat)));
            assert(orbit(g, x, (mu + t + 1) as nat) == g(orbit(g, x, (mu + t) as nat)));
        }
        mu += 1;
    }
    proof {
        T::rank_injective(tor, har);
        if mu < mu0 {
            lemma_tail(g, x, mu0, lambda0, mu as nat, t);
        }
    }
    // round the cycle once
    let mut lambda: usize = 1;
    har = f(tor);
    proof {
        assert(orbit(g, x, mu0 + 1) == g(orbit(g, x, mu0)));
    }
    while !tor.same(&har)
        invariant
            forall|y: T| call_requires(f, (y,)),
            follows(f, g),
            is_rho(g, x, mu0, lambda0),
            lambda0 <= usize::MAX,
            mu == mu0,
            1 <= lambda <= lambda0,
            tor == orbit(g, x, mu0),
            har == orbit(g, x, (mu0 + lambda) as nat),
            recorded(f, g, x, reach),
        decreases lambda0 - lambda,
    {
        har = f(har);
        proof {
            assert(orbit(g, x, (mu0 + lambda + 1) as nat) == g(orbit(g, x, (mu0 + lambda) as nat)));
        }
        lambda += 1;
    }
    proof {
        T::rank_injective(tor, har);
        if lambda < lambda0 {
            assert(orbit(g, x, (mu0 + lambda) as nat) != orbit(g, x, mu0));
        }
        assert(mu0 + lambda0 <= reach);
        assert forall|h: spec_fn(T) -> T| #[trigger] follows(f, h) implies is_rho(h, x, mu as nat, lambda as nat) by {
            assert forall|k: nat| k <= reach implies #[trigger] orbit(h, x, k) == orbit(g, x, k) by {
                lemma_same_orbit(f, g, h, x, reach, k);
            }
            assert(orbit(h, x, mu0 + lambda0) == orbit(g, x, mu0 + lambda0));
            assert(orbit(h, x, mu0) == orbit(g, x, mu0));
            assert forall|k: nat| mu0 < k < mu0 + lambda0 implies #[trigger] orbit(h, x, k) != orbit(h, x, mu0) by {
                assert(orbit(h, x, k) == orbit(g, x, k));
            }
            assert forall|k: nat| k < mu0 implies orbit(h, x, k + lambda0) != #[trigger] orbit(h, x, k) by {
                assert(orbit(h, x, k) == orbit(g, x, k));
                assert(orbit(h, x, k + lambda0) == orbit(g, x, k + lambda0));
            }
        }
    }
    (mu, lambda)
}

} // verus!
