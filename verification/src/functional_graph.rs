//! Functional graphs: the tail length and the cycle length of each vertex.
use vstd::prelude::*;

use crate::counting::{count_of, lemma_count_bound, lemma_count_flip, lemma_count_missing};

verus! {

/// `f` maps `0..f.len()` into itself.
pub open spec fn is_function(f: Seq<usize>) -> bool {
    forall|i: int| 0 <= i < f.len() ==> #[trigger] f[i] < f.len()
}

/// `f` applied `k` times to `x`.
pub open spec fn iterate(f: Seq<usize>, k: nat, x: int) -> int
    decreases k,
{
    if k == 0 {
        x
    } else {
        f[iterate(f, (k - 1) as nat, x)] as int
    }
}

/// From `x`, the walk reaches its cycle after `mu` steps, and the cycle has
/// `lambda` vertices.
pub open spec fn is_mu_lambda(f: Seq<usize>, x: int, mu: nat, lambda: nat) -> bool {
    &&& lambda > 0
    &&& iterate(f, mu + lambda, x) == iterate(f, mu, x)
    &&& forall|k: nat| mu < k < mu + lambda ==> #[trigger] iterate(f, k, x) != iterate(f, mu, x)
    &&& forall|k: nat| k < mu ==> iterate(f, k + lambda, x) != #[trigger] iterate(f, k, x)
}

pub proof fn lemma_iterate_range(f: Seq<usize>, k: nat, x: int)
    requires
        is_function(f),
        0 <= x < f.len(),
    ensures
        0 <= iterate(f, k, x) < f.len(),
    decreases k,
{
    if k > 0 {
        lemma_iterate_range(f, (k - 1) as nat, x);
    }
}

/// Walking `k` steps from `f(x)` is walking `k + 1` steps from `x`.
pub proof fn lemma_iterate_shift(f: Seq<usize>, k: nat, x: int)
    requires
        is_function(f),
        0 <= x < f.len(),
    ensures
        iterate(f, k, f[x] as int) == iterate(f, k + 1, x),
    decreases k,
{
    reveal_with_fuel(iterate, 2);
    if k > 0 {
        lemma_iterate_shift(f, (k - 1) as nat, x);
    }
}

/// Walks compose.
pub proof fn lemma_iterate_add(f: Seq<usize>, a: nat, b: nat, x: int)
    requires
        is_function(f),
        0 <= x < f.len(),
    ensures
        iterate(f, a + b, x) == iterate(f, b, iterate(f, a, x)),
    decreases b,
{
    if b > 0 {
        lemma_iterate_add(f, a, (b - 1) as nat, x);
    }
}

/// The tail and cycle length of a vertex are those of its image, the tail
/// one longer, where the vertex is not on the walk from its image.
proof fn lemma_mu_lambda_step(f: Seq<usize>, j: int, mu: nat, lambda: nat)
    requires
        is_function(f),
        0 <= j < f.len(),
        is_mu_lambda(f, f[j] as int, mu, lambda),
        forall|k: nat| iterate(f, k, f[j] as int) != j,
    ensures
        is_mu_lambda(f, j, mu + 1, lambda),
{
    let y = f[j] as int;
    assert forall|k: nat| iterate(f, k + 1, j) == iterate(f, k, y) by {
        lemma_iterate_shift(f, k, j);
    }
    assert(iterate(f, mu + 1 + lambda, j) == iterate(f, (mu + lambda) as nat, y));
    assert(iterate(f, mu + 1, j) == iterate(f, mu, y));
    assert forall|k: nat| mu + 1 < k < mu + 1 + lambda implies #[trigger] iterate(f, k, j) != iterate(f, mu + 1, j) by {
        assert(iterate(f, k, j) == iterate(f, (k - 1) as nat, y));
    }
    assert forall|k: nat| k < mu + 1 implies iterate(f, k + lambda, j) != #[trigger] iterate(f, k, j) by {
        if k == 0 {
            assert(iterate(f, lambda, j) == iterate(f, (lambda - 1) as nat, y));
        } else {
            let k1 = (k - 1) as nat;
            assert(iterate(f, k + lambda, j) == iterate(f, k1 + lambda, y));
            assert(iterate(f, k, j) == iterate(f, k1, y));
        }
    }
}

/// Vertex `x` has its answer.
pub open spec fn done(ml: Seq<(usize, usize)>, n: usize, x: int) -> bool {
    ml[x].1 != 0
}

/// The vertices with their answer.
pub open spec fn done_set(ml: Seq<(usize, usize)>, n: usize) -> spec_fn(int) -> bool {
    |x: int| done(ml, n, x)
}

/// Every vertex with its answer has the right one, its image has its
/// answer, and the answers are bounded.
#[verifier::opaque]
pub open spec fn answers_good(fs: Seq<usize>, ml: Seq<(usize, usize)>, index: Seq<usize>, n: usize) -> bool {
    forall|x: int| 0 <= x < n && #[trigger] done(ml, n, x) ==> is_mu_lambda(fs, x, ml[x].0 as nat, ml[x].1 as nat)
        && done(ml, n, fs[x] as int) && index[x] < n && ml[x].0 < count_of(done_set(ml, n), 0, n as int) && ml[x].1 <= n
}

/// What `answers_good` says of one vertex.
proof fn lemma_answer(fs: Seq<usize>, ml: Seq<(usize, usize)>, index: Seq<usize>, n: usize, x: int)
    requires
        answers_good(fs, ml, index, n),
        0 <= x < n,
        done(ml, n, x),
    ensures
        is_mu_lambda(fs, x, ml[x].0 as nat, ml[x].1 as nat),
        done(ml, n, fs[x] as int),
        index[x] < n,
        ml[x].0 < count_of(done_set(ml, n), 0, n as int),
        ml[x].1 <= n,
{
    reveal(answers_good);
}

/// The walk from a vertex with its answer stays among such vertices.
proof fn lemma_orbit_done(fs: Seq<usize>, ml: Seq<(usize, usize)>, index: Seq<usize>, n: usize, x: int, k: nat)
    requires
        n == fs.len(),
        is_function(fs),
        0 <= x < n,
        done(ml, n, x),
        answers_good(fs, ml, index, n),
    ensures
        done(ml, n, iterate(fs, k, x)),
    decreases k,
{
    if k > 0 {
        lemma_orbit_done(fs, ml, index, n, x, (k - 1) as nat);
        lemma_iterate_range(fs, (k - 1) as nat, x);
        lemma_answer(fs, ml, index, n, iterate(fs, (k - 1) as nat, x));
    }
}

/// Along a path of the walk, `m` steps from `st[a]` lead to `st[a + m]`.
proof fn lemma_walk_path(fs: Seq<usize>, st: Seq<usize>, a: int, m: nat)
    requires
        is_function(fs),
        0 <= a,
        a + m < st.len(),
        forall|t: int| 0 <= t < st.len() ==> #[trigger] st[t] < fs.len(),
        forall|t: int| 0 <= t < st.len() - 1 ==> fs[#[trigger] st[t] as int] == st[t + 1],
    ensures
        iterate(fs, m, st[a] as int) == st[a + m],
    decreases m,
{
    if m > 0 {
        lemma_walk_path(fs, st, a, (m - 1) as nat);
    }
}

/// A walk that closes on itself at `st[p]` is a cycle: every vertex on it
/// has tail `0` and cycle length `st.len() - p`.
proof fn lemma_cycle(fs: Seq<usize>, st: Seq<usize>, p: int, t: int)
    requires
        is_function(fs),
        0 <= p <= t < st.len(),
        forall|q: int| 0 <= q < st.len() ==> #[trigger] st[q] < fs.len(),
        forall|q: int| 0 <= q < st.len() - 1 ==> fs[#[trigger] st[q] as int] == st[q + 1],
        fs[st[st.len() - 1] as int] == st[p],
        forall|a: int, b: int| 0 <= a < b < st.len() ==> st[a] != st[b],
    ensures
        is_mu_lambda(fs, st[t] as int, 0, (st.len() - p) as nat),
{
    let len = st.len() as int;
    let l = (len - p) as nat;
    let x = st[t] as int;
    // to the end of the path, one step back to st[p], on to st[t]
    lemma_walk_path(fs, st, t, (len - 1 - t) as nat);
    lemma_iterate_add(fs, (len - 1 - t) as nat, 1, x);
    assert(iterate(fs, (len - t) as nat, x) == st[p]);
    lemma_walk_path(fs, st, p, (t - p) as nat);
    lemma_iterate_add(fs, (len - t) as nat, (t - p) as nat, x);
    assert(iterate(fs, l, x) == x);
    assert forall|m: nat| 0 < m < l implies #[trigger] iterate(fs, m, x) != iterate(fs, 0, x) by {
        if t + m < len {
            lemma_walk_path(fs, st, t, m);
        } else {
            let m2 = (t + m - len) as nat;
            lemma_walk_path(fs, st, p, m2);
            lemma_iterate_add(fs, (len - t) as nat, m2, x);
            assert(iterate(fs, m, x) == st[p + m2]);
        }
    }
}

/// The walk held on the stack: each vertex on it has no answer yet and
/// knows its place, each leads to the next, the last one to `i`, and every
/// vertex that was visited and has no answer is on it.
#[verifier::opaque]
pub open spec fn stack_ok(fs: Seq<usize>, ml: Seq<(usize, usize)>, index: Seq<usize>, st: Seq<usize>, i: usize, n: usize) -> bool {
    &&& st.len() <= n
    &&& forall|t: int| 0 <= t < st.len() ==> #[trigger] st[t] < n && index[st[t] as int] == t && !done(ml, n, st[t] as int)
    &&& forall|t: int| 0 <= t < st.len() ==> fs[#[trigger] st[t] as int] == if t + 1 < st.len() { st[t + 1] } else { i }
    &&& forall|x: int| 0 <= x < n && #[trigger] index[x] < n && !done(ml, n, x) ==> index[x] < st.len() && st[index[x] as int] == x
}

/// One more step of the walk keeps the stack in order.
proof fn lemma_walk_step(fs: Seq<usize>, ml: Seq<(usize, usize)>, before: Seq<usize>, after: Seq<usize>, st: Seq<usize>, i: usize, n: usize)
    requires
        is_function(fs),
        n == fs.len(),
        ml.len() == n,
        before.len() == n,
        i < n,
        stack_ok(fs, ml, before, st, i, n),
        !done(ml, n, i as int),
        before[i as int] >= n,
        st.len() < n,
        after == before.update(i as int, st.len() as usize),
        answers_good(fs, ml, before, n),
    ensures
        stack_ok(fs, ml, after, st.push(i), fs[i as int], n),
        answers_good(fs, ml, after, n),
{
    reveal(stack_ok);
    reveal(answers_good);
    let s2 = st.push(i);
    assert forall|t: int| 0 <= t < s2.len() implies #[trigger] s2[t] < n && after[s2[t] as int] == t && !done(ml, n, s2[t] as int) by {
        if t < st.len() {
            assert(s2[t] == st[t]);
        }
    }
    assert forall|t: int| 0 <= t < s2.len() implies fs[#[trigger] s2[t] as int] == if t + 1 < s2.len() { s2[t + 1] } else { fs[i as int] } by {
        if t < st.len() {
            assert(s2[t] == st[t]);
            if t + 1 < st.len() {
                assert(s2[t + 1] == st[t + 1]);
            }
        }
    }
    assert forall|x: int| 0 <= x < n && #[trigger] after[x] < n && !done(ml, n, x) implies after[x] < s2.len() && s2[after[x] as int] == x by {
        if x != i {
            assert(after[x] == before[x]);
        }
    }
    assert forall|x: int| 0 <= x < n && #[trigger] done(ml, n, x) implies after[x] == before[x] by {}
}

/// Walks from `i0` until a vertex with its answer, or one already on the walk.
fn walk(f: &Vec<usize>, mu_lambda: &Vec<(usize, usize)>, index: &mut Vec<usize>, stack: &mut Vec<usize>, i0: usize) -> (i: usize)
    requires
        is_function(f@),
        i0 < f@.len(),
        mu_lambda@.len() == f@.len(),
        old(index)@.len() == f@.len(),
        old(stack)@.len() == 0,
        answers_good(f@, mu_lambda@, old(index)@, f@.len() as usize),
        forall|x: int| 0 <= x < f@.len() && #[trigger] old(index)@[x] < f@.len() ==> done(mu_lambda@, f@.len() as usize, x),
    ensures
        i < f@.len(),
        final(index)@.len() == f@.len(),
        stack_ok(f@, mu_lambda@, final(index)@, final(stack)@, i, f@.len() as usize),
        final(stack)@.len() > 0 ==> final(stack)@[0] == i0,
        final(stack)@.len() == 0 ==> i == i0,
        done(mu_lambda@, f@.len() as usize, i as int) || final(index)@[i as int] < f@.len(),
        answers_good(f@, mu_lambda@, final(index)@, f@.len() as usize),
{
    let n = f.len();
    let ghost fs = f@;
    let ghost ml = mu_lambda@;
    let mut i = i0;
    proof {
        lemma_count_bound(|x: int| index@[x] < n, 0, n as int);
        reveal(stack_ok);
    }
    while mu_lambda[i].1 == 0 && index[i] >= n
        invariant
            n == fs.len(),
            fs == f@,
            ml == mu_lambda@,
            is_function(fs),
            i < n,
            i0 < n,
            ml.len() == n,
            index@.len() == n,
            stack@.len() <= count_of(|x: int| index@[x] < n, 0, n as int),
            count_of(|x: int| index@[x] < n, 0, n as int) <= n,
            stack_ok(fs, ml, index@, stack@, i, n),
            stack@.len() > 0 ==> stack@[0] == i0,
            stack@.len() == 0 ==> i == i0,
            answers_good(fs, ml, index@, n),
        decreases n - count_of(|x: int| index@[x] < n, 0, n as int),
    {
        let ghost before = index@;
        let ghost st = stack@;
        proof {
            lemma_count_missing(|x: int| index@[x] < n, 0, n as int, i as int);
        }
        index.set(i, stack.len());
        stack.push(i);
        proof {
            lemma_count_flip(|x: int| before[x] < n, |x: int| index@[x] < n, 0, n as int, i as int);
            lemma_count_bound(|x: int| index@[x] < n, 0, n as int);
            lemma_walk_step(fs, ml, before, index@, st, i, n);
        }
        i = f[i];
    }
    i
}

/// After the cycle is closed every answer is right.
proof fn lemma_close_answers(
    fs: Seq<usize>,
    ml0: Seq<(usize, usize)>,
    ml: Seq<(usize, usize)>,
    index: Seq<usize>,
    st: Seq<usize>,
    p: int,
    lambda: usize,
    i: usize,
    n: usize,
)
    requires
        is_function(fs),
        n == fs.len(),
        ml0.len() == n,
        ml.len() == n,
        index.len() == n,
        i < n,
        st.len() <= n,
        forall|t: int| 0 <= t < st.len() ==> #[trigger] st[t] < n && index[st[t] as int] == t,
        forall|t: int| 0 <= t < st.len() ==> fs[#[trigger] st[t] as int] == if t + 1 < st.len() { st[t + 1] } else { i },
        0 <= p < st.len(),
        st[p] == i,
        lambda == st.len() - p,
        forall|t: int| p <= t < st.len() ==> #[trigger] ml[st[t] as int] == (0usize, lambda),
        forall|t: int| p <= t < st.len() ==> is_mu_lambda(fs, #[trigger] st[t] as int, 0, lambda as nat),
        forall|x: int| 0 <= x < n && !(exists|t: int| p <= t < st.len() && #[trigger] st[t] == x) ==> ml[x] == ml0[x],
        count_of(done_set(ml, n), 0, n as int) == count_of(done_set(ml0, n), 0, n as int) + lambda,
        answers_good(fs, ml0, index, n),
    ensures
        answers_good(fs, ml, index, n),
        forall|x: int| 0 <= x < n && #[trigger] done(ml0, n, x) ==> done(ml, n, x),
{
    let cnt = count_of(done_set(ml, n), 0, n as int);
    assert(ml[st[p] as int] == (0usize, lambda));
    assert forall|x: int| 0 <= x < n && #[trigger] done(ml, n, x) implies is_mu_lambda(fs, x, ml[x].0 as nat, ml[x].1 as nat)
        && done(ml, n, fs[x] as int) && index[x] < n && ml[x].0 < cnt && ml[x].1 <= n by {
        if exists|t: int| p <= t < st.len() && #[trigger] st[t] == x {
            let t = choose|t: int| p <= t < st.len() && #[trigger] st[t] == x;
            assert(ml[x] == (0usize, lambda));
            let nx = fs[x] as int;
            if t + 1 < st.len() {
                assert(nx == st[t + 1]);
                assert(ml[st[t + 1] as int] == (0usize, lambda));
            } else {
                assert(nx == i);
            }
        } else {
            assert(ml[x] == ml0[x]);
            lemma_answer(fs, ml0, index, n, x);
            let nx = fs[x] as int;
            if !(exists|t: int| p <= t < st.len() && #[trigger] st[t] == nx) {
                assert(ml[nx] == ml0[nx]);
            }
        }
    }
    assert(answers_good(fs, ml, index, n)) by {
        reveal(answers_good);
    }
    assert forall|x: int| 0 <= x < n && #[trigger] done(ml0, n, x) implies done(ml, n, x) by {
        if !(exists|t: int| p <= t < st.len() && #[trigger] st[t] == x) {
            assert(ml[x] == ml0[x]);
        } else {
            let t = choose|t: int| p <= t < st.len() && #[trigger] st[t] == x;
            assert(ml[st[t] as int] == (0usize, lambda));
        }
    }
}

/// After the cycle is closed, the stack below it is in order.
proof fn lemma_close_stack(
    fs: Seq<usize>,
    ml0: Seq<(usize, usize)>,
    ml: Seq<(usize, usize)>,
    index: Seq<usize>,
    st: Seq<usize>,
    p: int,
    lambda: usize,
    i: usize,
    n: usize,
)
    requires
        n == fs.len(),
        ml0.len() == n,
        ml.len() == n,
        index.len() == n,
        stack_ok(fs, ml0, index, st, i, n),
        0 <= p < st.len(),
        st[p] == i,
        forall|t: int| p <= t < st.len() ==> #[trigger] ml[st[t] as int] == (0usize, lambda),
        lambda > 0,
        forall|x: int| 0 <= x < n && !(exists|t: int| p <= t < st.len() && #[trigger] st[t] == x) ==> ml[x] == ml0[x],
    ensures
        stack_ok(fs, ml, index, st.take(p), i, n),
{
    reveal(stack_ok);
    let s2 = st.take(p);
    assert forall|x: int| 0 <= x < n && #[trigger] index[x] < n && !done(ml, n, x) implies index[x] < s2.len() && s2[index[x] as int] == x by {
        if !(exists|t: int| p <= t < st.len() && #[trigger] st[t] == x) {
            assert(ml[x] == ml0[x]);
        }
        assert(index[x] < st.len() && st[index[x] as int] == x);
        if index[x] >= p {
            assert(ml[st[index[x] as int] as int] == (0usize, lambda));
        }
    }
    assert forall|t: int| 0 <= t < s2.len() implies #[trigger] s2[t] < n && index[s2[t] as int] == t && !done(ml, n, s2[t] as int) by {
        assert(s2[t] == st[t]);
        if exists|u: int| p <= u < st.len() && #[trigger] st[u] == st[t] {
            let u = choose|u: int| p <= u < st.len() && #[trigger] st[u] == st[t];
            assert(index[st[u] as int] == u);
        }
    }
    assert forall|t: int| 0 <= t < s2.len() implies fs[#[trigger] s2[t] as int] == if t + 1 < s2.len() { s2[t + 1] } else { i } by {
        assert(s2[t] == st[t]);
        if t + 1 < s2.len() {
            assert(s2[t + 1] == st[t + 1]);
        }
    }
}

/// The walk closed on itself at `i`: every vertex on it from `i` on gets
/// tail `0` and the cycle's length, and leaves the stack.
fn close_cycle(f: &Vec<usize>, mu_lambda: &mut Vec<(usize, usize)>, index: &Vec<usize>, stack: &mut Vec<usize>, i: usize)
    requires
        is_function(f@),
        i < f@.len(),
        old(mu_lambda)@.len() == f@.len(),
        index@.len() == f@.len(),
        stack_ok(f@, old(mu_lambda)@, index@, old(stack)@, i, f@.len() as usize),
        index@[i as int] < f@.len(),
        !done(old(mu_lambda)@, f@.len() as usize, i as int),
        answers_good(f@, old(mu_lambda)@, index@, f@.len() as usize),
    ensures
        final(mu_lambda)@.len() == f@.len(),
        final(stack)@ == old(stack)@.take(index@[i as int] as int),
        stack_ok(f@, final(mu_lambda)@, index@, final(stack)@, i, f@.len() as usize),
        done(final(mu_lambda)@, f@.len() as usize, i as int),
        answers_good(f@, final(mu_lambda)@, index@, f@.len() as usize),
        forall|x: int| 0 <= x < f@.len() && #[trigger] done(old(mu_lambda)@, f@.len() as usize, x) ==> done(final(mu_lambda)@, f@.len() as usize, x),
        forall|t: int| final(stack)@.len() <= t < old(stack)@.len() ==> done(final(mu_lambda)@, f@.len() as usize, #[trigger] old(stack)@[t] as int),
{
    let n = f.len();
    let ghost fs = f@;
    let ghost st = stack@;
    let ghost ml0 = mu_lambda@;
    let p = index[i];
    proof {
        reveal(stack_ok);
        assert(p < st.len() && st[p as int] == i);
    }
    let lambda = stack.len() - p;
    proof {
        reveal(stack_ok);
        assert forall|a: int, b: int| 0 <= a < b < st.len() implies st[a] != st[b] by {
            assert(index@[st[a] as int] == a);
            assert(index@[st[b] as int] == b);
        }
        assert forall|t: int| p <= t < st.len() implies is_mu_lambda(fs, #[trigger] st[t] as int, 0, lambda as nat) by {
            lemma_cycle(fs, st, p as int, t);
        }
        assert forall|t: int| 0 <= t < st.len() implies #[trigger] st[t] < n && !done(ml0, n, st[t] as int) by {}
    }
    let mut c: usize = 0;
    while c < lambda
        invariant
            n == fs.len(),
            p < st.len(),
            lambda == st.len() - p,
            c <= lambda,
            stack@ == st.take(st.len() - c),
            mu_lambda@.len() == n,
            forall|t: int| 0 <= t < st.len() ==> #[trigger] st[t] < n && !done(ml0, n, st[t] as int),
            forall|a: int, b: int| 0 <= a < b < st.len() ==> st[a] != st[b],
            forall|t: int| st.len() - c <= t < st.len() ==> #[trigger] mu_lambda@[st[t] as int] == (0usize, lambda),
            forall|x: int| 0 <= x < n && !(exists|t: int| st.len() - c <= t < st.len() && #[trigger] st[t] == x) ==> mu_lambda@[x] == ml0[x],
            count_of(done_set(mu_lambda@, n), 0, n as int) == count_of(done_set(ml0, n), 0, n as int) + c,
        decreases lambda - c,
    {
        let ghost before = mu_lambda@;
        let j = stack.pop().unwrap();
        proof {
            assert(j == st[st.len() - c - 1]);
            assert(!done(before, n, j as int)) by {
                if done(before, n, j as int) {
                    let t = choose|t: int| st.len() - c <= t < st.len() && #[trigger] st[t] == j;
                }
            }
        }
        mu_lambda.set(j, (0, lambda));
        proof {
            lemma_count_flip(done_set(before, n), done_set(mu_lambda@, n), 0, n as int, j as int);
            assert forall|x: int| 0 <= x < n && !(exists|t: int| st.len() - (c + 1) <= t < st.len() && #[trigger] st[t] == x) implies mu_lambda@[x] == ml0[x] by {
                if x == j {
                    assert(st[st.len() - c - 1] == x);
                }
                assert(!(exists|t: int| st.len() - c <= t < st.len() && #[trigger] st[t] == x));
            }
            assert(stack@ =~= st.take(st.len() - (c + 1)));
        }
        c += 1;
    }
    proof {
        assert(stack_ok(fs, ml0, index@, st, i, n));
        assert(st.len() <= n && forall|t: int| 0 <= t < st.len() ==> #[trigger] st[t] < n && index@[st[t] as int] == t) by {
            reveal(stack_ok);
        }
        assert(forall|t: int| 0 <= t < st.len() ==> fs[#[trigger] st[t] as int] == if t + 1 < st.len() { st[t + 1] } else { i }) by {
            reveal(stack_ok);
        }
        lemma_close_answers(fs, ml0, mu_lambda@, index@, st, p as int, lambda, i, n);
        lemma_close_stack(fs, ml0, mu_lambda@, index@, st, p as int, lambda, i, n);
        assert(mu_lambda@[st[p as int] as int] == (0usize, lambda));
        assert forall|t: int| stack@.len() <= t < st.len() implies done(mu_lambda@, n, #[trigger] st[t] as int) by {
            assert(mu_lambda@[st[t] as int] == (0usize, lambda));
        }
    }
}

/// Popping the top of the stack: its image has its answer, so it gets a
/// tail one longer, and the answers stay right.
proof fn lemma_unwind_answers(fs: Seq<usize>, ml: Seq<(usize, usize)>, index: Seq<usize>, j: usize, i: usize, n: usize)
    requires
        is_function(fs),
        n == fs.len(),
        ml.len() == n,
        index.len() == n,
        j < n,
        fs[j as int] == i,
        !done(ml, n, j as int),
        done(ml, n, i as int),
        answers_good(fs, ml, index, n),
        index[j as int] < n,
    ensures
        ({
            let m = ml[i as int];
            let ml2 = ml.update(j as int, ((m.0 + 1) as usize, m.1));
            &&& m.0 < n
            &&& done(ml2, n, j as int)
            &&& answers_good(fs, ml2, index, n)
        }),
{
    let fj = i as int;
    let m = ml[fj];
    let ml2 = ml.update(j as int, ((m.0 + 1) as usize, m.1));
    lemma_answer(fs, ml, index, n, fj);
    lemma_count_bound(done_set(ml, n), 0, n as int);
    assert forall|kk: nat| iterate(fs, kk, fj) != j by {
        lemma_orbit_done(fs, ml, index, n, fj, kk);
    }
    lemma_mu_lambda_step(fs, j as int, m.0 as nat, m.1 as nat);
    lemma_count_flip(done_set(ml, n), done_set(ml2, n), 0, n as int, j as int);
    assert forall|x: int| 0 <= x < n && #[trigger] done(ml2, n, x) implies is_mu_lambda(fs, x, ml2[x].0 as nat, ml2[x].1 as nat)
        && done(ml2, n, fs[x] as int) && index[x] < n && ml2[x].0 < count_of(done_set(ml2, n), 0, n as int) && ml2[x].1 <= n by {
        if x != j {
            lemma_answer(fs, ml, index, n, x);
        }
    }
    assert(answers_good(fs, ml2, index, n)) by {
        reveal(answers_good);
    }
}

/// Popping the top of the stack keeps the rest of it in order.
proof fn lemma_unwind_stack(fs: Seq<usize>, ml: Seq<(usize, usize)>, ml2: Seq<(usize, usize)>, index: Seq<usize>, st: Seq<usize>, i: usize, n: usize)
    requires
        n == fs.len(),
        ml.len() == n,
        index.len() == n,
        stack_ok(fs, ml, index, st, i, n),
        st.len() > 0,
        done(ml2, n, st[st.len() - 1] as int),
        ml2 =~= ml.update(st[st.len() - 1] as int, ml2[st[st.len() - 1] as int]),
    ensures
        stack_ok(fs, ml2, index, st.drop_last(), st[st.len() - 1], n),
{
    reveal(stack_ok);
    let j = st[st.len() - 1];
    let s2 = st.drop_last();
    assert forall|t: int| 0 <= t < s2.len() implies #[trigger] s2[t] < n && index[s2[t] as int] == t && !done(ml2, n, s2[t] as int) by {
        assert(s2[t] == st[t]);
    }
    assert forall|t: int| 0 <= t < s2.len() implies fs[#[trigger] s2[t] as int] == if t + 1 < s2.len() { s2[t + 1] } else { j } by {
        assert(s2[t] == st[t]);
        if t + 1 < s2.len() {
            assert(s2[t + 1] == st[t + 1]);
        }
    }
    assert forall|x: int| 0 <= x < n && #[trigger] index[x] < n && !done(ml2, n, x) implies index[x] < s2.len() && s2[index[x] as int] == x by {
        assert(x != j);
        assert(ml2[x] == ml[x]);
    }
}

/// Every vertex left on the stack leads into vertices with their answer:
/// its tail is one longer than that of its image.
fn unwind(f: &Vec<usize>, mu_lambda: &mut Vec<(usize, usize)>, index: &Vec<usize>, stack: &mut Vec<usize>, i: usize)
    requires
        is_function(f@),
        i < f@.len(),
        old(mu_lambda)@.len() == f@.len(),
        index@.len() == f@.len(),
        stack_ok(f@, old(mu_lambda)@, index@, old(stack)@, i, f@.len() as usize),
        done(old(mu_lambda)@, f@.len() as usize, i as int),
        answers_good(f@, old(mu_lambda)@, index@, f@.len() as usize),
    ensures
        final(mu_lambda)@.len() == f@.len(),
        final(stack)@.len() == 0,
        answers_good(f@, final(mu_lambda)@, index@, f@.len() as usize),
        forall|x: int| 0 <= x < f@.len() && #[trigger] done(old(mu_lambda)@, f@.len() as usize, x) ==> done(final(mu_lambda)@, f@.len() as usize, x),
        forall|t: int| 0 <= t < old(stack)@.len() ==> done(final(mu_lambda)@, f@.len() as usize, #[trigger] old(stack)@[t] as int),
{
    let n = f.len();
    let ghost fs = f@;
    let ghost ml0 = mu_lambda@;
    let ghost st0 = stack@;
    let mut i = i;
    proof {
        reveal(stack_ok);
    }
    while stack.len() > 0
        invariant
            forall|t: int| 0 <= t < st0.len() ==> #[trigger] st0[t] < n,
            n == fs.len(),
            fs == f@,
            is_function(fs),
            i < n,
            done(mu_lambda@, n, i as int),
            mu_lambda@.len() == n,
            index@.len() == n,
            stack_ok(fs, mu_lambda@, index@, stack@, i, n),
            stack@.len() <= st0.len(),
            stack@ == st0.take(stack@.len() as int),
            forall|t: int| stack@.len() <= t < st0.len() ==> done(mu_lambda@, n, #[trigger] st0[t] as int),
            answers_good(fs, mu_lambda@, index@, n),
            forall|x: int| 0 <= x < n && #[trigger] done(ml0, n, x) ==> done(mu_lambda@, n, x),
        decreases stack@.len(),
    {
        let ghost before = mu_lambda@;
        let ghost st = stack@;
        proof {
            reveal(stack_ok);
            let j = st[st.len() - 1];
            assert(j < n && index@[j as int] == st.len() - 1 && !done(before, n, j as int));
            assert(fs[j as int] == i);
            lemma_unwind_answers(fs, before, index@, j, i, n);
        }
        let j = stack.pop().unwrap();
        let m = mu_lambda[f[j]];
        mu_lambda.set(j, (m.0 + 1, m.1));
        proof {
            lemma_unwind_stack(fs, before, mu_lambda@, index@, st, i, n);
            assert(stack@ =~= st.drop_last());
            assert(stack@ =~= st0.take(stack@.len() as int));
            assert(st0[stack@.len() as int] == j);
            assert forall|x: int| 0 <= x < n && #[trigger] done(ml0, n, x) implies done(mu_lambda@, n, x) by {
                assert(done(before, n, x));
            }
            assert forall|t: int| stack@.len() <= t < st0.len() implies done(mu_lambda@, n, #[trigger] st0[t] as int) by {
                if t > stack@.len() {
                    assert(done(before, n, st0[t] as int));
                }
            }
        }
        i = j;
    }
}

/// A functional graph with the tail and cycle length of each vertex.
pub struct FunctionalGraph {
    to: Vec<usize>,
    mu_lambda: Vec<(usize, usize)>,
}

impl FunctionalGraph {
    /// The function.
    pub closed spec fn function(&self) -> Seq<usize> {
        self.to@
    }

    pub closed spec fn wf(&self) -> bool {
        &&& is_function(self.to@)
        &&& self.mu_lambda@.len() == self.to@.len()
        &&& forall|x: int| 0 <= x < self.to@.len() ==> is_mu_lambda(self.to@, x, #[trigger] self.mu_lambda@[x].0 as nat, self.mu_lambda@[x].1 as nat)
    }

    /// Computes the tail and cycle length of every vertex.
    pub fn from(f: Vec<usize>) -> (r: Self)
        requires
            is_function(f@),
        ensures
            r.wf(),
            r.function() == f@,
    {
        let n = f.len();
        let none: (usize, usize) = (n, 0);
        let mut mu_lambda: Vec<(usize, usize)> = Vec::new();
        let mut index: Vec<usize> = Vec::new();
        let mut k: usize = 0;
        while k < n
            invariant
                k <= n,
                mu_lambda@.len() == k,
                index@.len() == k,
                forall|q: int| 0 <= q < k ==> mu_lambda@[q] == none && index@[q] == n,
            decreases n - k,
        {
            mu_lambda.push(none);
            index.push(n);
            k += 1;
        }
        let ghost fs = f@;
        let mut stack: Vec<usize> = Vec::new();
        proof {
            crate::counting::lemma_count_same(|x: int| false, done_set(mu_lambda@, n), 0, n as int);
            crate::counting::lemma_count_zero(0, n as int);
            reveal(answers_good);
        }
        let mut i0: usize = 0;
        while i0 < n
            invariant
                n == fs.len(),
                fs == f@,
                is_function(fs),
                i0 <= n,
                mu_lambda@.len() == n,
                index@.len() == n,
                stack@.len() == 0,
                forall|x: int| 0 <= x < i0 ==> #[trigger] done(mu_lambda@, n, x),
                answers_good(fs, mu_lambda@, index@, n),
                forall|x: int| 0 <= x < n && #[trigger] index@[x] < n ==> done(mu_lambda@, n, x),
            decreases n - i0,
        {
            let i = walk(&f, &mu_lambda, &mut index, &mut stack, i0);
            let ghost st1 = stack@;
            let ghost ml1 = mu_lambda@;
            proof {
                reveal(stack_ok);
            }
            if mu_lambda[i].1 == 0 {
                close_cycle(&f, &mut mu_lambda, &index, &mut stack, i);
            }
            let ghost st2 = stack@;
            let ghost ml2 = mu_lambda@;
            proof {
                assert(st2.len() <= st1.len() && st2 == st1.take(st2.len() as int));
                assert forall|t: int| st2.len() <= t < st1.len() implies done(ml2, n, #[trigger] st1[t] as int) by {}
                assert(st1.len() == 0 ==> done(ml2, n, i as int)) by {
                    reveal(stack_ok);
                }
            }
            unwind(&f, &mut mu_lambda, &index, &mut stack, i);
            proof {
                let ml = mu_lambda@;
                assert forall|x: int| 0 <= x < n && #[trigger] index@[x] < n implies done(ml, n, x) by {
                    if !done(ml1, n, x) {
                        let t = index@[x] as int;
                        assert(t < st1.len() && st1[t] == x) by {
                            reveal(stack_ok);
                        }
                        if t < st2.len() {
                            assert(st2[t] == x);
                        } else {
                            assert(done(ml2, n, st1[t] as int));
                        }
                    }
                }
                assert forall|x: int| 0 <= x < i0 + 1 implies #[trigger] done(ml, n, x) by {
                    if x == i0 {
                        if st1.len() == 0 {
                            assert(done(ml2, n, i as int));
                        } else if st2.len() > 0 {
                            assert(st2[0] == st1[0]);
                        } else {
                            assert(done(ml2, n, st1[0] as int));
                        }
                    } else {
                        assert(done(ml1, n, x));
                    }
                }
            }
            i0 += 1;
        }
        proof {
            assert forall|x: int| 0 <= x < n implies is_mu_lambda(fs, x, #[trigger] mu_lambda@[x].0 as nat, mu_lambda@[x].1 as nat) by {
                assert(done(mu_lambda@, n, x));
            }
        }
        FunctionalGraph { to: f, mu_lambda }
    }

    /// The tail length `mu` and the cycle length `lambda` of vertex `i`.
    pub fn mu_lambda(&self, i: usize) -> (r: (usize, usize))
        requires
            self.wf(),
            i < self.function().len(),
        ensures
            is_mu_lambda(self.function(), i as int, r.0 as nat, r.1 as nat),
    {
        self.mu_lambda[i]
    }
}

} // verus!
