//! Maximum flow on a residual graph.
//!
//! The graph is kept as lists of entries `(to, cap, rev)`: from the vertex
//! whose list holds it to `to`, with residual capacity `cap`, and its
//! reverse at position `rev` in the list of `to`.
use vstd::prelude::*;

use crate::counting::{count_of, lemma_count_bound, lemma_count_flip, lemma_count_same, lemma_count_zero};

verus! {

/// An entry of a residual graph: head, residual capacity, reverse position.
pub type Entry = (usize, u64, usize);

/// Every entry names a vertex and a reverse entry that leads back to it, and
/// no entry is its own reverse.
pub open spec fn residual_ok(g: Seq<Vec<Entry>>) -> bool {
    forall|v: int, i: int| 0 <= v < g.len() && 0 <= i < g[v]@.len() ==> {
        let e = #[trigger] g[v]@[i];
        &&& e.0 < g.len()
        &&& e.2 < g[e.0 as int]@.len()
        &&& g[e.0 as int]@[e.2 as int].0 == v
        &&& g[e.0 as int]@[e.2 as int].2 == i
        &&& !(e.0 == v && e.2 == i)
    }
}

/// The residual capacity of an entry and of its reverse, together.
pub open spec fn pair_cap(g: Seq<Vec<Entry>>, v: int, i: int) -> int {
    let e = g[v]@[i];
    e.1 + g[e.0 as int]@[e.2 as int].1
}

/// The sum of the capacities of the entries of a list.
pub open spec fn list_cap(l: Seq<Entry>) -> int
    decreases l.len(),
{
    if l.len() == 0 {
        0
    } else {
        list_cap(l.drop_last()) + l.last().1
    }
}

/// The residual capacity out of `v`.
pub open spec fn out_cap(g: Seq<Vec<Entry>>, v: int) -> int {
    list_cap(g[v]@)
}

/// No sum of an entry's capacity and its reverse's, nor the capacity out of
/// `s`, exceeds `u64::MAX`.
pub open spec fn caps_fit(g: Seq<Vec<Entry>>, s: int) -> bool {
    &&& forall|v: int, i: int| 0 <= v < g.len() && 0 <= i < g[v]@.len() ==> #[trigger] pair_cap(g, v, i) <= u64::MAX
    &&& out_cap(g, s) <= u64::MAX
}

/// `b` has the entries of `a`, with other capacities.
pub open spec fn same_shape(a: Seq<Vec<Entry>>, b: Seq<Vec<Entry>>) -> bool {
    &&& a.len() == b.len()
    &&& forall|v: int| 0 <= v < a.len() ==> (#[trigger] a[v])@.len() == b[v]@.len()
    &&& forall|v: int, i: int| 0 <= v < a.len() && 0 <= i < a[v]@.len() ==> (#[trigger] b[v]@[i]).0 == a[v]@[i].0 && b[v]@[i].2
        == a[v]@[i].2
}

/// What flows out of `v`: the capacity out of it that `new` has used up.
pub open spec fn net(old: Seq<Vec<Entry>>, new: Seq<Vec<Entry>>, v: int) -> int {
    out_cap(old, v) - out_cap(new, v)
}

/// `new` is `old` after a flow of value `r` from `s` to `t`: every entry and
/// its reverse move capacity between them (what one uses, the other gains),
/// nothing flows out of the other vertices, and `r` flows out of `s`.
pub open spec fn is_flow(old: Seq<Vec<Entry>>, new: Seq<Vec<Entry>>, s: int, t: int, r: int) -> bool {
    &&& same_shape(old, new)
    &&& forall|v: int, i: int| 0 <= v < old.len() && 0 <= i < old[v]@.len() ==> #[trigger] pair_cap(new, v, i) == pair_cap(old, v, i)
    &&& forall|v: int| 0 <= v < old.len() && v != s && v != t ==> #[trigger] net(old, new, v) == 0
    &&& net(old, new, s) == r
}

/// `g` has an entry from `u` to `v` with capacity left.
pub open spec fn res_edge(g: Seq<Vec<Entry>>, u: int, v: int) -> bool {
    0 <= u < g.len() && exists|i: int| 0 <= i < g[u]@.len() && g[u]@[i].0 == v && g[u]@[i].1 > 0
}

/// The `i`-th step of `p` is an entry with capacity left.
pub open spec fn res_step(g: Seq<Vec<Entry>>, p: Seq<int>, i: int) -> bool {
    res_edge(g, p[i], p[i + 1])
}

/// `p` is a walk along entries with capacity left: an augmenting path.
pub open spec fn res_walk(g: Seq<Vec<Entry>>, p: Seq<int>) -> bool {
    &&& p.len() >= 1
    &&& forall|i: int| 0 <= i < p.len() ==> 0 <= #[trigger] p[i] < g.len()
    &&& forall|i: int| 0 <= i < p.len() - 1 ==> #[trigger] res_step(g, p, i)
}

/// Some augmenting path leads from `u` to `v`.
pub open spec fn res_reach(g: Seq<Vec<Entry>>, u: int, v: int) -> bool {
    exists|p: Seq<int>| #[trigger] res_walk(g, p) && p[0] == u && p.last() == v
}

proof fn lemma_list_cap_update(l: Seq<Entry>, i: int, e: Entry)
    requires
        0 <= i < l.len(),
    ensures
        list_cap(l.update(i, e)) == list_cap(l) - l[i].1 + e.1,
    decreases l.len(),
{
    let m = l.update(i, e);
    if i < l.len() - 1 {
        assert(m.drop_last() =~= l.drop_last().update(i, e));
        lemma_list_cap_update(l.drop_last(), i, e);
    } else {
        assert(m.drop_last() =~= l.drop_last());
    }
}

/// A set of vertices that holds `s` and is closed under the entries with
/// capacity left holds every vertex that `s` reaches by them.
proof fn lemma_res_closed(g: Seq<Vec<Entry>>, s: int, vis: spec_fn(int) -> bool, v: int)
    requires
        vis(s),
        forall|x: int, y: int| vis(x) && #[trigger] res_edge(g, x, y) ==> vis(y),
        res_reach(g, s, v),
    ensures
        vis(v),
{
    let p = choose|p: Seq<int>| #[trigger] res_walk(g, p) && p[0] == s && p.last() == v;
    lemma_res_walk_closed(g, p, vis, p.len() - 1);
}

proof fn lemma_res_walk_closed(g: Seq<Vec<Entry>>, p: Seq<int>, vis: spec_fn(int) -> bool, i: int)
    requires
        res_walk(g, p),
        vis(p[0]),
        forall|x: int, y: int| vis(x) && #[trigger] res_edge(g, x, y) ==> vis(y),
        0 <= i < p.len(),
    ensures
        vis(p[i]),
    decreases i,
{
    if i > 0 {
        lemma_res_walk_closed(g, p, vis, i - 1);
        assert(res_step(g, p, i - 1));
    }
}

/// Sets the capacity of entry `i` of `v` to `c`.
fn set_cap(g: &mut Vec<Vec<Entry>>, v: usize, i: usize, c: u64)
    requires
        v < old(g)@.len(),
        i < old(g)@[v as int]@.len(),
    ensures
        final(g)@.len() == old(g)@.len(),
        forall|w: int| 0 <= w < old(g)@.len() && w != v ==> #[trigger] final(g)@[w] == old(g)@[w],
        final(g)@[v as int]@ == old(g)@[v as int]@.update(
            i as int,
            (old(g)@[v as int]@[i as int].0, c, old(g)@[v as int]@[i as int].2),
        ),
{
    let e = g[v][i];
    g[v].set(i, (e.0, c, e.2));
}

/// `v` has a predecessor one level up that reaches it by an entry with
/// capacity left.
pub open spec fn has_pred(g: Seq<Vec<Entry>>, level: Seq<usize>, v: int) -> bool {
    exists|u: int, i: int|
        0 <= u < g.len() && 0 <= i < g[u]@.len() && #[trigger] g[u]@[i].0 == v && g[u]@[i].1 > 0 && level[u] + 1 == level[v]
}

/// What `dual` computes: levels of a breadth-first search from `s` along
/// entries with capacity left, `n` for the vertices not reached.
pub open spec fn levels_ok(g: Seq<Vec<Entry>>, s: int, level: Seq<usize>) -> bool {
    let n = g.len();
    &&& level.len() == n
    &&& level[s] == 0
    &&& forall|v: int| 0 <= v < n ==> #[trigger] level[v] <= n
    &&& forall|v: int| 0 <= v < n && level[v] == 0 ==> v == s
    &&& forall|v: int| 0 <= v < n && #[trigger] level[v] < n && v != s ==> has_pred(g, level, v)
    &&& forall|u: int, i: int|
        0 <= u < n && 0 <= i < g[u]@.len() && level[u] < n && (#[trigger] g[u]@[i]).1 > 0 ==> level[g[u]@[i].0 as int] < n
}

/// The levels of a breadth-first search from `s` along the entries with
/// capacity left.
#[verifier::rlimit(60)]
#[verifier::spinoff_prover]
fn dual(g: &Vec<Vec<Entry>>, s: usize) -> (level: Vec<usize>)
    requires
        residual_ok(g@),
        s < g@.len(),
    ensures
        levels_ok(g@, s as int, level@),
{
    let n = g.len();
    let mut level: Vec<usize> = Vec::new();
    let mut i: usize = 0;
    while i < n
        invariant
            i <= n,
            level@.len() == i,
            forall|x: int| 0 <= x < i ==> level@[x] == n,
        decreases n - i,
    {
        level.push(n);
        i += 1;
    }
    proof {
        lemma_count_same(|x: int| false, |x: int| level@[x] < n, 0, n as int);
        lemma_count_zero(0, n as int);
        lemma_count_flip(|x: int| level@[x] < n, |x: int| level@[x] < n || x == s, 0, n as int, s as int);
    }
    let ghost l0 = level@;
    level.set(s, 0);
    proof {
        lemma_count_same(|x: int| l0[x] < n || x == s, |x: int| level@[x] < n, 0, n as int);
    }
    let mut q: Vec<usize> = Vec::new();
    q.push(s);
    proof {
        assert forall|x: int| 0 <= x < n && #[trigger] level@[x] < n implies exists|j: int| 0 <= j < q@.len() && q@[j] == x by {
            assert(q@[0] == x);
        }
    }
    let mut head: usize = 0;
    while head < q.len()
        invariant
            n == g@.len(),
            residual_ok(g@),
            s < n,
            level@.len() == n,
            head <= q@.len() <= n,
            q@.len() == count_of(|x: int| level@[x] < n, 0, n as int),
            level@[s as int] == 0,
            forall|x: int| 0 <= x < n ==> #[trigger] level@[x] <= n,
            forall|x: int| 0 <= x < n && level@[x] == 0 ==> x == s,
            forall|j: int| 0 <= j < q@.len() ==> #[trigger] q@[j] < n && level@[q@[j] as int] < n && level@[q@[j] as int] <= j,
            forall|x: int| 0 <= x < n && #[trigger] level@[x] < n ==> exists|j: int| 0 <= j < q@.len() && q@[j] == x,
            forall|x: int| 0 <= x < n && #[trigger] level@[x] < n && x != s ==> has_pred(g@, level@, x),
            forall|j: int, k: int|
                0 <= j < head && 0 <= k < g@[q@[j] as int]@.len() && (#[trigger] g@[q@[j] as int]@[k]).1 > 0 ==> level@[g@[q@[j] as int]@[k].0 as int] < n,
        decreases n - head,
    {
        let u = q[head];
        let m = g[u].len();
        let mut k: usize = 0;
        while k < m
            invariant
                n == g@.len(),
                residual_ok(g@),
                s < n,
                u < n,
                u == q@[head as int],
                m == g@[u as int]@.len(),
                k <= m,
                level@.len() == n,
                head < q@.len() <= n,
                q@.len() == count_of(|x: int| level@[x] < n, 0, n as int),
                level@[s as int] == 0,
                level@[u as int] <= head,
                forall|x: int| 0 <= x < n ==> #[trigger] level@[x] <= n,
                forall|x: int| 0 <= x < n && level@[x] == 0 ==> x == s,
                forall|j: int| 0 <= j < q@.len() ==> #[trigger] q@[j] < n && level@[q@[j] as int] < n && level@[q@[j] as int] <= j,
                forall|x: int| 0 <= x < n && #[trigger] level@[x] < n ==> exists|j: int| 0 <= j < q@.len() && q@[j] == x,
                forall|x: int| 0 <= x < n && #[trigger] level@[x] < n && x != s ==> has_pred(g@, level@, x),
                forall|j: int, kk: int|
                    0 <= j < head && 0 <= kk < g@[q@[j] as int]@.len() && (#[trigger] g@[q@[j] as int]@[kk]).1 > 0 ==> level@[g@[q@[j] as int]@[kk].0 as int] < n,
                forall|kk: int| 0 <= kk < k && (#[trigger] g@[u as int]@[kk]).1 > 0 ==> level@[g@[u as int]@[kk].0 as int] < n,
            decreases m - k,
        {
            let e = g[u][k];
            let w = e.0;
            proof {
                assert(g@[u as int]@[k as int] == e);
            }
            if e.1 > 0 && level[w] == n {
                proof {
                    lemma_count_flip(|x: int| level@[x] < n, |x: int| level@[x] < n || x == w, 0, n as int, w as int);
                    lemma_count_bound(|x: int| level@[x] < n || x == w, 0, n as int);
                }
                let ghost old_level = level@;
                let ghost old_q = q@;
                let lu = level[u];
                level.set(w, lu + 1);
                q.push(w);
                proof {
                    lemma_count_same(|x: int| old_level[x] < n || x == w, |x: int| level@[x] < n, 0, n as int);
                    assert forall|x: int| 0 <= x < n && #[trigger] level@[x] < n implies exists|j: int| 0 <= j < q@.len() && q@[j] == x by {
                        if x == w {
                            assert(q@[old_q.len() as int] == x);
                        } else {
                            assert(old_level[x] < n);
                            let j = choose|j: int| 0 <= j < old_q.len() && old_q[j] == x;
                            assert(q@[j] == x);
                        }
                    }
                    assert forall|x: int| 0 <= x < n && #[trigger] level@[x] < n && x != s implies has_pred(g@, level@, x) by {
                        if x == w {
                            assert(g@[u as int]@[k as int].0 == x);
                            assert(level@[u as int] + 1 == level@[x]);
                        } else {
                            assert(old_level[x] < n);
                            assert(has_pred(g@, old_level, x));
                            let (pu, pi) = choose|pu: int, pi: int|
                                0 <= pu < g@.len() && 0 <= pi < g@[pu]@.len() && #[trigger] g@[pu]@[pi].0 == x && g@[pu]@[pi].1 > 0
                                    && old_level[pu] + 1 == old_level[x];
                            assert(old_level[pu] < n);
                            assert(pu != w);
                            assert(level@[pu] + 1 == level@[x]);
                        }
                    }
                }
            }
            k += 1;
        }
        head += 1;
    }
    proof {
        assert forall|uu: int, ii: int|
            0 <= uu < n && 0 <= ii < g@[uu]@.len() && level@[uu] < n && (#[trigger] g@[uu]@[ii]).1 > 0 implies level@[g@[uu]@[ii].0 as int] < n by {
            let j = choose|j: int| 0 <= j < q@.len() && q@[j] == uu;
            assert(g@[q@[j] as int]@[ii] == g@[uu]@[ii]);
        }
    }
    level
}

/// Moves `f` of capacity from entry `r` of `u` to its reverse.
fn shift(g: &mut Vec<Vec<Entry>>, u: usize, r: usize, f: u64)
    requires
        residual_ok(old(g)@),
        u < old(g)@.len(),
        r < old(g)@[u as int]@.len(),
        old(g)@[u as int]@[r as int].1 >= f,
        pair_cap(old(g)@, u as int, r as int) <= u64::MAX,
    ensures
        residual_ok(final(g)@),
        same_shape(old(g)@, final(g)@),
        forall|v: int, i: int| 0 <= v < old(g)@.len() && 0 <= i < old(g)@[v]@.len() ==> #[trigger] pair_cap(final(g)@, v, i) == pair_cap(old(g)@, v, i),
        ({
            let e = old(g)@[u as int]@[r as int];
            &&& final(g)@[u as int]@[r as int].1 == e.1 - f
            &&& final(g)@[e.0 as int]@[e.2 as int].1 == old(g)@[e.0 as int]@[e.2 as int].1 + f
            &&& forall|v: int, i: int|
                0 <= v < old(g)@.len() && 0 <= i < old(g)@[v]@.len() && !(v == u && i == r) && !(v == e.0 && i == e.2)
                    ==> #[trigger] final(g)@[v]@[i] == old(g)@[v]@[i]
            &&& forall|v: int| 0 <= v < old(g)@.len() ==> #[trigger] out_cap(final(g)@, v) == out_cap(old(g)@, v) - (if v == u { f as int } else { 0 }) + (if v == e.0 { f as int } else { 0 })
        }),
{
    let ghost g0 = g@;
    let e = g[u][r];
    proof {
        assert(g0[u as int]@[r as int] == e);
        assert(e.0 < g0.len() && e.2 < g0[e.0 as int]@.len());
    }
    let c = e.0;
    let k = e.2;
    set_cap(g, u, r, e.1 - f);
    let ghost g1 = g@;
    let b = g[c][k];
    proof {
        assert(b == g0[c as int]@[k as int]);
        assert(b.1 + e.1 <= u64::MAX);
    }
    set_cap(g, c, k, b.1 + f);
    proof {
        let g2 = g@;
        assert forall|v: int| 0 <= v < g0.len() implies #[trigger] out_cap(g2, v) == out_cap(g0, v) - (if v == u { f as int } else { 0 }) + (if v == c { f as int } else { 0 }) by {
            if v == u {
                lemma_list_cap_update(g0[v]@, r as int, (e.0, (e.1 - f) as u64, e.2));
            }
            if v == c {
                lemma_list_cap_update(g1[v]@, k as int, (b.0, (b.1 + f) as u64, b.2));
            }
            if v != u && v != c {
                assert(g2[v] == g0[v]);
            }
        }
        assert forall|v: int, i: int| 0 <= v < g0.len() && 0 <= i < g0[v]@.len() implies #[trigger] pair_cap(g2, v, i) == pair_cap(g0, v, i) by {
            let x = g0[v]@[i];
            assert(g2[v]@[i].0 == x.0 && g2[v]@[i].2 == x.2);
            if v == u && i == r {
            } else if v == c && i == k {
            } else if x.0 == u && x.2 == r {
                assert(g0[u as int]@[r as int].0 == v);
            } else if x.0 == c && x.2 == k {
                assert(g0[c as int]@[k as int].0 == v);
            } else {
            }
        }
        assert forall|v: int, i: int| 0 <= v < g2.len() && 0 <= i < g2[v]@.len() implies {
            let y = #[trigger] g2[v]@[i];
            &&& y.0 < g2.len()
            &&& y.2 < g2[y.0 as int]@.len()
            &&& g2[y.0 as int]@[y.2 as int].0 == v
            &&& g2[y.0 as int]@[y.2 as int].2 == i
            &&& !(y.0 == v && y.2 == i)
        } by {
            let x = g0[v]@[i];
            assert(g2[v]@[i].0 == x.0 && g2[v]@[i].2 == x.2);
            assert(g2[x.0 as int]@[x.2 as int].0 == g0[x.0 as int]@[x.2 as int].0);
            assert(g2[x.0 as int]@[x.2 as int].2 == g0[x.0 as int]@[x.2 as int].2);
        }
    }
}

/// Where step `p` of a path, built backwards from `t` as a list of entries,
/// leads.
pub open spec fn tgt(path: Seq<(usize, usize)>, t: int, p: int) -> int {
    if p == 0 {
        t
    } else {
        path[p - 1].0 as int
    }
}

/// Entry `k` of `cur` is the reverse of an entry with capacity left from
/// one level up.
fn back_ok(g: &Vec<Vec<Entry>>, level: &Vec<usize>, cur: usize, k: usize) -> (b: bool)
    requires
        residual_ok(g@),
        level@.len() == g@.len(),
        cur < g@.len(),
        k < g@[cur as int]@.len(),
    ensures
        b == ({
            let e = g@[cur as int]@[k as int];
            level@[cur as int] > 0 && level@[e.0 as int] + 1 == level@[cur as int] && g@[e.0 as int]@[e.2 as int].1 > 0
        }),
{
    let e = g[cur][k];
    proof {
        assert(g@[cur as int]@[k as int] == e);
    }
    level[cur] > 0 && level[e.0] == level[cur] - 1 && g[e.0][e.2].1 > 0
}

/// Augments along one shortest augmenting path that the levels give, by
/// the least capacity on it, and returns that amount.
fn primal(g: &mut Vec<Vec<Entry>>, s: usize, t: usize, level: &Vec<usize>) -> (f: u64)
    requires
        residual_ok(old(g)@),
        caps_fit(old(g)@, s as int),
        s < old(g)@.len(),
        t < old(g)@.len(),
        s != t,
        levels_ok(old(g)@, s as int, level@),
        level@[t as int] < old(g)@.len(),
    ensures
        f > 0,
        residual_ok(final(g)@),
        same_shape(old(g)@, final(g)@),
        forall|v: int, i: int| 0 <= v < old(g)@.len() && 0 <= i < old(g)@[v]@.len() ==> #[trigger] pair_cap(final(g)@, v, i) == pair_cap(old(g)@, v, i),
        forall|v: int| 0 <= v < old(g)@.len() ==> #[trigger] out_cap(final(g)@, v) == out_cap(old(g)@, v) - (if v == s { f as int } else { 0 }) + (if v == t { f as int } else { 0 }),
{
    let ghost g0 = g@;
    let n = g.len();
    let mut path: Vec<(usize, usize)> = Vec::new();
    let mut cur = t;
    while cur != s
        invariant
            g@ == g0,
            n == g0.len(),
            residual_ok(g0),
            levels_ok(g0, s as int, level@),
            s < n,
            t < n,
            cur < n,
            level@[t as int] < n,
            cur == tgt(path@, t as int, path@.len() as int),
            level@[cur as int] + path@.len() == level@[t as int],
            forall|p: int| 0 <= p < path@.len() ==> {
                let (u, r) = #[trigger] path@[p];
                &&& u < n
                &&& r < g0[u as int]@.len()
                &&& g0[u as int]@[r as int].0 == tgt(path@, t as int, p)
                &&& g0[u as int]@[r as int].1 > 0
                &&& level@[u as int] + p + 1 == level@[t as int]
            },
        decreases level@[cur as int],
    {
        let m = g[cur].len();
        proof {
            assert(level@[cur as int] < n);
            assert(has_pred(g0, level@, cur as int));
        }
        let ghost (pu, pi) = choose|pu: int, pi: int|
            0 <= pu < g0.len() && 0 <= pi < g0[pu]@.len() && #[trigger] g0[pu]@[pi].0 == cur && g0[pu]@[pi].1 > 0 && level@[pu] + 1 == level@[cur as int];
        let ghost rr = g0[pu]@[pi].2 as int;
        proof {
            assert(g0[cur as int]@[rr].0 == pu && g0[cur as int]@[rr].2 == pi);
            assert(level@[cur as int] > 0);
        }
        let mut k: usize = 0;
        while k < m && !back_ok(g, level, cur, k)
            invariant
                g@ == g0,
                residual_ok(g0),
                level@.len() == n,
                n == g0.len(),
                cur < n,
                m == g0[cur as int]@.len(),
                0 <= rr < m,
                k <= m,
                level@[cur as int] > 0,
                g0[cur as int]@[rr].0 == pu,
                g0[cur as int]@[rr].2 == pi,
                g0[pu]@[pi].1 > 0,
                level@[pu] + 1 == level@[cur as int],
                k <= rr,
            decreases m - k,
        {
            k += 1;
        }
        let e = g[cur][k];
        proof {
            assert(g0[cur as int]@[k as int] == e);
            assert(g0[e.0 as int]@[e.2 as int].0 == cur);
        }
        let ghost old_path = path@;
        path.push((e.0, e.2));
        proof {
            assert forall|p: int| 0 <= p < path@.len() implies {
                let (u, r) = #[trigger] path@[p];
                &&& u < n
                &&& r < g0[u as int]@.len()
                &&& g0[u as int]@[r as int].0 == tgt(path@, t as int, p)
                &&& g0[u as int]@[r as int].1 > 0
                &&& level@[u as int] + p + 1 == level@[t as int]
            } by {
                if p < old_path.len() {
                    assert(path@[p] == old_path[p]);
                    assert(tgt(path@, t as int, p) == tgt(old_path, t as int, p));
                }
            }
        }
        cur = e.0;
    }
    let len = path.len();
    proof {
        assert(len > 0);
    }
    let mut f: u64 = g[path[0].0][path[0].1].1;
    let mut p: usize = 1;
    while p < len
        invariant
            g@ == g0,
            len == path@.len(),
            1 <= p <= len,
            f > 0,
            forall|p: int| 0 <= p < path@.len() ==> {
                let (u, r) = #[trigger] path@[p];
                &&& u < n
                &&& r < g0[u as int]@.len()
            },
            forall|q: int| 0 <= q < p ==> f <= g0[(#[trigger] path@[q]).0 as int]@[path@[q].1 as int].1,
            forall|p: int| 0 <= p < path@.len() ==> g0[(#[trigger] path@[p]).0 as int]@[path@[p].1 as int].1 > 0,
            n == g0.len(),
        decreases len - p,
    {
        let c = g[path[p].0][path[p].1].1;
        if c < f {
            f = c;
        }
        p += 1;
    }
    p = 0;
    while p < len
        invariant
            n == g0.len(),
            len == path@.len(),
            p <= len,
            residual_ok(g0),
            residual_ok(g@),
            same_shape(g0, g@),
            levels_ok(g0, s as int, level@),
            caps_fit(g0, s as int),
            s < n,
            t < n,
            tgt(path@, t as int, len as int) == s,
            forall|v: int, i: int| 0 <= v < n && 0 <= i < g0[v]@.len() ==> #[trigger] pair_cap(g@, v, i) == pair_cap(g0, v, i),
            forall|q: int| 0 <= q < len ==> f <= g0[(#[trigger] path@[q]).0 as int]@[path@[q].1 as int].1,
            forall|q: int| p <= q < len ==> g@[(#[trigger] path@[q]).0 as int]@[path@[q].1 as int] == g0[path@[q].0 as int]@[path@[q].1 as int],
            forall|q: int| 0 <= q < path@.len() ==> {
                let (u, r) = #[trigger] path@[q];
                &&& u < n
                &&& r < g0[u as int]@.len()
                &&& g0[u as int]@[r as int].0 == tgt(path@, t as int, q)
                &&& level@[u as int] + q + 1 == level@[t as int]
            },
            forall|v: int| 0 <= v < n ==> #[trigger] out_cap(g@, v) == out_cap(g0, v) + (if v == t { f as int } else { 0 }) - (if v == tgt(path@, t as int, p as int) { f as int } else { 0 }),
        decreases len - p,
    {
        let (u, r) = path[p];
        let ghost gb = g@;
        proof {
            assert(path@[p as int] == (u, r));
            assert(pair_cap(g@, u as int, r as int) == pair_cap(g0, u as int, r as int));
            assert(g0[u as int]@[r as int].0 == g@[u as int]@[r as int].0);
            assert(pair_cap(g0, u as int, r as int) <= u64::MAX);
        }
        shift(g, u, r, f);
        proof {
            let c = gb[u as int]@[r as int].0 as int;
            let kk = gb[u as int]@[r as int].2 as int;
            assert(c == tgt(path@, t as int, p as int));
            assert forall|q: int| p + 1 <= q < len implies g@[(#[trigger] path@[q]).0 as int]@[path@[q].1 as int] == g0[path@[q].0 as int]@[path@[q].1 as int] by {
                let (uq, rq) = path@[q];
                assert(level@[uq as int] + q + 1 == level@[t as int]);
                if uq == u {
                    assert(level@[u as int] + p + 1 == level@[t as int]);
                }
                if uq as int == c {
                    if p > 0 {
                        assert(level@[path@[p - 1].0 as int] + p == level@[t as int]);
                    }
                }
            }
            assert forall|v: int, i: int| 0 <= v < n && 0 <= i < g0[v]@.len() implies #[trigger] pair_cap(g@, v, i) == pair_cap(g0, v, i) by {
                assert(pair_cap(gb, v, i) == pair_cap(g0, v, i));
            }
            assert forall|v: int| 0 <= v < n implies #[trigger] out_cap(g@, v) == out_cap(g0, v) + (if v == t { f as int } else { 0 }) - (if v == tgt(path@, t as int, p + 1) { f as int } else { 0 }) by {
                assert(out_cap(gb, v) == out_cap(g0, v) + (if v == t { f as int } else { 0 }) - (if v == tgt(path@, t as int, p as int) { f as int } else { 0 }));
            }
        }
        p += 1;
    }
    f
}

proof fn lemma_list_cap_nonneg(l: Seq<Entry>)
    ensures
        list_cap(l) >= 0,
    decreases l.len(),
{
    if l.len() > 0 {
        lemma_list_cap_nonneg(l.drop_last());
    }
}

/// A maximum flow from `s` to `t` in the residual graph `g`: pushes flow
/// along shortest augmenting paths, found by the levels of a breadth-first
/// search, until no augmenting path is left, leaves `g` as the residual
/// graph of that flow and returns its value.
pub fn dinic(g: &mut Vec<Vec<Entry>>, s: usize, t: usize) -> (r: u64)
    requires
        residual_ok(old(g)@),
        s < old(g)@.len(),
        t < old(g)@.len(),
        s != t,
        caps_fit(old(g)@, s as int),
    ensures
        residual_ok(final(g)@),
        is_flow(old(g)@, final(g)@, s as int, t as int, r as int),
        !res_reach(final(g)@, s as int, t as int),
        forall|c: Set<int>| is_cut(s as int, t as int, c) ==> r <= #[trigger] cut_capacity(old(g)@, c),
        exists|c: Set<int>| is_cut(s as int, t as int, c) && r == #[trigger] cut_capacity(old(g)@, c),
{
    let ghost g0 = g@;
    let n = g.len();
    let mut res: u64 = 0;
    loop
        invariant
            n == g0.len(),
            s < n,
            t < n,
            s != t,
            residual_ok(g0),
            caps_fit(g0, s as int),
            residual_ok(g@),
            same_shape(g0, g@),
            forall|v: int, i: int| 0 <= v < n && 0 <= i < g0[v]@.len() ==> #[trigger] pair_cap(g@, v, i) == pair_cap(g0, v, i),
            forall|v: int| 0 <= v < n && v != s && v != t ==> #[trigger] net(g0, g@, v) == 0,
            net(g0, g@, s as int) == res,
        ensures
            residual_ok(g@),
            same_shape(g0, g@),
            forall|v: int, i: int| 0 <= v < n && 0 <= i < g0[v]@.len() ==> #[trigger] pair_cap(g@, v, i) == pair_cap(g0, v, i),
            forall|v: int| 0 <= v < n && v != s && v != t ==> #[trigger] net(g0, g@, v) == 0,
            net(g0, g@, s as int) == res,
            !res_reach(g@, s as int, t as int),
        decreases out_cap(g@, s as int),
    {
        proof {
            lemma_list_cap_nonneg(g@[s as int]@);
            assert forall|v: int, i: int| 0 <= v < n && 0 <= i < g@[v]@.len() implies #[trigger] pair_cap(g@, v, i) <= u64::MAX by {
                assert(pair_cap(g0, v, i) <= u64::MAX);
            }
        }
        let level = dual(g, s);
        if level[t] == n {
            proof {
                let vis = |x: int| 0 <= x < n && level@[x] < n;
                assert forall|x: int, y: int| vis(x) && #[trigger] res_edge(g@, x, y) implies vis(y) by {
                    let i = choose|i: int| 0 <= i < g@[x]@.len() && g@[x]@[i].0 == y && g@[x]@[i].1 > 0;
                    assert(level@[g@[x]@[i].0 as int] < n);
                }
                if res_reach(g@, s as int, t as int) {
                    lemma_res_closed(g@, s as int, vis, t as int);
                }
            }
            break;
        }
        let ghost gb = g@;
        let f = primal(g, s, t, &level);
        proof {
            lemma_list_cap_nonneg(g@[s as int]@);
            assert(net(g0, g@, s as int) == res + f);
            assert forall|v: int| 0 <= v < n && v != s && v != t implies #[trigger] net(g0, g@, v) == 0 by {
                assert(net(g0, gb, v) == 0);
            }
            assert forall|v: int, i: int| 0 <= v < n && 0 <= i < g0[v]@.len() implies #[trigger] pair_cap(g@, v, i) == pair_cap(g0, v, i) by {
                assert(pair_cap(gb, v, i) == pair_cap(g0, v, i));
            }
        }
        res = res + f;
    }
    proof {
        let gf = g@;
        assert forall|c: Set<int>| is_cut(s as int, t as int, c) implies res <= #[trigger] cut_capacity(g0, c) by {
            lemma_flow_cut(g0, gf, s as int, t as int, res as int, c);
        }
        let c = Set::new(|v: int| res_reach(gf, s as int, v));
        assert(res_walk(gf, seq![s as int]));
        assert(c.contains(s as int));
        assert forall|v: int, i: int|
            0 <= v < g0.len() && 0 <= i < g0[v]@.len() && c.contains(v) && !c.contains(g0[v]@[i].0 as int) implies #[trigger] gf[v]@[i].1 == 0 by {
            if gf[v]@[i].1 > 0 {
                let w = g0[v]@[i].0 as int;
                assert(gf[v]@[i].0 == w);
                assert(res_edge(gf, v, w));
                lemma_res_reach_edge(gf, s as int, v, w);
            }
        }
        lemma_flow_cut(g0, gf, s as int, t as int, res as int, c);
    }
    res
}

proof fn lemma_res_reach_edge(g: Seq<Vec<Entry>>, u: int, v: int, w: int)
    requires
        residual_ok(g),
        res_reach(g, u, v),
        res_edge(g, v, w),
    ensures
        res_reach(g, u, w),
{
    let p = choose|p: Seq<int>| #[trigger] res_walk(g, p) && p[0] == u && p.last() == v;
    let i = choose|i: int| 0 <= i < g[v]@.len() && g[v]@[i].0 == w && g[v]@[i].1 > 0;
    assert(0 <= w < g.len());
    let q = p.push(w);
    assert forall|k: int| 0 <= k < q.len() implies 0 <= #[trigger] q[k] < g.len() by {
        if k < p.len() {
            assert(0 <= p[k] < g.len());
        }
    }
    assert forall|k: int| 0 <= k < q.len() - 1 implies #[trigger] res_step(g, q, k) by {
        if k < p.len() - 1 {
            assert(res_step(g, p, k));
        }
    }
    assert(res_walk(g, q));
}

/// The sum of `w(v, i)` over `i` in `0..k`.
pub open spec fn row_sum(w: spec_fn(int, int) -> int, v: int, k: int) -> int
    decreases k,
{
    if k <= 0 {
        0
    } else {
        row_sum(w, v, k - 1) + w(v, k - 1)
    }
}

/// The sum of `w(v, i)` over the entries `i` of the vertices `v` in `0..m`.
pub open spec fn entry_sum(g: Seq<Vec<Entry>>, w: spec_fn(int, int) -> int, m: int) -> int
    decreases m,
{
    if m <= 0 {
        0
    } else {
        entry_sum(g, w, m - 1) + row_sum(w, m - 1, g[m - 1]@.len() as int)
    }
}

/// `c` holds `s` and not `t`.
pub open spec fn is_cut(s: int, t: int, c: Set<int>) -> bool {
    c.contains(s) && !c.contains(t)
}

/// The capacity of an entry from a vertex in `c` to one outside it; `0` for
/// the other entries.
pub open spec fn cap_w(g: Seq<Vec<Entry>>, c: Set<int>) -> spec_fn(int, int) -> int {
    |v: int, i: int| if c.contains(v) && !c.contains(g[v]@[i].0 as int) { g[v]@[i].1 as int } else { 0 }
}

/// The capacity of the cut `c`: the sum of the capacities of the entries
/// from a vertex in `c` to one outside it.
pub open spec fn cut_capacity(g: Seq<Vec<Entry>>, c: Set<int>) -> int {
    entry_sum(g, cap_w(g, c), g.len() as int)
}

/// The sum of `h` over a finite set of entries.
pub open spec fn set_sum(a: Set<(int, int)>, h: spec_fn((int, int)) -> int) -> int
    decreases a.len(),
    when a.finite()
{
    if a.len() == 0 {
        0
    } else {
        let x = a.choose();
        h(x) + set_sum(a.remove(x), h)
    }
}

proof fn lemma_set_sum_remove(a: Set<(int, int)>, h: spec_fn((int, int)) -> int, x: (int, int))
    requires
        a.finite(),
        a.contains(x),
    ensures
        set_sum(a, h) == h(x) + set_sum(a.remove(x), h),
    decreases a.len(),
{
    assert(a.len() > 0) by {
        if a.len() == 0 {
            a.lemma_len0_is_empty();
        }
    }
    let y = a.choose();
    if y != x {
        lemma_set_sum_remove(a.remove(y), h, x);
        lemma_set_sum_remove(a.remove(x), h, y);
        assert(a.remove(y).remove(x) =~= a.remove(x).remove(y));
    }
}

/// A sum over a set that an involution maps to itself and under which the
/// summand changes sign is zero.
proof fn lemma_set_sum_zero(a: Set<(int, int)>, h: spec_fn((int, int)) -> int, sig: spec_fn((int, int)) -> (int, int))
    requires
        a.finite(),
        forall|x: (int, int)| a.contains(x) ==> a.contains(#[trigger] sig(x)) && sig(sig(x)) == x && h(sig(x)) == -h(x),
    ensures
        set_sum(a, h) == 0,
    decreases a.len(),
{
    if a.len() > 0 {
        let x = a.choose();
        assert(a.contains(x)) by {
            if !a.contains(x) {
                a.lemma_len0_is_empty();
            }
        }
        let y = sig(x);
        lemma_set_sum_remove(a, h, x);
        let b = a.remove(x);
        if y == x {
            assert forall|z: (int, int)| b.contains(z) implies b.contains(#[trigger] sig(z)) && sig(sig(z)) == z && h(sig(z)) == -h(z) by {
                if sig(z) == x {
                    assert(sig(sig(z)) == sig(x));
                }
            }
            lemma_set_sum_zero(b, h, sig);
        } else {
            lemma_set_sum_remove(b, h, y);
            let c = b.remove(y);
            assert forall|z: (int, int)| c.contains(z) implies c.contains(#[trigger] sig(z)) && sig(sig(z)) == z && h(sig(z)) == -h(z) by {
                if sig(z) == x {
                    assert(sig(sig(z)) == sig(x));
                }
                if sig(z) == y {
                    assert(sig(sig(z)) == sig(y));
                }
            }
            lemma_set_sum_zero(c, h, sig);
        }
    }
}

/// The entries of the vertices below `m`, and the first `k` of vertex `m`.
pub open spec fn entries_below(g: Seq<Vec<Entry>>, m: int, k: int) -> Set<(int, int)> {
    Set::new(|x: (int, int)| (0 <= x.0 < m && 0 <= x.1 < g[x.0]@.len()) || (x.0 == m && 0 <= x.1 < k))
}

proof fn lemma_entries_sum(g: Seq<Vec<Entry>>, w: spec_fn(int, int) -> int, m: int, k: int)
    requires
        0 <= m <= g.len(),
        0 <= k,
        m < g.len() ==> k <= g[m]@.len(),
        m == g.len() ==> k == 0,
    ensures
        entries_below(g, m, k).finite(),
        set_sum(entries_below(g, m, k), |x: (int, int)| w(x.0, x.1)) == entry_sum(g, w, m) + row_sum(w, m, k),
    decreases m, k,
{
    let h = |x: (int, int)| w(x.0, x.1);
    if k > 0 {
        lemma_entries_sum(g, w, m, k - 1);
        let a = entries_below(g, m, k);
        assert(a.remove((m, k - 1)) =~= entries_below(g, m, k - 1));
        assert(a =~= entries_below(g, m, k - 1).insert((m, k - 1)));
        lemma_set_sum_remove(a, h, (m, k - 1));
    } else if m > 0 {
        lemma_entries_sum(g, w, m - 1, g[m - 1]@.len() as int);
        assert(entries_below(g, m, 0) =~= entries_below(g, m - 1, g[m - 1]@.len() as int));
    } else {
        assert(entries_below(g, 0, 0) =~= Set::<(int, int)>::empty());
    }
}

proof fn lemma_row_sum_split(w1: spec_fn(int, int) -> int, w2: spec_fn(int, int) -> int, w: spec_fn(int, int) -> int, v: int, k: int)
    requires
        forall|i: int| 0 <= i < k ==> #[trigger] w(v, i) == w1(v, i) + w2(v, i),
    ensures
        row_sum(w, v, k) == row_sum(w1, v, k) + row_sum(w2, v, k),
    decreases k,
{
    if k > 0 {
        lemma_row_sum_split(w1, w2, w, v, k - 1);
    }
}

proof fn lemma_entry_sum_split(g: Seq<Vec<Entry>>, w1: spec_fn(int, int) -> int, w2: spec_fn(int, int) -> int, w: spec_fn(int, int) -> int, m: int)
    requires
        m <= g.len(),
        forall|v: int, i: int| 0 <= v < g.len() && 0 <= i < g[v]@.len() ==> #[trigger] w(v, i) == w1(v, i) + w2(v, i),
    ensures
        entry_sum(g, w, m) == entry_sum(g, w1, m) + entry_sum(g, w2, m),
    decreases m,
{
    if m > 0 {
        lemma_entry_sum_split(g, w1, w2, w, m - 1);
        lemma_row_sum_split(w1, w2, w, m - 1, g[m - 1]@.len() as int);
    }
}

proof fn lemma_row_sum_le(w1: spec_fn(int, int) -> int, w2: spec_fn(int, int) -> int, v: int, k: int)
    requires
        forall|i: int| 0 <= i < k ==> #[trigger] w1(v, i) <= w2(v, i),
    ensures
        row_sum(w1, v, k) <= row_sum(w2, v, k),
    decreases k,
{
    if k > 0 {
        lemma_row_sum_le(w1, w2, v, k - 1);
    }
}

proof fn lemma_entry_sum_le(g: Seq<Vec<Entry>>, w1: spec_fn(int, int) -> int, w2: spec_fn(int, int) -> int, m: int)
    requires
        m <= g.len(),
        forall|v: int, i: int| 0 <= v < g.len() && 0 <= i < g[v]@.len() ==> #[trigger] w1(v, i) <= w2(v, i),
    ensures
        entry_sum(g, w1, m) <= entry_sum(g, w2, m),
    decreases m,
{
    if m > 0 {
        lemma_entry_sum_le(g, w1, w2, m - 1);
        lemma_row_sum_le(w1, w2, m - 1, g[m - 1]@.len() as int);
    }
}

/// The flow through each entry: the capacity it has used up.
spec fn fl_w(old: Seq<Vec<Entry>>, new: Seq<Vec<Entry>>) -> spec_fn(int, int) -> int {
    |v: int, i: int| old[v]@[i].1 - new[v]@[i].1
}

/// The flow through the entries out of `c`, from a vertex in `c`.
spec fn out_w(old: Seq<Vec<Entry>>, new: Seq<Vec<Entry>>, c: Set<int>) -> spec_fn(int, int) -> int {
    |v: int, i: int| if c.contains(v) { old[v]@[i].1 - new[v]@[i].1 } else { 0 }
}

/// The flow through the entries inside `c`.
spec fn in_w(old: Seq<Vec<Entry>>, new: Seq<Vec<Entry>>, c: Set<int>) -> spec_fn(int, int) -> int {
    |v: int, i: int| if c.contains(v) && c.contains(old[v]@[i].0 as int) { old[v]@[i].1 - new[v]@[i].1 } else { 0 }
}

/// The flow through the entries that leave `c`.
spec fn cross_w(old: Seq<Vec<Entry>>, new: Seq<Vec<Entry>>, c: Set<int>) -> spec_fn(int, int) -> int {
    |v: int, i: int| if c.contains(v) && !c.contains(old[v]@[i].0 as int) { old[v]@[i].1 - new[v]@[i].1 } else { 0 }
}

proof fn lemma_list_cap_row(l: Seq<Entry>, w: spec_fn(int, int) -> int, v: int, k: int)
    requires
        0 <= k <= l.len(),
        forall|i: int| 0 <= i < l.len() ==> #[trigger] w(v, i) == l[i].1,
    ensures
        list_cap(l.take(k)) == row_sum(w, v, k),
    decreases k,
{
    if k > 0 {
        lemma_list_cap_row(l, w, v, k - 1);
        assert(l.take(k).drop_last() =~= l.take(k - 1));
    }
}

/// What flows out of `v` is the sum of the flows through its entries.
proof fn lemma_net_row(old: Seq<Vec<Entry>>, new: Seq<Vec<Entry>>, v: int)
    requires
        same_shape(old, new),
        0 <= v < old.len(),
    ensures
        net(old, new, v) == row_sum(fl_w(old, new), v, old[v]@.len() as int),
{
    let k = old[v]@.len() as int;
    let wo = |x: int, i: int| old[x]@[i].1 as int;
    let wn = |x: int, i: int| new[x]@[i].1 as int;
    lemma_list_cap_row(old[v]@, wo, v, k);
    lemma_list_cap_row(new[v]@, wn, v, k);
    assert(old[v]@.take(k) =~= old[v]@);
    assert(new[v]@.take(k) =~= new[v]@);
    lemma_row_sum_split(fl_w(old, new), wn, wo, v, k);
}

proof fn lemma_row_sum_zero(w: spec_fn(int, int) -> int, v: int, k: int)
    requires
        forall|i: int| 0 <= i < k ==> #[trigger] w(v, i) == 0,
    ensures
        row_sum(w, v, k) == 0,
    decreases k,
{
    if k > 0 {
        lemma_row_sum_zero(w, v, k - 1);
    }
}

proof fn lemma_row_sum_same(w1: spec_fn(int, int) -> int, w2: spec_fn(int, int) -> int, v: int, k: int)
    requires
        forall|i: int| 0 <= i < k ==> #[trigger] w1(v, i) == w2(v, i),
    ensures
        row_sum(w1, v, k) == row_sum(w2, v, k),
    decreases k,
{
    if k > 0 {
        lemma_row_sum_same(w1, w2, v, k - 1);
    }
}

/// What flows out of the vertices of `c` below `m`.
proof fn lemma_out_sum(old: Seq<Vec<Entry>>, new: Seq<Vec<Entry>>, s: int, t: int, r: int, c: Set<int>, m: int)
    requires
        is_flow(old, new, s, t, r),
        0 <= s < old.len(),
        0 <= t < old.len(),
        is_cut(s, t, c),
        0 <= m <= old.len(),
    ensures
        entry_sum(old, out_w(old, new, c), m) == if s < m { r } else { 0 },
    decreases m,
{
    if m > 0 {
        let v = m - 1;
        lemma_out_sum(old, new, s, t, r, c, m - 1);
        if c.contains(v) {
            lemma_row_sum_same(out_w(old, new, c), fl_w(old, new), v, old[v]@.len() as int);
            lemma_net_row(old, new, v);
            if v != s {
                assert(v != t);
                assert(net(old, new, v) == 0);
            }
        } else {
            lemma_row_sum_zero(out_w(old, new, c), v, old[v]@.len() as int);
        }
    }
}

/// Weak duality, and equality where the cut is saturated: a flow is no
/// larger than the capacity of any cut, and equals it where every entry
/// leaving the cut has no capacity left.
pub proof fn lemma_flow_cut(old: Seq<Vec<Entry>>, new: Seq<Vec<Entry>>, s: int, t: int, r: int, c: Set<int>)
    requires
        residual_ok(old),
        is_flow(old, new, s, t, r),
        0 <= s < old.len(),
        0 <= t < old.len(),
        is_cut(s, t, c),
    ensures
        r <= cut_capacity(old, c),
        (forall|v: int, i: int|
            0 <= v < old.len() && 0 <= i < old[v]@.len() && c.contains(v) && !c.contains(old[v]@[i].0 as int) ==> #[trigger] new[v]@[i].1 == 0)
            ==> r == cut_capacity(old, c),
{
    let n = old.len() as int;
    lemma_out_sum(old, new, s, t, r, c, n);
    lemma_entry_sum_split(old, in_w(old, new, c), cross_w(old, new, c), out_w(old, new, c), n);
    // the flow inside the cut cancels out
    let h = |x: (int, int)| in_w(old, new, c)(x.0, x.1);
    let sig = |x: (int, int)| (old[x.0]@[x.1].0 as int, old[x.0]@[x.1].2 as int);
    lemma_entries_sum(old, in_w(old, new, c), n, 0);
    let a = entries_below(old, n, 0);
    assert forall|x: (int, int)| a.contains(x) implies a.contains(#[trigger] sig(x)) && sig(sig(x)) == x && h(sig(x)) == -h(x) by {
        let (v, i) = x;
        let e = old[v]@[i];
        assert(pair_cap(new, v, i) == pair_cap(old, v, i));
        assert(new[v]@[i].0 == e.0 && new[v]@[i].2 == e.2);
    }
    lemma_set_sum_zero(a, h, sig);
    assert(row_sum(in_w(old, new, c), n, 0) == 0);
    lemma_entry_sum_le(old, cross_w(old, new, c), cap_w(old, c), n);
    if forall|v: int, i: int|
        0 <= v < old.len() && 0 <= i < old[v]@.len() && c.contains(v) && !c.contains(old[v]@[i].0 as int) ==> #[trigger] new[v]@[i].1 == 0 {
        lemma_entry_sum_le(old, cap_w(old, c), cross_w(old, new, c), n);
    }
}

} // verus!
