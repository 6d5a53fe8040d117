//! Strongly connected components of a directed graph, numbered in
//! topological order.
use vstd::prelude::*;
use vstd::set_lib::{lemma_int_range, lemma_map_size, lemma_subset_equality, set_int_range};

use crate::counting::{count_of, lemma_count_bound, lemma_count_card, lemma_count_flip, lemma_count_le, lemma_count_lt, lemma_count_same};

verus! {

/// Every edge of `g` ends at a vertex of `g`.
pub open spec fn closed_graph(g: Seq<Vec<usize>>) -> bool {
    forall|u: int, k: int| 0 <= u < g.len() && 0 <= k < g[u]@.len() ==> #[trigger] g[u]@[k] < g.len()
}

/// `g` has an edge from `u` to `v`.
pub open spec fn edge(g: Seq<Vec<usize>>, u: int, v: int) -> bool {
    0 <= u < g.len() && exists|k: int| 0 <= k < g[u]@.len() && g[u]@[k] == v
}

/// The `i`-th step of `p` is an edge of `g`.
pub open spec fn step(g: Seq<Vec<usize>>, p: Seq<int>, i: int) -> bool {
    edge(g, p[i], p[i + 1])
}

/// `p` is a nonempty walk along the edges of `g`.
pub open spec fn is_walk(g: Seq<Vec<usize>>, p: Seq<int>) -> bool {
    &&& p.len() >= 1
    &&& forall|i: int| 0 <= i < p.len() ==> 0 <= #[trigger] p[i] < g.len()
    &&& forall|i: int| 0 <= i < p.len() - 1 ==> #[trigger] step(g, p, i)
}

/// There is a walk from `u` to `v`.
pub open spec fn reach(g: Seq<Vec<usize>>, u: int, v: int) -> bool {
    exists|p: Seq<int>| #[trigger] is_walk(g, p) && p[0] == u && p.last() == v
}

/// `u` and `v` reach each other.
pub open spec fn sc(g: Seq<Vec<usize>>, u: int, v: int) -> bool {
    reach(g, u, v) && reach(g, v, u)
}

/// The number of vertices that reach `u`.
pub open spec fn reachers(g: Seq<Vec<usize>>, u: int) -> nat {
    count_of(|w: int| reach(g, w, u), 0, g.len() as int)
}

/// `r` is the least vertex of its component.
pub open spec fn is_leader(g: Seq<Vec<usize>>, r: int) -> bool {
    0 <= r < g.len() && forall|x: int| 0 <= x < r ==> !#[trigger] sc(g, r, x)
}

/// The least vertex of the component of `u`.
pub open spec fn leader(g: Seq<Vec<usize>>, u: int) -> int {
    choose|r: int| sc(g, u, r) && is_leader(g, r)
}

/// The component of `r` comes before that of `u`: fewer vertices reach it,
/// or as many and its least vertex is smaller.
pub open spec fn before(g: Seq<Vec<usize>>, r: int, u: int) -> bool {
    ||| reachers(g, r) < reachers(g, u)
    ||| reachers(g, r) == reachers(g, u) && leader(g, r) < leader(g, u)
}

/// The number of the component of `u`: how many components come before it.
pub open spec fn comp_id(g: Seq<Vec<usize>>, u: int) -> nat {
    count_of(|r: int| is_leader(g, r) && before(g, r, u), 0, g.len() as int)
}

pub proof fn lemma_reach_refl(g: Seq<Vec<usize>>, u: int)
    requires
        0 <= u < g.len(),
    ensures
        reach(g, u, u),
{
    let p = seq![u];
    assert(is_walk(g, p));
}

pub proof fn lemma_reach_edge(g: Seq<Vec<usize>>, u: int, v: int, w: int)
    requires
        reach(g, u, v),
        edge(g, v, w),
        0 <= w < g.len(),
    ensures
        reach(g, u, w),
{
    let p = choose|p: Seq<int>| #[trigger] is_walk(g, p) && p[0] == u && p.last() == v;
    let q = p.push(w);
    assert forall|i: int| 0 <= i < q.len() implies 0 <= #[trigger] q[i] < g.len() by {
        if i < p.len() {
            assert(0 <= p[i] < g.len());
        }
    }
    assert forall|i: int| 0 <= i < q.len() - 1 implies #[trigger] step(g, q, i) by {
        if i < p.len() - 1 {
            assert(step(g, p, i));
        }
    }
    assert(is_walk(g, q));
}

pub proof fn lemma_reach_trans(g: Seq<Vec<usize>>, u: int, v: int, w: int)
    requires
        reach(g, u, v),
        reach(g, v, w),
    ensures
        reach(g, u, w),
{
    let p = choose|p: Seq<int>| #[trigger] is_walk(g, p) && p[0] == u && p.last() == v;
    let q = choose|q: Seq<int>| #[trigger] is_walk(g, q) && q[0] == v && q.last() == w;
    let r = p + q.skip(1);
    assert forall|i: int| 0 <= i < r.len() implies 0 <= #[trigger] r[i] < g.len() by {
        if i < p.len() {
            assert(0 <= p[i] < g.len());
        } else {
            assert(0 <= q[i - p.len() + 1] < g.len());
        }
    }
    assert forall|i: int| 0 <= i < r.len() - 1 implies #[trigger] step(g, r, i) by {
        if i < p.len() - 1 {
            assert(step(g, p, i));
        } else {
            assert(step(g, q, i - p.len() + 1));
        }
    }
    assert(is_walk(g, r));
}

proof fn lemma_walk_closed(g: Seq<Vec<usize>>, p: Seq<int>, vis: spec_fn(int) -> bool, i: int)
    requires
        is_walk(g, p),
        vis(p[0]),
        forall|x: int, y: int| vis(x) && #[trigger] edge(g, x, y) ==> vis(y),
        0 <= i < p.len(),
    ensures
        vis(p[i]),
    decreases i,
{
    if i > 0 {
        lemma_walk_closed(g, p, vis, i - 1);
        assert(step(g, p, i - 1));
    }
}

/// A set of vertices that holds `s` and is closed under the edges holds every
/// vertex that `s` reaches.
pub proof fn lemma_reach_closed(g: Seq<Vec<usize>>, s: int, vis: spec_fn(int) -> bool, v: int)
    requires
        vis(s),
        forall|x: int, y: int| vis(x) && #[trigger] edge(g, x, y) ==> vis(y),
        reach(g, s, v),
    ensures
        vis(v),
{
    let p = choose|p: Seq<int>| #[trigger] is_walk(g, p) && p[0] == s && p.last() == v;
    lemma_walk_closed(g, p, vis, p.len() - 1);
}

pub proof fn lemma_reach_range(g: Seq<Vec<usize>>, u: int, v: int)
    requires
        reach(g, u, v),
    ensures
        0 <= u < g.len(),
        0 <= v < g.len(),
{
    let p = choose|p: Seq<int>| #[trigger] is_walk(g, p) && p[0] == u && p.last() == v;
    assert(0 <= p[0] < g.len());
    assert(0 <= p[p.len() - 1] < g.len());
}

/// A walk between distinct vertices ends with an edge.
pub proof fn lemma_reach_last(g: Seq<Vec<usize>>, w: int, x: int)
    requires
        reach(g, w, x),
        w != x,
    ensures
        exists|y: int| #[trigger] reach(g, w, y) && edge(g, y, x),
{
    let p = choose|p: Seq<int>| #[trigger] is_walk(g, p) && p[0] == w && p.last() == x;
    let q = p.take(p.len() - 1);
    assert(p.len() >= 2);
    assert forall|i: int| 0 <= i < q.len() implies 0 <= #[trigger] q[i] < g.len() by {
        assert(0 <= p[i] < g.len());
    }
    assert forall|i: int| 0 <= i < q.len() - 1 implies #[trigger] step(g, q, i) by {
        assert(step(g, p, i));
    }
    assert(is_walk(g, q));
    assert(step(g, p, p.len() - 2));
    assert(reach(g, w, p[p.len() - 2]));
}

/// Two leaders of one component are the same vertex.
proof fn lemma_leader_unique(g: Seq<Vec<usize>>, u: int, a: int, b: int)
    requires
        sc(g, u, a),
        is_leader(g, a),
        sc(g, u, b),
        is_leader(g, b),
    ensures
        a == b,
{
    lemma_reach_trans(g, a, u, b);
    lemma_reach_trans(g, b, u, a);
    if a < b {
        assert(!sc(g, b, a));
    } else if b < a {
        assert(!sc(g, a, b));
    }
}

proof fn lemma_leader_from(g: Seq<Vec<usize>>, u: int, v: int)
    requires
        0 <= v <= u < g.len(),
        forall|x: int| 0 <= x < v ==> !#[trigger] sc(g, u, x),
    ensures
        sc(g, u, leader(g, u)),
        is_leader(g, leader(g, u)),
    decreases u - v,
{
    if sc(g, u, v) {
        assert forall|x: int| 0 <= x < v implies !#[trigger] sc(g, v, x) by {
            if sc(g, v, x) {
                lemma_reach_trans(g, u, v, x);
                lemma_reach_trans(g, x, v, u);
                assert(sc(g, u, x));
            }
        }
        assert(is_leader(g, v));
    } else {
        if v == u {
            lemma_reach_refl(g, u);
        }
        lemma_leader_from(g, u, v + 1);
    }
}

/// Every vertex has a leader.
pub proof fn lemma_leader(g: Seq<Vec<usize>>, u: int)
    requires
        0 <= u < g.len(),
    ensures
        sc(g, u, leader(g, u)),
        is_leader(g, leader(g, u)),
{
    lemma_leader_from(g, u, 0);
}

/// Vertices of one component have the same leader and the same number of
/// vertices that reach them.
proof fn lemma_same_component(g: Seq<Vec<usize>>, u: int, v: int)
    requires
        sc(g, u, v),
    ensures
        leader(g, u) == leader(g, v),
        reachers(g, u) == reachers(g, v),
{
    lemma_reach_range(g, u, v);
    lemma_leader(g, u);
    lemma_leader(g, v);
    let l = leader(g, u);
    lemma_reach_trans(g, v, u, l);
    lemma_reach_trans(g, l, u, v);
    lemma_leader_unique(g, v, l, leader(g, v));
    assert forall|w: int| 0 <= w < g.len() implies #[trigger] reach(g, w, u) == reach(g, w, v) by {
        if reach(g, w, u) {
            lemma_reach_trans(g, w, u, v);
        }
        if reach(g, w, v) {
            lemma_reach_trans(g, w, v, u);
        }
    }
    lemma_count_same(|w: int| reach(g, w, v), |w: int| reach(g, w, u), 0, g.len() as int);
}

/// A leader is its own leader.
proof fn lemma_leader_self(g: Seq<Vec<usize>>, r: int)
    requires
        is_leader(g, r),
    ensures
        leader(g, r) == r,
{
    lemma_reach_refl(g, r);
    lemma_leader(g, r);
    lemma_leader_unique(g, r, r, leader(g, r));
}

/// A component that comes before another has a smaller number.
proof fn lemma_before_id(g: Seq<Vec<usize>>, u: int, v: int)
    requires
        0 <= u < g.len(),
        before(g, u, v),
    ensures
        comp_id(g, u) < comp_id(g, v),
{
    let n = g.len() as int;
    let f = |r: int| is_leader(g, r) && before(g, r, u);
    let h = |r: int| is_leader(g, r) && before(g, r, v);
    lemma_leader(g, u);
    let l = leader(g, u);
    lemma_same_component(g, u, l);
    lemma_leader_self(g, l);
    lemma_count_lt(f, h, 0, n, l);
}

/// Same component, same number; different components, different numbers.
pub proof fn lemma_comp_id_eq(g: Seq<Vec<usize>>, u: int, v: int)
    requires
        0 <= u < g.len(),
        0 <= v < g.len(),
    ensures
        comp_id(g, u) == comp_id(g, v) <==> sc(g, u, v),
{
    let n = g.len() as int;
    if sc(g, u, v) {
        lemma_same_component(g, u, v);
        lemma_count_same(
            |r: int| is_leader(g, r) && before(g, r, v),
            |r: int| is_leader(g, r) && before(g, r, u),
            0,
            n,
        );
    } else {
        lemma_leader(g, u);
        lemma_leader(g, v);
        if leader(g, u) == leader(g, v) {
            let l = leader(g, u);
            lemma_reach_trans(g, u, l, v);
            lemma_reach_trans(g, v, l, u);
        }
        if before(g, u, v) {
            lemma_before_id(g, u, v);
        } else {
            lemma_before_id(g, v, u);
        }
    }
}

/// Along an edge the number does not decrease.
pub proof fn lemma_comp_id_edge(g: Seq<Vec<usize>>, u: int, k: int)
    requires
        closed_graph(g),
        0 <= u < g.len(),
        0 <= k < g[u]@.len(),
    ensures
        comp_id(g, u) <= comp_id(g, g[u]@[k] as int),
{
    let n = g.len() as int;
    let w = g[u]@[k] as int;
    assert(edge(g, u, w));
    lemma_reach_refl(g, u);
    lemma_reach_edge(g, u, u, w);
    if sc(g, u, w) {
        lemma_comp_id_eq(g, u, w);
    } else {
        assert forall|x: int| 0 <= x < n && #[trigger] reach(g, x, u) implies reach(g, x, w) by {
            lemma_reach_trans(g, x, u, w);
        }
        lemma_reach_refl(g, w);
        lemma_count_lt(|x: int| reach(g, x, u), |x: int| reach(g, x, w), 0, n, w);
        lemma_before_id(g, u, w);
    }
}

/// Some entry of `c` is `j`.
pub open spec fn used(c: Seq<usize>, j: int) -> bool {
    exists|v: int| 0 <= v < c.len() && c[v] == j
}

/// The number of components.
pub open spec fn comp_count(g: Seq<Vec<usize>>) -> nat {
    count_of(|r: int| is_leader(g, r), 0, g.len() as int)
}

/// Every number is below the number of components.
pub proof fn lemma_comp_id_bound(g: Seq<Vec<usize>>, u: int)
    requires
        0 <= u < g.len(),
    ensures
        comp_id(g, u) < comp_count(g),
{
    lemma_leader(g, u);
    let l = leader(g, u);
    lemma_same_component(g, u, l);
    lemma_leader_self(g, l);
    lemma_count_lt(
        |r: int| is_leader(g, r) && before(g, r, u),
        |r: int| is_leader(g, r),
        0,
        g.len() as int,
        l,
    );
}

/// Every number below the number of components is used.
pub proof fn lemma_comp_id_onto(g: Seq<Vec<usize>>, j: int)
    requires
        0 <= j < comp_count(g),
    ensures
        exists|v: int| 0 <= v < g.len() && comp_id(g, v) == j,
{
    let n = g.len() as int;
    let f = |r: int| is_leader(g, r);
    lemma_count_card(f, 0, n);
    let s = Set::new(|r: int| 0 <= r < n && f(r));
    let id = |r: int| comp_id(g, r) as int;
    let c = comp_count(g) as int;
    assert forall|a: int, b: int| s.contains(a) && s.contains(b) && #[trigger] id(a) == #[trigger] id(b) implies a
        == b by {
        lemma_comp_id_eq(g, a, b);
        lemma_reach_refl(g, a);
        lemma_leader_unique(g, a, a, b);
    }
    assert(vstd::relations::injective_on(id, s));
    lemma_map_size(s, s.map(id), id);
    lemma_int_range(0, c);
    assert forall|x: int| s.map(id).contains(x) implies set_int_range(0, c).contains(x) by {
        let r = choose|r: int| s.contains(r) && id(r) == x;
        lemma_comp_id_bound(g, r);
    }
    lemma_subset_equality(s.map(id), set_int_range(0, c));
    assert(set_int_range(0, c).contains(j));
    assert(s.map(id).contains(j));
    let r = choose|r: int| s.contains(r) && id(r) == j;
    assert(0 <= r < n && comp_id(g, r) == j);
}

proof fn lemma_first_is_leader(g: Seq<Vec<usize>>, u: int, v: int)
    requires
        0 <= u < g.len(),
        0 <= v,
        sc(g, u, v),
        forall|x: int| 0 <= x < v ==> !#[trigger] sc(g, u, x),
    ensures
        leader(g, u) == v,
{
    lemma_reach_range(g, u, v);
    assert forall|x: int| 0 <= x < v implies !#[trigger] sc(g, v, x) by {
        if sc(g, v, x) {
            lemma_reach_trans(g, u, v, x);
            lemma_reach_trans(g, x, v, u);
            assert(sc(g, u, x));
        }
    }
    lemma_leader(g, u);
    lemma_leader_unique(g, u, v, leader(g, u));
}

/// The vertices that `s` reaches, by breadth-first search.
fn reach_from(g: &Vec<Vec<usize>>, s: usize) -> (vis: Vec<bool>)
    requires
        closed_graph(g@),
        s < g@.len(),
    ensures
        vis@.len() == g@.len(),
        forall|v: int| 0 <= v < g@.len() ==> (vis@[v] <==> reach(g@, s as int, v)),
{
    let n = g.len();
    let mut vis: Vec<bool> = Vec::new();
    let mut i: usize = 0;
    while i < n
        invariant
            i <= n,
            vis@.len() == i,
            forall|x: int| 0 <= x < i ==> !vis@[x],
        decreases n - i,
    {
        vis.push(false);
        i += 1;
    }
    proof {
        lemma_count_same(|x: int| false, |x: int| vis@[x], 0, n as int);
        crate::counting::lemma_count_zero(0, n as int);
        lemma_count_flip(|x: int| vis@[x], |x: int| vis@[x] || x == s, 0, n as int, s as int);
        lemma_reach_refl(g@, s as int);
    }
    let ghost before_set = vis@;
    vis.set(s, true);
    proof {
        lemma_count_same(|x: int| before_set[x] || x == s, |x: int| vis@[x], 0, n as int);
    }
    let mut q: Vec<usize> = Vec::new();
    q.push(s);
    proof {
        assert forall|x: int| 0 <= x < n && #[trigger] vis@[x] implies exists|j: int| 0 <= j < q@.len() && q@[j]
            == x by {
            assert(!before_set[x] || x == s);
            assert(q@[0] == x);
        }
    }
    let mut head: usize = 0;
    while head < q.len()
        invariant
            n == g@.len(),
            closed_graph(g@),
            s < n,
            vis@.len() == n,
            head <= q@.len() <= n,
            q@.len() == count_of(|x: int| vis@[x], 0, n as int),
            forall|j: int| 0 <= j < q@.len() ==> #[trigger] q@[j] < n && vis@[q@[j] as int],
            forall|x: int| 0 <= x < n && #[trigger] vis@[x] ==> exists|j: int| 0 <= j < q@.len() && q@[j] == x,
            forall|x: int| 0 <= x < n && #[trigger] vis@[x] ==> reach(g@, s as int, x),
            vis@[s as int],
            forall|j: int, k: int|
                0 <= j < head && 0 <= k < g@[q@[j] as int]@.len() ==> vis@[#[trigger] g@[q@[j] as int]@[k] as int],
        decreases 2 * n - head - q@.len(),
    {
        let u = q[head];
        let m = g[u].len();
        let mut k: usize = 0;
        let ghost q_len0 = q@.len();
        while k < m
            invariant
                q_len0 <= q@.len(),
                q_len0 > head,
                n == g@.len(),
                closed_graph(g@),
                s < n,
                u < n,
                u == q@[head as int],
                m == g@[u as int]@.len(),
                k <= m,
                vis@.len() == n,
                head < q@.len() <= n,
                q@.len() == count_of(|x: int| vis@[x], 0, n as int),
                forall|j: int| 0 <= j < q@.len() ==> #[trigger] q@[j] < n && vis@[q@[j] as int],
                forall|x: int| 0 <= x < n && #[trigger] vis@[x] ==> exists|j: int| 0 <= j < q@.len() && q@[j] == x,
                forall|x: int| 0 <= x < n && #[trigger] vis@[x] ==> reach(g@, s as int, x),
                vis@[s as int],
                forall|j: int, kk: int|
                    0 <= j < head && 0 <= kk < g@[q@[j] as int]@.len() ==> vis@[#[trigger] g@[q@[j] as int]@[kk] as int],
                forall|kk: int| 0 <= kk < k ==> vis@[#[trigger] g@[u as int]@[kk] as int],
            decreases m - k,
        {
            let w = g[u][k];
            assert(g@[u as int]@[k as int] < n);
            if !vis[w] {
                proof {
                    assert(vis@[u as int]);
                    assert(edge(g@, u as int, w as int));
                    lemma_reach_edge(g@, s as int, u as int, w as int);
                    lemma_count_flip(|x: int| vis@[x], |x: int| vis@[x] || x == w, 0, n as int, w as int);
                    lemma_count_bound(|x: int| vis@[x] || x == w, 0, n as int);
                }
                let ghost old_vis = vis@;
                let ghost old_q = q@;
                vis.set(w, true);
                q.push(w);
                proof {
                    lemma_count_same(|x: int| old_vis[x] || x == w, |x: int| vis@[x], 0, n as int);
                    assert forall|x: int| 0 <= x < n && #[trigger] vis@[x] implies exists|j: int|
                        0 <= j < q@.len() && q@[j] == x by {
                        if x == w {
                            assert(q@[old_q.len() as int] == x);
                        } else {
                            assert(old_vis[x]);
                            let j = choose|j: int| 0 <= j < old_q.len() && old_q[j] == x;
                            assert(q@[j] == x);
                        }
                    }
                }
            }
            k += 1;
        }
        head += 1;
    }
    proof {
        let f = |x: int| 0 <= x < n && vis@[x];
        assert forall|x: int, y: int| f(x) && #[trigger] edge(g@, x, y) implies f(y) by {
            let j = choose|j: int| 0 <= j < q@.len() && q@[j] == x;
            let k = choose|k: int| 0 <= k < g@[x]@.len() && g@[x]@[k] == y;
            assert(vis@[g@[q@[j] as int]@[k] as int]);
        }
        assert forall|v: int| 0 <= v < n implies (vis@[v] <==> reach(g@, s as int, v)) by {
            if reach(g@, s as int, v) {
                lemma_reach_closed(g@, s as int, f, v);
            }
        }
    }
    vis
}

/// The strongly connected components of `g`, where `g[u]` lists the heads
/// of the edges out of `u`. The result gives each vertex the number of its
/// component: vertices share a number exactly when they reach each other,
/// the numbers are `0..k` for `k` components, and along every edge the
/// number does not decrease (topological order). Component `C` is numbered
/// by how many components come before it, ordering components by how many
/// vertices reach them and then by their least vertex.
pub fn scc(g: &Vec<Vec<usize>>) -> (c: Vec<usize>)
    requires
        closed_graph(g@),
    ensures
        c@.len() == g@.len(),
        forall|u: int| 0 <= u < g@.len() ==> c@[u] == comp_id(g@, u),
        forall|u: int, v: int|
            0 <= u < g@.len() && 0 <= v < g@.len() ==> (c@[u] == c@[v] <==> sc(g@, u, v)),
        forall|u: int, k: int|
            0 <= u < g@.len() && 0 <= k < g@[u]@.len() ==> c@[u] <= c@[g@[u]@[k] as int],
        forall|u: int| 0 <= u < g@.len() ==> c@[u] < comp_count(g@),
        forall|j: int| 0 <= j < comp_count(g@) ==> #[trigger] used(c@, j),
{
    let n = g.len();
    let mut r: Vec<Vec<bool>> = Vec::new();
    let mut s: usize = 0;
    while s < n
        invariant
            n == g@.len(),
            closed_graph(g@),
            s <= n,
            r@.len() == s,
            forall|a: int| 0 <= a < s ==> (#[trigger] r@[a])@.len() == n,
            forall|a: int, v: int| 0 <= a < s && 0 <= v < n ==> (#[trigger] r@[a]@[v] <==> reach(g@, a, v)),
        decreases n - s,
    {
        let row = reach_from(g, s);
        r.push(row);
        s += 1;
    }
    let mut key: Vec<usize> = Vec::new();
    let mut u: usize = 0;
    while u < n
        invariant
            n == g@.len(),
            u <= n,
            r@.len() == n,
            forall|a: int| 0 <= a < n ==> (#[trigger] r@[a])@.len() == n,
            forall|a: int, v: int| 0 <= a < n && 0 <= v < n ==> (#[trigger] r@[a]@[v] <==> reach(g@, a, v)),
            key@.len() == u,
            forall|x: int| 0 <= x < u ==> #[trigger] key@[x] == reachers(g@, x),
        decreases n - u,
    {
        let mut cnt: usize = 0;
        let mut w: usize = 0;
        while w < n
            invariant
                n == g@.len(),
                u < n,
                w <= n,
                cnt <= w,
                r@.len() == n,
                forall|a: int| 0 <= a < n ==> (#[trigger] r@[a])@.len() == n,
                forall|a: int, v: int| 0 <= a < n && 0 <= v < n ==> (#[trigger] r@[a]@[v] <==> reach(g@, a, v)),
                cnt == count_of(|x: int| reach(g@, x, u as int), 0, w as int),
            decreases n - w,
        {
            if r[w][u] {
                cnt += 1;
            }
            w += 1;
        }
        key.push(cnt);
        u += 1;
    }
    let mut rep: Vec<usize> = Vec::new();
    u = 0;
    while u < n
        invariant
            n == g@.len(),
            u <= n,
            r@.len() == n,
            forall|a: int| 0 <= a < n ==> (#[trigger] r@[a])@.len() == n,
            forall|a: int, v: int| 0 <= a < n && 0 <= v < n ==> (#[trigger] r@[a]@[v] <==> reach(g@, a, v)),
            rep@.len() == u,
            forall|x: int| 0 <= x < u ==> #[trigger] rep@[x] == leader(g@, x) && rep@[x] < n,
        decreases n - u,
    {
        proof {
            lemma_reach_refl(g@, u as int);
        }
        let mut v: usize = 0;
        while !(r[u][v] && r[v][u])
            invariant
                n == g@.len(),
                u < n,
                v <= u,
                sc(g@, u as int, u as int),
                r@.len() == n,
                forall|a: int| 0 <= a < n ==> (#[trigger] r@[a])@.len() == n,
                forall|a: int, b: int| 0 <= a < n && 0 <= b < n ==> (#[trigger] r@[a]@[b] <==> reach(g@, a, b)),
                forall|x: int| 0 <= x < v ==> !#[trigger] sc(g@, u as int, x),
            decreases u - v,
        {
            v += 1;
        }
        proof {
            lemma_first_is_leader(g@, u as int, v as int);
        }
        rep.push(v);
        u += 1;
    }
    let mut c: Vec<usize> = Vec::new();
    u = 0;
    while u < n
        invariant
            n == g@.len(),
            u <= n,
            key@.len() == n,
            rep@.len() == n,
            forall|x: int| 0 <= x < n ==> #[trigger] key@[x] == reachers(g@, x),
            forall|x: int| 0 <= x < n ==> #[trigger] rep@[x] == leader(g@, x) && rep@[x] < n,
            c@.len() == u,
            forall|x: int| 0 <= x < u ==> #[trigger] c@[x] == comp_id(g@, x),
        decreases n - u,
    {
        let mut cnt: usize = 0;
        let mut x: usize = 0;
        while x < n
            invariant
                n == g@.len(),
                u < n,
                x <= n,
                cnt <= x,
                key@.len() == n,
                rep@.len() == n,
                forall|y: int| 0 <= y < n ==> #[trigger] key@[y] == reachers(g@, y),
                forall|y: int| 0 <= y < n ==> #[trigger] rep@[y] == leader(g@, y) && rep@[y] < n,
                cnt == count_of(|y: int| is_leader(g@, y) && before(g@, y, u as int), 0, x as int),
            decreases n - x,
        {
            proof {
                lemma_leader(g@, x as int);
                if is_leader(g@, x as int) {
                    lemma_leader_self(g@, x as int);
                }
                assert(rep@[x as int] == leader(g@, x as int));
                assert(rep@[u as int] == leader(g@, u as int));
            }
            if rep[x] == x && (key[x] < key[u] || (key[x] == key[u] && x < rep[u])) {
                cnt += 1;
            }
            x += 1;
        }
        c.push(cnt);
        u += 1;
    }
    proof {
        assert forall|a: int, b: int| 0 <= a < n && 0 <= b < n implies (c@[a] == c@[b] <==> sc(g@, a, b)) by {
            lemma_comp_id_eq(g@, a, b);
        }
        assert forall|a: int, k: int| 0 <= a < n && 0 <= k < g@[a]@.len() implies c@[a] <= c@[g@[a]@[k] as int] by {
            lemma_comp_id_edge(g@, a, k);
        }
        assert forall|a: int| 0 <= a < n implies c@[a] < comp_count(g@) by {
            lemma_comp_id_bound(g@, a);
        }
        assert forall|j: int| 0 <= j < comp_count(g@) implies #[trigger] used(c@, j) by {
            lemma_comp_id_onto(g@, j);
            let v = choose|v: int| 0 <= v < n && comp_id(g@, v) == j;
            assert(c@[v] == j);
        }
    }
    c
}

} // verus!
