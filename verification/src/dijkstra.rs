//! Shortest paths from one source in a graph with non-negative edge costs,
//! by Dijkstra's algorithm.
use vstd::prelude::*;

use crate::counting::{count_of, lemma_count_bound, lemma_count_flip};
use crate::sssp::Sssp;

verus! {

/// A graph: for each vertex, its outgoing edges as (head, cost).
pub type Graph = Seq<Seq<(usize, u64)>>;

/// The adjacency lists of `g`.
pub open spec fn adj(g: Seq<Vec<(usize, u64)>>) -> Graph {
    g.map_values(|r: Vec<(usize, u64)>| r@)
}

/// Every edge of `g` leads to one of its vertices.
pub open spec fn graph_ok(g: Graph) -> bool {
    forall|u: int, e: int| 0 <= u < g.len() && 0 <= e < g[u].len() ==> (#[trigger] g[u][e]).0 < g.len()
}

/// Where the walk from `src` that takes, in turn, the edges with the
/// indices `s` ends.
pub open spec fn walk_end(g: Graph, src: int, s: Seq<usize>) -> int
    decreases s.len(),
{
    if s.len() == 0 {
        src
    } else {
        g[walk_end(g, src, s.drop_last())][s.last() as int].0 as int
    }
}

/// Each edge index of the walk names an edge of the vertex it leaves.
pub open spec fn walk_ok(g: Graph, src: int, s: Seq<usize>) -> bool
    decreases s.len(),
{
    if s.len() == 0 {
        0 <= src < g.len()
    } else {
        let u = walk_end(g, src, s.drop_last());
        &&& walk_ok(g, src, s.drop_last())
        &&& s.last() < g[u].len()
    }
}

/// The sum of the costs of the edges of the walk.
pub open spec fn walk_cost(g: Graph, src: int, s: Seq<usize>) -> int
    decreases s.len(),
{
    if s.len() == 0 {
        0
    } else {
        walk_cost(g, src, s.drop_last()) + g[walk_end(g, src, s.drop_last())][s.last() as int].1
    }
}

/// Some walk from `src` reaches `v`.
pub open spec fn reachable(g: Graph, src: int, v: int) -> bool {
    exists|s: Seq<usize>| walk_ok(g, src, s) && #[trigger] walk_end(g, src, s) == v
}

/// `d` is the least cost of a walk from `src` to `v`.
pub open spec fn is_dist(g: Graph, src: int, v: int, d: int) -> bool {
    &&& exists|s: Seq<usize>| walk_ok(g, src, s) && #[trigger] walk_end(g, src, s) == v && walk_cost(g, src, s) == d
    &&& forall|s: Seq<usize>| walk_ok(g, src, s) && #[trigger] walk_end(g, src, s) == v ==> d <= walk_cost(g, src, s)
}

/// A shortest distance plus the cost of an edge leaving there fits in a
/// `u64`.
pub open spec fn fits(g: Graph, src: int) -> bool {
    forall|v: int, d: int, e: int|
        #![trigger is_dist(g, src, v, d), g[v][e]]
        0 <= v < g.len() && 0 <= e < g[v].len() && is_dist(g, src, v, d) ==> d + g[v][e].1 <= u64::MAX
}

/// A walk of a well-formed graph stays on its vertices, at no negative cost.
proof fn lemma_walk_in(g: Graph, src: int, s: Seq<usize>)
    requires
        graph_ok(g),
        walk_ok(g, src, s),
    ensures
        0 <= walk_end(g, src, s) < g.len(),
        walk_cost(g, src, s) >= 0,
    decreases s.len(),
{
    if s.len() > 0 {
        lemma_walk_in(g, src, s.drop_last());
        let u = walk_end(g, src, s.drop_last());
        assert(g[u][s.last() as int].0 < g.len());
    }
}

/// A walk followed by one more edge.
proof fn lemma_walk_push(g: Graph, src: int, s: Seq<usize>, e: usize)
    requires
        walk_ok(g, src, s),
        e < g[walk_end(g, src, s)].len(),
    ensures
        walk_ok(g, src, s.push(e)),
        walk_end(g, src, s.push(e)) == g[walk_end(g, src, s)][e as int].0,
        walk_cost(g, src, s.push(e)) == walk_cost(g, src, s) + g[walk_end(g, src, s)][e as int].1,
{
    assert(s.push(e).drop_last() == s);
}

/// `x` has a cost no more than `b`, and is not done or is `z`.
pub open spec fn frontier(cost: Seq<Option<u64>>, done: Seq<bool>, x: int, b: int, z: int) -> bool {
    &&& 0 <= x < cost.len()
    &&& cost[x] is Some
    &&& cost[x]->0 <= b
    &&& (!done[x] || x == z)
}

/// Every edge leaving a vertex that is done leads to a vertex with a cost
/// no more than the sum; the edges of `pv` from index `pi` on aside.
#[verifier::opaque]
spec fn relaxed(g: Graph, cost: Seq<Option<u64>>, done: Seq<bool>, pv: int, pi: int) -> bool {
    forall|u: int, e: int|
        #![trigger done[u], g[u][e]]
        0 <= u < g.len() && done[u] && 0 <= e < g[u].len() && !(u == pv && e >= pi) ==> {
            &&& cost[u] is Some
            &&& cost[g[u][e].0 as int] is Some
            &&& cost[g[u][e].0 as int]->0 <= cost[u]->0 + g[u][e].1
        }
}

/// Along any walk from the source, the first vertex not done, or else its
/// end, has a cost no more than that of the walk.
proof fn lemma_frontier(g: Graph, src: int, cost: Seq<Option<u64>>, done: Seq<bool>, s: Seq<usize>)
    requires
        graph_ok(g),
        cost.len() == g.len(),
        done.len() == g.len(),
        0 <= src < g.len(),
        cost[src] == Some(0u64),
        relaxed(g, cost, done, -1, 0),
        walk_ok(g, src, s),
    ensures
        exists|x: int| #[trigger] frontier(cost, done, x, walk_cost(g, src, s), walk_end(g, src, s)),
    decreases s.len(),
{
    reveal(relaxed);
    lemma_walk_in(g, src, s);
    if s.len() == 0 {
        assert(frontier(cost, done, src, 0, src));
    } else {
        let t = s.drop_last();
        let y = walk_end(g, src, t);
        let e = s.last() as int;
        lemma_frontier(g, src, cost, done, t);
        lemma_walk_in(g, src, t);
        let x = choose|x: int| #[trigger] frontier(cost, done, x, walk_cost(g, src, t), y);
        if !done[x] {
            assert(frontier(cost, done, x, walk_cost(g, src, s), walk_end(g, src, s)));
        } else {
            assert(done[y] && 0 <= e < g[y].len());
            let z = g[y][e].0 as int;
            assert(frontier(cost, done, z, walk_cost(g, src, s), walk_end(g, src, s)));
        }
    }
}

/// Entry `a` of the queue comes out before entry `b`: it has the smaller
/// cost, or the same cost and the greater vertex.
pub open spec fn earlier(a: (u64, usize), b: (u64, usize)) -> bool {
    a.0 < b.0 || (a.0 == b.0 && a.1 > b.1)
}

/// The queue holds its entries so that the last comes out first.
pub open spec fn queue_ok(h: Seq<(u64, usize)>) -> bool {
    forall|i: int, j: int| 0 <= i < j < h.len() ==> !earlier(#[trigger] h[i], #[trigger] h[j])
}

/// Adds an entry to the queue, keeping its order.
fn enqueue(h: &mut Vec<(u64, usize)>, x: (u64, usize))
    requires
        queue_ok(old(h)@),
    ensures
        queue_ok(final(h)@),
        final(h)@.len() == old(h)@.len() + 1,
        final(h)@.contains(x),
        forall|y: (u64, usize)| old(h)@.contains(y) ==> final(h)@.contains(y),
        forall|y: (u64, usize)| #[trigger] final(h)@.contains(y) ==> y == x || old(h)@.contains(y),
{
    let mut i = h.len();
    while i > 0 && (x.0 > h[i - 1].0 || (x.0 == h[i - 1].0 && x.1 < h[i - 1].1))
        invariant
            i <= h@.len(),
            forall|j: int| i <= j < h@.len() ==> earlier(#[trigger] h@[j], x),
        decreases i,
    {
        i -= 1;
    }
    let ghost s = h@;
    h.insert(i, x);
    proof {
        assert(h@ == s.insert(i as int, x));
        assert(h@[i as int] == x);
        assert forall|a: int, b: int| 0 <= a < b < h@.len() implies !earlier(#[trigger] h@[a], #[trigger] h@[b]) by {
            if b < i {
                assert(h@[a] == s[a] && h@[b] == s[b]);
            } else if a < i && b == i {
                assert(h@[a] == s[a]);
                assert(!earlier(s[i - 1], x));
                if a < i - 1 {
                    assert(!earlier(s[a], s[i - 1]));
                }
            } else if a < i {
                assert(h@[a] == s[a] && h@[b] == s[b - 1]);
                if a < i - 1 {
                    assert(!earlier(s[a], s[i - 1]));
                }
                assert(!earlier(s[i - 1], x));
            } else if a == i {
                assert(h@[b] == s[b - 1]);
                assert(earlier(s[b - 1], x));
            } else {
                assert(h@[a] == s[a - 1] && h@[b] == s[b - 1]);
            }
        }
        assert forall|y: (u64, usize)| s.contains(y) implies h@.contains(y) by {
            let k = choose|k: int| 0 <= k < s.len() && s[k] == y;
            if k < i {
                assert(h@[k] == y);
            } else {
                assert(h@[k + 1] == y);
            }
        }
        assert forall|y: (u64, usize)| #[trigger] h@.contains(y) implies y == x || s.contains(y) by {
            let k = choose|k: int| 0 <= k < h@.len() && h@[k] == y;
            if k < i {
                assert(s[k] == y);
            } else if k > i {
                assert(s[k - 1] == y);
            }
        }
    }
}

/// Shortest paths from one source, as found by Dijkstra's algorithm: the
/// least cost of reaching each vertex, and the vertex before it on a path
/// of that cost.
pub struct DijkstraSssp {
    cost: Vec<Option<u64>>,
    prev: Vec<Option<usize>>,
    src: usize,
    g: Ghost<Graph>,
    order: Ghost<Seq<int>>,
}

/// The queue holds vertices with a cost no more than the entry's.
#[verifier::opaque]
spec fn q_entries(cost: Seq<Option<u64>>, h: Seq<(u64, usize)>) -> bool {
    forall|i: int| 0 <= i < h.len() ==> {
        &&& (#[trigger] h[i]).1 < cost.len()
        &&& cost[h[i].1 as int] is Some
        &&& cost[h[i].1 as int]->0 <= h[i].0
    }
}

/// A vertex with a cost, not done yet, is in the queue with that cost.
#[verifier::opaque]
spec fn q_pending(cost: Seq<Option<u64>>, done: Seq<bool>, h: Seq<(u64, usize)>) -> bool {
    forall|x: int| 0 <= x < cost.len() && !done[x] && (#[trigger] cost[x]) is Some ==> h.contains((cost[x]->0, x as usize))
}

/// A vertex done has its least cost, no more than any entry of the queue,
/// and was done before the `t`-th.
#[verifier::opaque]
spec fn done_ok(g: Graph, src: int, cost: Seq<Option<u64>>, done: Seq<bool>, order: Seq<int>, t: int, h: Seq<(u64, usize)>) -> bool {
    forall|u: int| 0 <= u < cost.len() && #[trigger] done[u] ==> {
        &&& cost[u] is Some
        &&& is_dist(g, src, u, cost[u]->0 as int)
        &&& forall|i: int| 0 <= i < h.len() ==> cost[u]->0 <= (#[trigger] h[i]).0
        &&& 0 <= order[u] < t
    }
}

/// Every cost found is that of a walk.
#[verifier::opaque]
spec fn witnessed(g: Graph, src: int, cost: Seq<Option<u64>>) -> bool {
    forall|x: int| 0 <= x < cost.len() && (#[trigger] cost[x]) is Some ==> exists|s: Seq<usize>|
        walk_ok(g, src, s) && #[trigger] walk_end(g, src, s) == x && walk_cost(g, src, s) == cost[x]->0
}

/// The vertex before another with a cost is done, and an edge leads on
/// from it at the cost of the other.
#[verifier::opaque]
spec fn prev_ok(g: Graph, src: int, cost: Seq<Option<u64>>, prev: Seq<Option<usize>>, done: Seq<bool>, order: Seq<int>) -> bool {
    &&& forall|x: int| 0 <= x < cost.len() && (#[trigger] cost[x]) is None ==> prev[x] is None
    &&& forall|x: int| 0 <= x < cost.len() && x != src && (#[trigger] cost[x]) is Some ==> {
        &&& prev[x] is Some
        &&& prev[x]->0 < cost.len()
        &&& done[prev[x]->0 as int]
        &&& (done[x] ==> order[prev[x]->0 as int] < order[x])
        &&& exists|e: usize| (e as int) < g[prev[x]->0 as int].len() && #[trigger] g[prev[x]->0 as int][e as int].0 == x
            && cost[prev[x]->0 as int]->0 + g[prev[x]->0 as int][e as int].1 == cost[x]->0
    }
}

/// The state of the search: the costs found so far, the vertex before each,
/// the queue of vertices to visit, the vertices done and in which order;
/// the edges of `pv` from index `pi` on not yet relaxed.
spec fn search_ok(g: Graph, src: int, cost: Seq<Option<u64>>, prev: Seq<Option<usize>>, h: Seq<(u64, usize)>, done: Seq<bool>, order: Seq<int>, t: int, pv: int, pi: int) -> bool {
    let n = g.len();
    &&& graph_ok(g)
    &&& n <= usize::MAX
    &&& 0 <= src < n
    &&& cost.len() == n
    &&& prev.len() == n
    &&& done.len() == n
    &&& order.len() == n
    &&& cost[src] == Some(0u64)
    &&& prev[src] is None
    &&& queue_ok(h)
    &&& q_entries(cost, h)
    &&& q_pending(cost, done, h)
    &&& done_ok(g, src, cost, done, order, t, h)
    &&& relaxed(g, cost, done, pv, pi)
    &&& witnessed(g, src, cost)
    &&& prev_ok(g, src, cost, prev, done, order)
    &&& t == count_of(|v: int| done[v], 0, n as int)
    &&& forall|x: int| 0 <= x < n ==> #[trigger] order[x] >= 0
}

/// The last entry of the queue has the least cost.
proof fn lemma_queue_min(h: Seq<(u64, usize)>)
    requires
        queue_ok(h),
        h.len() > 0,
    ensures
        forall|i: int| 0 <= i < h.len() ==> h.last().0 <= (#[trigger] h[i]).0,
{
    assert forall|i: int| 0 <= i < h.len() implies h.last().0 <= (#[trigger] h[i]).0 by {
        if i < h.len() - 1 {
            assert(!earlier(h[i], h[h.len() - 1]));
        }
    }
}

/// The vertex taken from the queue, with the cost it was queued with, not
/// done yet: that cost is its least.
proof fn lemma_settle(g: Graph, src: int, cost: Seq<Option<u64>>, prev: Seq<Option<usize>>, h: Seq<(u64, usize)>, done: Seq<bool>, order: Seq<int>, t: int)
    requires
        search_ok(g, src, cost, prev, h, done, order, t, -1, 0),
        h.len() > 0,
        cost[h.last().1 as int] == Some(h.last().0),
    ensures
        is_dist(g, src, h.last().1 as int, h.last().0 as int),
{
    reveal(q_entries);
    reveal(q_pending);
    reveal(witnessed);
    let (w, v) = h.last();
    let v = v as int;
    lemma_queue_min(h);
    assert(h[h.len() - 1] == h.last());
    assert(cost[v] is Some);
    assert forall|s: Seq<usize>| walk_ok(g, src, s) && #[trigger] walk_end(g, src, s) == v implies w <= walk_cost(g, src, s) by {
        lemma_frontier(g, src, cost, done, s);
        let x = choose|x: int| #[trigger] frontier(cost, done, x, walk_cost(g, src, s), walk_end(g, src, s));
        if x != v {
            assert(h.contains((cost[x]->0, x as usize)));
            let k = choose|k: int| 0 <= k < h.len() && h[k] == (cost[x]->0, x as usize);
            assert(w <= h[k].0);
        }
    }
}

/// A vertex reached by a walk at cost `c`, then by edge `e`.
proof fn lemma_walk_via(g: Graph, src: int, u: int, c: int, e: usize)
    requires
        graph_ok(g),
        0 <= u < g.len(),
        e < g[u].len(),
        exists|s: Seq<usize>| walk_ok(g, src, s) && #[trigger] walk_end(g, src, s) == u && walk_cost(g, src, s) == c,
    ensures
        exists|s: Seq<usize>| walk_ok(g, src, s) && #[trigger] walk_end(g, src, s) == g[u][e as int].0 && walk_cost(g, src, s) == c + g[u][e as int].1,
{
    let s = choose|s: Seq<usize>| walk_ok(g, src, s) && #[trigger] walk_end(g, src, s) == u && walk_cost(g, src, s) == c;
    lemma_walk_push(g, src, s, e);
    let s2 = s.push(e);
    assert(walk_end(g, src, s2) == g[u][e as int].0);
}

/// Taking the last entry off the queue keeps the state, where its vertex is
/// done or has a lower cost.
proof fn lemma_drop(g: Graph, src: int, cost: Seq<Option<u64>>, prev: Seq<Option<usize>>, h: Seq<(u64, usize)>, done: Seq<bool>, order: Seq<int>, t: int)
    requires
        search_ok(g, src, cost, prev, h, done, order, t, -1, 0),
        h.len() > 0,
        done[h.last().1 as int] || cost[h.last().1 as int] != Some(h.last().0),
    ensures
        search_ok(g, src, cost, prev, h.drop_last(), done, order, t, -1, 0),
{
    let hd = h.drop_last();
    assert(q_entries(cost, hd)) by {
        reveal(q_entries);
        assert forall|i: int| 0 <= i < hd.len() implies {
            &&& (#[trigger] hd[i]).1 < cost.len()
            &&& cost[hd[i].1 as int] is Some
            &&& cost[hd[i].1 as int]->0 <= hd[i].0
        } by {
            assert(hd[i] == h[i]);
        }
    }
    assert(q_pending(cost, done, hd)) by {
        reveal(q_pending);
        assert forall|x: int| 0 <= x < cost.len() && !done[x] && (#[trigger] cost[x]) is Some implies hd.contains((cost[x]->0, x as usize)) by {
            assert(h.contains((cost[x]->0, x as usize)));
            let k = choose|k: int| 0 <= k < h.len() && h[k] == (cost[x]->0, x as usize);
            assert(k != h.len() - 1);
            assert(hd[k] == h[k]);
        }
    }
    assert(done_ok(g, src, cost, done, order, t, hd)) by {
        reveal(done_ok);
        assert forall|u: int| 0 <= u < cost.len() && #[trigger] done[u] implies forall|i: int| 0 <= i < hd.len() ==> cost[u]->0 <= (#[trigger] hd[i]).0 by {
            assert forall|i: int| 0 <= i < hd.len() implies cost[u]->0 <= (#[trigger] hd[i]).0 by {
                assert(hd[i] == h[i]);
            }
        }
    }
}

/// The vertex of the last entry of the queue, with its cost there, becomes
/// done, its edges still to relax.
proof fn lemma_mark_done(g: Graph, src: int, cost: Seq<Option<u64>>, prev: Seq<Option<usize>>, h: Seq<(u64, usize)>, done: Seq<bool>, order: Seq<int>, t: int)
    requires
        search_ok(g, src, cost, prev, h, done, order, t, -1, 0),
        h.len() > 0,
        !done[h.last().1 as int],
        cost[h.last().1 as int] == Some(h.last().0),
    ensures
        ({
            let v = h.last().1 as int;
            search_ok(g, src, cost, prev, h.drop_last(), done.update(v, true), order.update(v, t), t + 1, v, 0)
        }),
        is_dist(g, src, h.last().1 as int, h.last().0 as int),
{
    reveal(q_entries);
    let n = g.len();
    let (w, vu) = h.last();
    let v = vu as int;
    let hd = h.drop_last();
    let d2 = done.update(v, true);
    let o2 = order.update(v, t);
    lemma_settle(g, src, cost, prev, h, done, order, t);
    lemma_queue_min(h);
    assert(h[h.len() - 1] == h.last());
    lemma_count_flip(|u: int| done[u], |u: int| d2[u], 0, n as int, v);
    assert(q_entries(cost, hd)) by {
        reveal(q_entries);
        assert forall|i: int| 0 <= i < hd.len() implies {
            &&& (#[trigger] hd[i]).1 < cost.len()
            &&& cost[hd[i].1 as int] is Some
            &&& cost[hd[i].1 as int]->0 <= hd[i].0
        } by {
            assert(hd[i] == h[i]);
        }
    }
    assert(q_pending(cost, d2, hd)) by {
        reveal(q_pending);
        assert forall|x: int| 0 <= x < cost.len() && !d2[x] && (#[trigger] cost[x]) is Some implies hd.contains((cost[x]->0, x as usize)) by {
            assert(h.contains((cost[x]->0, x as usize)));
            let k = choose|k: int| 0 <= k < h.len() && h[k] == (cost[x]->0, x as usize);
            assert(k != h.len() - 1);
            assert(hd[k] == h[k]);
        }
    }
    assert(done_ok(g, src, cost, d2, o2, t + 1, hd)) by {
        reveal(done_ok);
        assert forall|u: int| 0 <= u < cost.len() && #[trigger] d2[u] implies {
            &&& cost[u] is Some
            &&& is_dist(g, src, u, cost[u]->0 as int)
            &&& forall|i: int| 0 <= i < hd.len() ==> cost[u]->0 <= (#[trigger] hd[i]).0
            &&& 0 <= o2[u] < t + 1
        } by {
            assert forall|i: int| 0 <= i < hd.len() implies cost[u]->0 <= (#[trigger] hd[i]).0 by {
                assert(hd[i] == h[i]);
            }
        }
    }
    assert(relaxed(g, cost, d2, v, 0)) by {
        reveal(relaxed);
    }
    assert(prev_ok(g, src, cost, prev, d2, o2)) by {
        reveal(prev_ok);
        reveal(done_ok);
        assert forall|x: int| 0 <= x < cost.len() && x != src && (#[trigger] cost[x]) is Some implies {
            &&& prev[x] is Some
            &&& prev[x]->0 < cost.len()
            &&& d2[prev[x]->0 as int]
            &&& (d2[x] ==> o2[prev[x]->0 as int] < o2[x])
            &&& exists|e: usize| (e as int) < g[prev[x]->0 as int].len() && #[trigger] g[prev[x]->0 as int][e as int].0 == x
                && cost[prev[x]->0 as int]->0 + g[prev[x]->0 as int][e as int].1 == cost[x]->0
        } by {
            let u = prev[x]->0 as int;
            assert(done[u]);
        }
    }
    assert forall|x: int| 0 <= x < n implies #[trigger] o2[x] >= 0 by {
        assert(order[x] >= 0);
    }
}

/// Leaving the edges of `v` aside weakens the state.
proof fn lemma_aside(g: Graph, src: int, cost: Seq<Option<u64>>, prev: Seq<Option<usize>>, h: Seq<(u64, usize)>, done: Seq<bool>, order: Seq<int>, t: int, v: int)
    requires
        search_ok(g, src, cost, prev, h, done, order, t, -1, 0),
    ensures
        search_ok(g, src, cost, prev, h, done, order, t, v, 0),
        relaxed(g, cost, done, -1, 0),
{
    reveal(relaxed);
}

/// The edges of `v` up to `i` relaxed, that of index `i` too, where the
/// vertex it leads to has a cost no more than through it.
proof fn lemma_relax_none(g: Graph, src: int, cost: Seq<Option<u64>>, prev: Seq<Option<usize>>, h: Seq<(u64, usize)>, done: Seq<bool>, order: Seq<int>, t: int, v: int, i: int)
    requires
        search_ok(g, src, cost, prev, h, done, order, t, v, i),
        0 <= v < g.len(),
        0 <= i < g[v].len(),
        cost[v] is Some,
        cost[g[v][i].0 as int] is Some,
        cost[g[v][i].0 as int]->0 <= cost[v]->0 + g[v][i].1,
    ensures
        search_ok(g, src, cost, prev, h, done, order, t, v, i + 1),
{
    reveal(relaxed);
}

/// In a state where every edge is relaxed, that of index `i` of a vertex
/// done is.
proof fn lemma_relaxed_edge(g: Graph, cost: Seq<Option<u64>>, done: Seq<bool>, v: int, i: int)
    requires
        relaxed(g, cost, done, -1, 0),
        0 <= v < g.len(),
        done[v],
        0 <= i < g[v].len(),
    ensures
        cost[v] is Some,
        cost[g[v][i].0 as int] is Some,
        cost[g[v][i].0 as int]->0 <= cost[v]->0 + g[v][i].1,
{
    reveal(relaxed);
}

/// Once the last edge of `v` is relaxed, every edge is.
proof fn lemma_relaxed_all(g: Graph, cost: Seq<Option<u64>>, done: Seq<bool>, v: int)
    requires
        0 <= v < g.len(),
        relaxed(g, cost, done, v, g[v].len() as int),
    ensures
        relaxed(g, cost, done, -1, 0),
{
    reveal(relaxed);
}

/// The edge of index `i` of `v`, done at cost `w`, gives its head a lower
/// cost: the head gets it, `v` before it, and an entry in the queue.
proof fn lemma_relax(g: Graph, src: int, cost: Seq<Option<u64>>, prev: Seq<Option<usize>>, h: Seq<(u64, usize)>, done: Seq<bool>, order: Seq<int>, t: int, v: int, i: int, w: u64, h2: Seq<(u64, usize)>)
    requires
        search_ok(g, src, cost, prev, h, done, order, t, v, i),
        0 <= v < g.len(),
        0 <= i < g[v].len(),
        i < usize::MAX,
        done[v],
        cost[v] == Some(w),
        forall|u: int| 0 <= u < g.len() && #[trigger] done[u] ==> cost[u]->0 <= w,
        w + g[v][i].1 <= u64::MAX,
        cost[g[v][i].0 as int] is None || w + g[v][i].1 < cost[g[v][i].0 as int]->0,
        queue_ok(h2),
        h2.contains(((w + g[v][i].1) as u64, g[v][i].0)),
        forall|y: (u64, usize)| h.contains(y) ==> h2.contains(y),
        forall|y: (u64, usize)| #[trigger] h2.contains(y) ==> y == ((w + g[v][i].1) as u64, g[v][i].0) || h.contains(y),
    ensures
        ({
            let nv = g[v][i].0 as int;
            let nw = (w + g[v][i].1) as u64;
            search_ok(g, src, cost.update(nv, Some(nw)), prev.update(nv, Some(v as usize)), h2, done, order, t, v, i + 1)
        }),
{
    let n = g.len();
    let (nvu, dw) = g[v][i];
    let nv = nvu as int;
    let nw = (w + dw) as u64;
    let c2 = cost.update(nv, Some(nw));
    let p2 = prev.update(nv, Some(v as usize));
    assert(nv < n);
    assert(!done[nv]) by {
        reveal(done_ok);
    }
    assert(nv != src);
    assert(q_entries(c2, h2)) by {
        reveal(q_entries);
        assert forall|j: int| 0 <= j < h2.len() implies {
            &&& (#[trigger] h2[j]).1 < c2.len()
            &&& c2[h2[j].1 as int] is Some
            &&& c2[h2[j].1 as int]->0 <= h2[j].0
        } by {
            assert(h2.contains(h2[j]));
            if h2[j] != (nw, nvu) {
                let k = choose|k: int| 0 <= k < h.len() && h[k] == h2[j];
                assert(h[k] == h2[j]);
            }
        }
    }
    assert(q_pending(c2, done, h2)) by {
        reveal(q_pending);
        assert forall|x: int| 0 <= x < c2.len() && !done[x] && (#[trigger] c2[x]) is Some implies h2.contains((c2[x]->0, x as usize)) by {
            if x != nv {
                assert(h.contains((cost[x]->0, x as usize)));
            }
        }
    }
    assert(done_ok(g, src, c2, done, order, t, h2)) by {
        reveal(done_ok);
        assert forall|u: int| 0 <= u < c2.len() && #[trigger] done[u] implies {
            &&& c2[u] is Some
            &&& is_dist(g, src, u, c2[u]->0 as int)
            &&& forall|j: int| 0 <= j < h2.len() ==> c2[u]->0 <= (#[trigger] h2[j]).0
            &&& 0 <= order[u] < t
        } by {
            assert forall|j: int| 0 <= j < h2.len() implies c2[u]->0 <= (#[trigger] h2[j]).0 by {
                assert(h2.contains(h2[j]));
                if h2[j] != (nw, nvu) {
                    let k = choose|k: int| 0 <= k < h.len() && h[k] == h2[j];
                    assert(h[k] == h2[j]);
                }
            }
        }
    }
    assert(relaxed(g, c2, done, v, i + 1)) by {
        reveal(relaxed);
    }
    assert(witnessed(g, src, c2)) by {
        reveal(witnessed);
        lemma_walk_via(g, src, v, w as int, i as usize);
        assert forall|x: int| 0 <= x < c2.len() && (#[trigger] c2[x]) is Some implies exists|s: Seq<usize>|
            walk_ok(g, src, s) && #[trigger] walk_end(g, src, s) == x && walk_cost(g, src, s) == c2[x]->0 by {
            if x != nv {
                assert(cost[x] == c2[x]);
            }
        }
    }
    assert(prev_ok(g, src, c2, p2, done, order)) by {
        reveal(prev_ok);
        assert forall|x: int| 0 <= x < c2.len() && (#[trigger] c2[x]) is None implies p2[x] is None by {
            assert(x != nv);
        }
        assert forall|x: int| 0 <= x < c2.len() && x != src && (#[trigger] c2[x]) is Some implies {
            &&& p2[x] is Some
            &&& p2[x]->0 < c2.len()
            &&& done[p2[x]->0 as int]
            &&& (done[x] ==> order[p2[x]->0 as int] < order[x])
            &&& exists|e: usize| (e as int) < g[p2[x]->0 as int].len() && #[trigger] g[p2[x]->0 as int][e as int].0 == x
                && c2[p2[x]->0 as int]->0 + g[p2[x]->0 as int][e as int].1 == c2[x]->0
        } by {
            if x == nv {
                let e = i as usize;
                assert(p2[x]->0 as int == v);
                assert(g[p2[x]->0 as int][e as int].0 == x);
            } else {
                let u = prev[x]->0 as int;
                assert(u != nv);
            }
        }
    }
}

impl DijkstraSssp {
    /// The graph searched.
    pub closed spec fn graph(&self) -> Graph {
        self.g@
    }

    /// The source.
    pub closed spec fn source(&self) -> int {
        self.src as int
    }

    /// The least cost of reaching each vertex; `None` where it cannot be
    /// reached.
    pub closed spec fn costs(&self) -> Seq<Option<u64>> {
        self.cost@
    }

    /// An edge from `u` to `x` lies on a path of least cost: its cost is
    /// the difference of theirs.
    pub open spec fn tight(&self, u: int, x: int) -> bool {
        let g = self.graph();
        let cost = self.costs();
        &&& cost[u] is Some
        &&& cost[x] is Some
        &&& exists|e: usize| (e as int) < g[u].len() && #[trigger] g[u][e as int].0 == x && cost[u]->0 + g[u][e as int].1 == cost[x]->0
    }

    pub closed spec fn wf(&self) -> bool {
        let g = self.g@;
        let n = g.len();
        let cost = self.cost@;
        let prev = self.prev@;
        let order = self.order@;
        &&& graph_ok(g)
        &&& self.src < n
        &&& cost.len() == n
        &&& prev.len() == n
        &&& order.len() == n
        &&& cost[self.src as int] == Some(0u64)
        &&& prev[self.src as int] is None
        &&& forall|x: int| 0 <= x < n ==> #[trigger] order[x] >= 0
        &&& forall|x: int| 0 <= x < n && (#[trigger] cost[x]) is None ==> prev[x] is None
        &&& forall|x: int| 0 <= x < n && x != self.src && (#[trigger] cost[x]) is Some ==> {
            &&& prev[x] is Some
            &&& prev[x]->0 < n
            &&& order[prev[x]->0 as int] < order[x]
            &&& self.tight(prev[x]->0 as int, x)
        }
    }

    /// Searches the graph `g` with vertices `0..len` from `src`.
    pub fn new(src: usize, len: usize, g: &Vec<Vec<(usize, u64)>>) -> (r: Self)
        requires
            g@.len() == len,
            src < len,
            graph_ok(adj(g@)),
            fits(adj(g@), src as int),
        ensures
            r.wf(),
            r.graph() == adj(g@),
            r.source() == src,
            r.costs().len() == len,
            forall|v: int| 0 <= v < len ==> (#[trigger] r.costs()[v] matches Some(d) ==> is_dist(adj(g@), src as int, v, d as int)),
            forall|v: int| 0 <= v < len && (#[trigger] r.costs()[v]) is None ==> !reachable(adj(g@), src as int, v),
    {
        let ghost gg = adj(g@);
        let ghost n = len as int;
        let mut cost: Vec<Option<u64>> = Vec::new();
        let mut prev: Vec<Option<usize>> = Vec::new();
        let mut k: usize = 0;
        while k < len
            invariant
                k <= len,
                cost@.len() == k,
                prev@.len() == k,
                forall|i: int| 0 <= i < k ==> cost@[i] is None && prev@[i] is None,
            decreases len - k,
        {
            cost.push(None);
            prev.push(None);
            k += 1;
        }
        cost.set(src, Some(0));
        let mut heap: Vec<(u64, usize)> = Vec::new();
        heap.push((0, src));
        let ghost mut done: Seq<bool> = Seq::new(len as nat, |i: int| false);
        let ghost mut order: Seq<int> = Seq::new(len as nat, |i: int| 0int);
        let ghost mut t: int = 0;
        proof {
            crate::counting::lemma_count_same(|v: int| false, |v: int| done[v], 0, n);
            crate::counting::lemma_count_zero(0, n);
            assert(heap@[0] == (0u64, src));
            let e: Seq<usize> = Seq::empty();
            assert(walk_end(gg, src as int, e) == src);
            assert(gg.len() == len);
            assert(q_entries(cost@, heap@)) by {
                reveal(q_entries);
            }
            assert(q_pending(cost@, done, heap@)) by {
                reveal(q_pending);
                assert forall|x: int| 0 <= x < n && !done[x] && (#[trigger] cost@[x]) is Some implies heap@.contains((cost@[x]->0, x as usize)) by {
                    assert(x == src);
                    assert(heap@[0] == (cost@[x]->0, x as usize));
                }
            }
            assert(done_ok(gg, src as int, cost@, done, order, t, heap@)) by {
                reveal(done_ok);
            }
            assert(relaxed(gg, cost@, done, -1, 0)) by {
                reveal(relaxed);
            }
            assert(witnessed(gg, src as int, cost@)) by {
                reveal(witnessed);
                assert forall|x: int| 0 <= x < n && (#[trigger] cost@[x]) is Some implies exists|s: Seq<usize>|
                    walk_ok(gg, src as int, s) && #[trigger] walk_end(gg, src as int, s) == x && walk_cost(gg, src as int, s) == cost@[x]->0 by {
                    assert(x == src);
                    assert(walk_ok(gg, src as int, e) && walk_cost(gg, src as int, e) == 0);
                }
            }
            assert(prev_ok(gg, src as int, cost@, prev@, done, order)) by {
                reveal(prev_ok);
            }
        }
        while heap.len() > 0
            invariant
                gg == adj(g@),
                g@.len() == len,
                n == len,
                fits(gg, src as int),
                search_ok(gg, src as int, cost@, prev@, heap@, done, order, t, -1, 0),
            decreases len - t, heap@.len(),
        {
            proof {
                lemma_count_bound(|v: int| done[v], 0, n);
            }
            let ghost h0 = heap@;
            let ghost t0 = t;
            let entry = heap.pop().unwrap();
            let w = entry.0;
            let v = entry.1;
            proof {
                assert(entry == h0.last());
                assert(heap@ == h0.drop_last());
                assert(h0[h0.len() - 1] == entry);
            }
            proof {
                reveal(q_entries);
            }
            let cv = cost[v].unwrap();
            if cv < w {
                proof {
                    lemma_drop(gg, src as int, cost@, prev@, h0, done, order, t);
                }
            } else {
                let ghost was_done = done[v as int];
                let ghost d0 = done;
                proof {
                    lemma_queue_min(h0);
                    assert(h0[h0.len() - 1].0 == w);
                    assert(cost@[v as int] == Some(w));
                    assert forall|u: int| 0 <= u < n && #[trigger] d0[u] implies cost@[u]->0 <= w by {
                        reveal(done_ok);
                    }
                    if !was_done {
                        lemma_mark_done(gg, src as int, cost@, prev@, h0, done, order, t);
                        done = done.update(v as int, true);
                        order = order.update(v as int, t);
                        t = t + 1;
                    } else {
                        assert(is_dist(gg, src as int, v as int, w as int)) by {
                            reveal(done_ok);
                        }
                        lemma_drop(gg, src as int, cost@, prev@, h0, done, order, t);
                        lemma_aside(gg, src as int, cost@, prev@, heap@, done, order, t, v as int);
                    }
                    assert forall|u: int| 0 <= u < n && #[trigger] done[u] implies cost@[u]->0 <= w by {
                        if u != v {
                            assert(d0[u]);
                        }
                    }
                }
                let edges = &g[v];
                let m = edges.len();
                let mut i: usize = 0;
                while i < m
                    invariant
                        gg == adj(g@),
                        g@.len() == len,
                        n == len,
                        v < n,
                        edges@ == gg[v as int],
                        m == edges@.len(),
                        i <= m,
                        fits(gg, src as int),
                        search_ok(gg, src as int, cost@, prev@, heap@, done, order, t, v as int, i as int),
                        done[v as int],
                        cost@[v as int] == Some(w),
                        is_dist(gg, src as int, v as int, w as int),
                        forall|u: int| 0 <= u < n && #[trigger] done[u] ==> cost@[u]->0 <= w,
                        was_done ==> relaxed(gg, cost@, done, -1, 0),
                        was_done ==> heap@.len() == h0.len() - 1,
                        was_done ==> t == t0,
                        !was_done ==> t == t0 + 1,
                    decreases m - i,
                {
                    let (nv, dw) = edges[i];
                    proof {
                        assert(gg[v as int][i as int] == (nv, dw));
                        assert(nv < n);
                    }
                    let nw = w + dw;
                    let better = match cost[nv] {
                        Some(cur) => nw < cur,
                        None => true,
                    };
                    if better {
                        let ghost c0 = cost@;
                        let ghost p0 = prev@;
                        let ghost q0 = heap@;
                        proof {
                            if was_done {
                                lemma_relaxed_edge(gg, cost@, done, v as int, i as int);
                            }
                            assert(!done[nv as int]) by {
                                reveal(done_ok);
                            }
                        }
                        cost.set(nv, Some(nw));
                        prev.set(nv, Some(v));
                        enqueue(&mut heap, (nw, nv));
                        proof {
                            lemma_relax(gg, src as int, c0, p0, q0, done, order, t, v as int, i as int, w, heap@);
                            assert(cost@ == c0.update(nv as int, Some(nw)));
                            assert(prev@ == p0.update(nv as int, Some(v)));
                        }
                    } else {
                        proof {
                            lemma_relax_none(gg, src as int, cost@, prev@, heap@, done, order, t, v as int, i as int);
                        }
                    }
                    i += 1;
                }
                proof {
                    lemma_relaxed_all(gg, cost@, done, v as int);
                }
            }
            proof {
                lemma_count_bound(|v: int| done[v], 0, n);
            }
        }
        proof {
            reveal(q_pending);
            assert forall|x: int| 0 <= x < n && (#[trigger] cost@[x]) is Some implies done[x] by {
                if !done[x] {
                    assert(heap@.contains((cost@[x]->0, x as usize)));
                }
            }
        }
        let r = DijkstraSssp { cost, prev, src, g: Ghost(gg), order: Ghost(order) };
        proof {
            reveal(done_ok);
            reveal(prev_ok);
            assert forall|x: int| 0 <= x < n && x != src && (#[trigger] r.cost@[x]) is Some implies {
                &&& r.prev@[x] is Some
                &&& r.prev@[x]->0 < n
                &&& r.order@[r.prev@[x]->0 as int] < r.order@[x]
                &&& r.tight(r.prev@[x]->0 as int, x)
            } by {
                let u = r.prev@[x]->0 as int;
                assert(done[x]);
                assert(done[u]);
                let e = choose|e: usize| (e as int) < gg[u].len() && #[trigger] gg[u][e as int].0 == x
                    && r.cost@[u]->0 + gg[u][e as int].1 == r.cost@[x]->0;
                assert(r.graph()[u][e as int].0 == x);
            }
            assert forall|v: int| 0 <= v < len && (#[trigger] r.costs()[v]) is None implies !reachable(gg, src as int, v) by {
                if reachable(gg, src as int, v) {
                    let s = choose|s: Seq<usize>| walk_ok(gg, src as int, s) && #[trigger] walk_end(gg, src as int, s) == v;
                    lemma_frontier(gg, src as int, r.cost@, done, s);
                    let x = choose|x: int| #[trigger] frontier(r.cost@, done, x, walk_cost(gg, src as int, s), walk_end(gg, src as int, s));
                    assert(done[x]);
                }
            }
        }
        r
    }
}

impl Sssp<usize> for DijkstraSssp {
    type Cost = u64;

    open spec fn has_vertex(&self, v: usize) -> bool {
        self.wf() && v < self.costs().len()
    }

    /// The least cost of reaching `dst`.
    fn cost(&self, dst: &usize) -> (r: Option<u64>)
        ensures
            r == self.costs()[*dst as int],
    {
        self.cost[*dst]
    }

    /// The vertices of a path of least cost from the source to `dst`: each
    /// step follows an edge whose cost is the difference of the least
    /// costs of its ends.
    fn path(&self, dst: &usize) -> (r: Vec<usize>)
        ensures
            *dst as int == self.source() ==> r@ == seq![*dst],
            self.costs()[*dst as int] is None ==> r@.len() == 0,
            self.costs()[*dst as int] is Some ==> {
                &&& r@.len() >= 1
                &&& r@[0] == self.source()
                &&& r@.last() == *dst
                &&& forall|k: int| 0 <= k < r@.len() ==> #[trigger] r@[k] < self.costs().len()
                &&& forall|k: int| #![trigger r@[k]] 0 <= k < r@.len() - 1 ==> self.tight(r@[k] as int, r@[k + 1] as int)
            },
    {
        let dst = *dst;
        let mut res: Vec<usize> = Vec::new();
        if self.prev[dst].is_none() {
            if self.src == dst {
                res.push(dst);
            }
            return res;
        }
        let mut back: Vec<usize> = Vec::new();
        back.push(dst);
        let mut i = dst;
        while self.prev[i].is_some()
            invariant
                self.wf(),
                i < self.cost@.len(),
                self.cost@[i as int] is Some,
                back@.len() >= 1,
                back@[0] == dst,
                back@.last() == i,
                forall|k: int| 0 <= k < back@.len() ==> #[trigger] back@[k] < self.cost@.len(),
                forall|k: int| 0 <= k < back@.len() - 1 ==> self.tight(#[trigger] back@[k + 1] as int, back@[k] as int),
            decreases self.order@[i as int],
        {
            let u = self.prev[i].unwrap();
            proof {
                assert(i != self.src);
            }
            let ghost b0 = back@;
            back.push(u);
            proof {
                assert forall|k: int| 0 <= k < back@.len() - 1 implies self.tight(#[trigger] back@[k + 1] as int, back@[k] as int) by {
                    if k < b0.len() - 1 {
                        assert(back@[k] == b0[k] && back@[k + 1] == b0[k + 1]);
                    } else {
                        assert(back@[k] == i && back@[k + 1] == u);
                    }
                }
                assert(self.order@[i as int] >= 0);
            }
            i = u;
        }
        let n = back.len();
        let mut k = n;
        while k > 0
            invariant
                k <= n,
                n == back@.len(),
                forall|k: int| 0 <= k < back@.len() ==> #[trigger] back@[k] < self.cost@.len(),
                res@.len() == n - k,
                forall|j: int| 0 <= j < n - k ==> #[trigger] res@[j] == back@[n - 1 - j],
            decreases k,
        {
            res.push(back[k - 1]);
            k -= 1;
        }
        proof {
            assert forall|j: int| #![trigger res@[j]] 0 <= j < res@.len() - 1 implies self.tight(res@[j] as int, res@[j + 1] as int) by {
                let q = n - 2 - j;
                assert(res@[j] == back@[q + 1] && res@[j + 1] == back@[q]);
            }
            assert(res@[n - 1] == back@[0]);
        }
        res
    }
}

impl DijkstraSssp {
    /// A path from the source whose every step follows a tight edge, as
    /// `path` returns, is a walk of least cost: some walk through exactly
    /// its vertices costs the least cost of its last vertex.
    pub proof fn lemma_tight_path(&self, p: Seq<usize>)
        requires
            self.wf(),
            p.len() >= 1,
            p[0] == self.source(),
            forall|k: int| 0 <= k < p.len() ==> #[trigger] p[k] < self.costs().len(),
            forall|k: int| #![trigger p[k]] 0 <= k < p.len() - 1 ==> self.tight(p[k] as int, p[k + 1] as int),
        ensures
            exists|s: Seq<usize>| {
                &&& s.len() == p.len() - 1
                &&& walk_ok(self.graph(), self.source(), s)
                &&& (forall|k: int| 0 <= k <= s.len() ==> #[trigger] walk_end(self.graph(), self.source(), s.take(k)) == p[k])
                &&& walk_cost(self.graph(), self.source(), s) == self.costs()[p.last() as int]->0
            },
        decreases p.len(),
    {
        let g = self.graph();
        let src = self.source();
        if p.len() == 1 {
            let s: Seq<usize> = Seq::empty();
            assert(s.take(0) == s);
            assert(forall|k: int| 0 <= k <= s.len() ==> #[trigger] walk_end(g, src, s.take(k)) == p[k]);
        } else {
            let q = p.drop_last();
            assert forall|k: int| #![trigger q[k]] 0 <= k < q.len() - 1 implies self.tight(q[k] as int, q[k + 1] as int) by {
                assert(q[k] == p[k] && q[k + 1] == p[k + 1]);
            }
            assert forall|k: int| 0 <= k < q.len() implies #[trigger] q[k] < self.costs().len() by {
                assert(q[k] == p[k]);
            }
            self.lemma_tight_path(q);
            let s1 = choose|s: Seq<usize>| {
                &&& s.len() == q.len() - 1
                &&& walk_ok(g, src, s)
                &&& (forall|k: int| 0 <= k <= s.len() ==> #[trigger] walk_end(g, src, s.take(k)) == q[k])
                &&& walk_cost(g, src, s) == self.costs()[q.last() as int]->0
            };
            let n = p.len() as int;
            let u = p[n - 2] as int;
            let x = p[n - 1] as int;
            assert(p[n - 2] == q[n - 2]);
            assert(self.tight(u, x));
            let e = choose|e: usize| (e as int) < g[u].len() && #[trigger] g[u][e as int].0 == x && self.costs()[u]->0 + g[u][e as int].1 == self.costs()[x]->0;
            assert(s1.take(s1.len() as int) == s1);
            assert(walk_end(g, src, s1) == u);
            lemma_walk_push(g, src, s1, e);
            let s = s1.push(e);
            assert forall|k: int| 0 <= k <= s.len() implies #[trigger] walk_end(g, src, s.take(k)) == p[k] by {
                if k < s.len() {
                    assert(s.take(k) == s1.take(k));
                    assert(q[k] == p[k]);
                } else {
                    assert(s.take(k) == s);
                }
            }
        }
    }

    /// What `cost` and `path` give together: where `v` is reached, the path
    /// to it runs through the vertices of a walk from the source whose cost
    /// is `v`'s cost, and that is the least cost of any walk to `v`.
    pub proof fn lemma_path_cost(&self, v: int, p: Seq<usize>)
        requires
            self.wf(),
            0 <= v < self.costs().len(),
            self.costs()[v] is Some,
            forall|w: int| 0 <= w < self.costs().len() ==> (#[trigger] self.costs()[w] matches Some(d) ==> is_dist(
                self.graph(),
                self.source(),
                w,
                d as int,
            )),
            p.len() >= 1,
            p[0] == self.source(),
            p.last() == v,
            forall|k: int| 0 <= k < p.len() ==> #[trigger] p[k] < self.costs().len(),
            forall|k: int| #![trigger p[k]] 0 <= k < p.len() - 1 ==> self.tight(p[k] as int, p[k + 1] as int),
        ensures
            exists|s: Seq<usize>| {
                &&& s.len() == p.len() - 1
                &&& walk_ok(self.graph(), self.source(), s)
                &&& (forall|k: int| 0 <= k <= s.len() ==> #[trigger] walk_end(self.graph(), self.source(), s.take(k)) == p[k])
                &&& walk_cost(self.graph(), self.source(), s) == self.costs()[v]->0
                &&& is_dist(self.graph(), self.source(), v, walk_cost(self.graph(), self.source(), s))
            },
    {
        self.lemma_tight_path(p);
        let s = choose|s: Seq<usize>| {
            &&& s.len() == p.len() - 1
            &&& walk_ok(self.graph(), self.source(), s)
            &&& (forall|k: int| 0 <= k <= s.len() ==> #[trigger] walk_end(self.graph(), self.source(), s.take(k)) == p[k])
            &&& walk_cost(self.graph(), self.source(), s) == self.costs()[p.last() as int]->0
        };
        assert(self.costs()[v] matches Some(d) ==> is_dist(self.graph(), self.source(), v, d as int));
    }
}

} // verus!
