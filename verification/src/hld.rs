//! Lowest common ancestors in a rooted tree given by lists of children.
use vstd::prelude::*;

use crate::scc::{closed_graph, edge, lemma_reach_closed, lemma_reach_edge, lemma_reach_last, lemma_reach_range, lemma_reach_refl, lemma_reach_trans, reach};

verus! {

/// `g` lists the children of every vertex of a tree rooted at `r`: the root
/// is nobody's child, every other vertex is the child of one vertex only,
/// once, and the root reaches every vertex.
pub open spec fn rooted_tree(g: Seq<Vec<usize>>, r: int) -> bool {
    &&& 0 <= r < g.len()
    &&& closed_graph(g)
    &&& forall|v: int, k: int| 0 <= v < g.len() && 0 <= k < g[v]@.len() ==> #[trigger] g[v]@[k] != r
    &&& forall|u1: int, k1: int, u2: int, k2: int|
        0 <= u1 < g.len() && 0 <= k1 < g[u1]@.len() && 0 <= u2 < g.len() && 0 <= k2 < g[u2]@.len() && #[trigger] g[u1]@[k1]
            == #[trigger] g[u2]@[k2] ==> u1 == u2 && k1 == k2
    &&& forall|v: int| 0 <= v < g.len() ==> #[trigger] reach(g, r, v)
}

/// `w` is an ancestor of both `u` and `v`, and every such vertex is an
/// ancestor of `w`: the lowest common ancestor (a vertex is its own
/// ancestor).
pub open spec fn is_lca(g: Seq<Vec<usize>>, u: int, v: int, w: int) -> bool {
    &&& reach(g, w, u)
    &&& reach(g, w, v)
    &&& forall|x: int| #[trigger] reach(g, x, u) && reach(g, x, v) ==> reach(g, x, w)
}

/// Lowest common ancestors of a rooted tree.
pub struct Hld {
    par: Vec<usize>,
    depth: Vec<usize>,
    root: usize,
    g: Ghost<Seq<Vec<usize>>>,
}

impl Hld {
    /// The lists of children.
    pub closed spec fn lists(&self) -> Seq<Vec<usize>> {
        self.g@
    }

    /// The root.
    pub closed spec fn root(&self) -> int {
        self.root as int
    }

    pub closed spec fn wf(&self) -> bool {
        let g = self.g@;
        let n = g.len();
        &&& rooted_tree(g, self.root as int)
        &&& self.par@.len() == n
        &&& self.depth@.len() == n
        &&& self.depth@[self.root as int] == 0
        &&& forall|x: int| 0 <= x < n ==> #[trigger] self.depth@[x] < n
        &&& forall|x: int| 0 <= x < n && x != self.root ==> {
            &&& #[trigger] self.par@[x] < n
            &&& edge(g, self.par@[x] as int, x)
            &&& self.depth@[x] == self.depth@[self.par@[x] as int] + 1
        }
    }

    /// The ancestors of `x` are `x` and those of its parent.
    proof fn lemma_up(&self, w: int, x: int)
        requires
            self.wf(),
            0 <= x < self.lists().len(),
            reach(self.lists(), w, x),
            w != x,
        ensures
            x != self.root(),
            reach(self.lists(), w, self.par@[x] as int),
    {
        let g = self.g@;
        lemma_reach_last(g, w, x);
        let y = choose|y: int| #[trigger] reach(g, w, y) && edge(g, y, x);
        let k = choose|k: int| 0 <= k < g[y]@.len() && g[y]@[k] == x;
        if x != self.root {
            let p = self.par@[x] as int;
            let kp = choose|k: int| 0 <= k < g[p]@.len() && g[p]@[k] == x;
            assert(g[y]@[k] == g[p]@[kp]);
        } else {
            assert(g[y]@[k] != self.root);
        }
    }

    /// An ancestor is no deeper, and one as deep is the vertex itself.
    proof fn lemma_depth(&self, w: int, x: int)
        requires
            self.wf(),
            0 <= x < self.lists().len(),
            reach(self.lists(), w, x),
        ensures
            0 <= w < self.lists().len(),
            self.depth@[w] <= self.depth@[x],
            self.depth@[w] == self.depth@[x] ==> w == x,
        decreases self.depth@[x],
    {
        lemma_reach_range(self.g@, w, x);
        if w != x {
            self.lemma_up(w, x);
            self.lemma_depth(w, self.par@[x] as int);
        }
    }

    /// The vertices that reach `x` are `x` and those that reach its parent.
    proof fn lemma_anc(&self, w: int, x: int)
        requires
            self.wf(),
            0 <= x < self.lists().len(),
            x != self.root(),
        ensures
            reach(self.lists(), w, x) <==> (w == x || reach(self.lists(), w, self.par@[x] as int)),
    {
        let g = self.g@;
        if reach(g, w, x) && w != x {
            self.lemma_up(w, x);
        }
        if reach(g, w, self.par@[x] as int) {
            lemma_reach_edge(g, w, self.par@[x] as int, x);
        }
        if w == x {
            lemma_reach_refl(g, x);
        }
    }
}

impl Hld {
    /// The lowest common ancestor of `u` and `v`.
    pub fn lca(&self, u: usize, v: usize) -> (w: usize)
        requires
            self.wf(),
            u < self.lists().len(),
            v < self.lists().len(),
        ensures
            is_lca(self.lists(), u as int, v as int, w as int),
    {
        let ghost g = self.g@;
        let ghost n = g.len();
        let mut a = u;
        let mut b = v;
        proof {
            lemma_reach_refl(g, u as int);
            lemma_reach_refl(g, v as int);
        }
        // bring both to the same depth; the common ancestors stay above
        while self.depth[a] > self.depth[b]
            invariant
                self.wf(),
                g == self.g@,
                n == g.len(),
                u < n,
                v < n,
                a < n,
                b == v,
                self.depth@[a as int] <= self.depth@[u as int],
                self.depth@[a as int] == self.depth@[u as int] || self.depth@[a as int] >= self.depth@[v as int],
                reach(g, a as int, u as int),
                forall|w: int| self.depth@[w] <= self.depth@[a as int] && 0 <= w < n ==> (#[trigger] reach(g, w, u as int)
                    <==> reach(g, w, a as int)),
            decreases self.depth@[a as int],
        {
            let ghost a0 = a as int;
            proof {
                assert(a0 != self.root as int);
            }
            a = self.par[a];
            proof {
                lemma_reach_refl(g, a as int);
                lemma_reach_edge(g, a as int, a as int, a0);
                lemma_reach_trans(g, a as int, a0, u as int);
                assert forall|w: int| self.depth@[w] <= self.depth@[a as int] && 0 <= w < n implies (#[trigger] reach(g, w, u as int)
                    <==> reach(g, w, a as int)) by {
                    self.lemma_anc(w, a0);
                }
            }
        }
        while self.depth[b] > self.depth[a]
            invariant
                self.wf(),
                g == self.g@,
                n == g.len(),
                u < n,
                v < n,
                a < n,
                b < n,
                self.depth@[a as int] <= self.depth@[u as int],
                self.depth@[a as int] == self.depth@[u as int] || self.depth@[a as int] >= self.depth@[v as int],
                self.depth@[b as int] >= self.depth@[a as int],
                reach(g, a as int, u as int),
                reach(g, b as int, v as int),
                forall|w: int| self.depth@[w] <= self.depth@[a as int] && 0 <= w < n ==> (#[trigger] reach(g, w, u as int)
                    <==> reach(g, w, a as int)),
                forall|w: int| self.depth@[w] <= self.depth@[b as int] && 0 <= w < n ==> (#[trigger] reach(g, w, v as int)
                    <==> reach(g, w, b as int)),
            decreases self.depth@[b as int],
        {
            let ghost b0 = b as int;
            b = self.par[b];
            proof {
                lemma_reach_refl(g, b as int);
                lemma_reach_edge(g, b as int, b as int, b0);
                lemma_reach_trans(g, b as int, b0, v as int);
                assert forall|w: int| self.depth@[w] <= self.depth@[b as int] && 0 <= w < n implies (#[trigger] reach(g, w, v as int)
                    <==> reach(g, w, b as int)) by {
                    self.lemma_anc(w, b0);
                }
            }
        }
        proof {
            assert forall|w: int| reach(g, w, u as int) && reach(g, w, v as int) implies self.depth@[w] <= self.depth@[a as int] by {
                self.lemma_depth(w, u as int);
                self.lemma_depth(w, v as int);
            }
        }
        // climb together until the two meet
        while a != b
            invariant
                self.wf(),
                g == self.g@,
                n == g.len(),
                u < n,
                v < n,
                a < n,
                b < n,
                self.depth@[a as int] == self.depth@[b as int],
                reach(g, a as int, u as int),
                reach(g, b as int, v as int),
                forall|w: int| self.depth@[w] <= self.depth@[a as int] && 0 <= w < n ==> (#[trigger] reach(g, w, u as int)
                    <==> reach(g, w, a as int)),
                forall|w: int| self.depth@[w] <= self.depth@[b as int] && 0 <= w < n ==> (#[trigger] reach(g, w, v as int)
                    <==> reach(g, w, b as int)),
                forall|w: int| reach(g, w, u as int) && reach(g, w, v as int) ==> self.depth@[w] <= self.depth@[a as int],
            decreases self.depth@[a as int],
        {
            let ghost a0 = a as int;
            let ghost b0 = b as int;
            a = self.par[a];
            b = self.par[b];
            proof {
                lemma_reach_refl(g, a as int);
                lemma_reach_edge(g, a as int, a as int, a0);
                lemma_reach_trans(g, a as int, a0, u as int);
                lemma_reach_refl(g, b as int);
                lemma_reach_edge(g, b as int, b as int, b0);
                lemma_reach_trans(g, b as int, b0, v as int);
                assert forall|w: int| self.depth@[w] <= self.depth@[a as int] && 0 <= w < n implies (#[trigger] reach(g, w, u as int)
                    <==> reach(g, w, a as int)) by {
                    self.lemma_anc(w, a0);
                }
                assert forall|w: int| self.depth@[w] <= self.depth@[b as int] && 0 <= w < n implies (#[trigger] reach(g, w, v as int)
                    <==> reach(g, w, b as int)) by {
                    self.lemma_anc(w, b0);
                }
                assert forall|w: int| reach(g, w, u as int) && reach(g, w, v as int) implies self.depth@[w] <= self.depth@[a as int] by {
                    self.lemma_depth(w, u as int);
                    if self.depth@[w] == self.depth@[a0] {
                        self.lemma_depth(w, a0);
                        self.lemma_depth(w, b0);
                    }
                }
            }
        }
        proof {
            lemma_reach_refl(g, a as int);
            assert forall|x: int| #[trigger] reach(g, x, u as int) && reach(g, x, v as int) implies reach(g, x, a as int) by {
                self.lemma_depth(x, u as int);
            }
        }
        a
    }
}

impl Hld {
    /// The tree rooted at `r` whose vertices have the children `g`.
    pub fn new(g: Vec<Vec<usize>>, r: usize) -> (h: Self)
        requires
            rooted_tree(g@, r as int),
        ensures
            h.wf(),
            h.lists() == g@,
            h.root() == r,
    {
        let n = g.len();
        let mut par: Vec<usize> = Vec::new();
        let mut depth: Vec<usize> = Vec::new();
        let mut i: usize = 0;
        while i < n
            invariant
                i <= n,
                par@.len() == i,
                depth@.len() == i,
                forall|x: int| 0 <= x < i ==> #[trigger] depth@[x] == 0,
            decreases n - i,
        {
            par.push(0);
            depth.push(0);
            i += 1;
        }
        let ghost mut seen: Seq<bool> = Seq::new(n as nat, |x: int| x == r);
        let mut q: Vec<usize> = Vec::new();
        q.push(r);
        let mut head: usize = 0;
        proof {
            assert forall|x: int| 0 <= x < n && #[trigger] seen[x] implies exists|j: int| 0 <= j < q@.len() && q@[j] == x by {
                assert(q@[0] == x);
            }
        }
        while head < q.len()
            invariant
                n == g@.len(),
                rooted_tree(g@, r as int),
                par@.len() == n,
                depth@.len() == n,
                seen.len() == n,
                head <= q@.len() <= n,
                q@.len() >= 1,
                q@[0] == r,
                forall|a: int, b: int| 0 <= a < b < q@.len() ==> #[trigger] q@[a] != #[trigger] q@[b],
                forall|j: int| 0 <= j < q@.len() ==> #[trigger] q@[j] < n && seen[q@[j] as int] && depth@[q@[j] as int] <= j,
                forall|x: int| 0 <= x < n && #[trigger] seen[x] ==> exists|j: int| 0 <= j < q@.len() && q@[j] == x,
                depth@[r as int] == 0,
                forall|x: int| 0 <= x < n && x != r && #[trigger] seen[x] ==> {
                    &&& par@[x] < n
                    &&& edge(g@, par@[x] as int, x)
                    &&& depth@[x] == depth@[par@[x] as int] + 1
                    &&& exists|h: int| 0 <= h < head && q@[h] == par@[x]
                },
                forall|j: int, k: int| 0 <= j < head && 0 <= k < g@[q@[j] as int]@.len() ==> seen[#[trigger] g@[q@[j] as int]@[k] as int],
            decreases n - head,
        {
            let u = q[head];
            let m = g[u].len();
            let mut k: usize = 0;
            while k < m
                invariant
                    n == g@.len(),
                    rooted_tree(g@, r as int),
                    par@.len() == n,
                    depth@.len() == n,
                    seen.len() == n,
                    head < q@.len() <= n,
                    u == q@[head as int],
                    m == g@[u as int]@.len(),
                    k <= m,
                    q@[0] == r,
                    forall|a: int, b: int| 0 <= a < b < q@.len() ==> #[trigger] q@[a] != #[trigger] q@[b],
                    forall|j: int| 0 <= j < q@.len() ==> #[trigger] q@[j] < n && seen[q@[j] as int] && depth@[q@[j] as int] <= j,
                    forall|x: int| 0 <= x < n && #[trigger] seen[x] ==> exists|j: int| 0 <= j < q@.len() && q@[j] == x,
                    depth@[r as int] == 0,
                    forall|x: int| 0 <= x < n && x != r && #[trigger] seen[x] ==> {
                        &&& par@[x] < n
                        &&& edge(g@, par@[x] as int, x)
                        &&& depth@[x] == depth@[par@[x] as int] + 1
                        &&& (exists|h: int| 0 <= h < head && q@[h] == par@[x]) || (par@[x] == u && exists|kk: int| 0 <= kk < k && g@[u as int]@[kk] == x)
                    },
                    forall|j: int, kk: int| 0 <= j < head && 0 <= kk < g@[q@[j] as int]@.len() ==> seen[#[trigger] g@[q@[j] as int]@[kk] as int],
                    forall|kk: int| 0 <= kk < k ==> seen[#[trigger] g@[u as int]@[kk] as int],
                decreases m - k,
            {
                let c = g[u][k];
                proof {
                    assert(c < n);
                    assert(c != r);
                    if seen[c as int] {
                        let p = par@[c as int] as int;
                        let kp = choose|kq: int| 0 <= kq < g@[p]@.len() && g@[p]@[kq] == c;
                        assert(g@[p]@[kp] == g@[u as int]@[k as int]);
                        if exists|h: int| 0 <= h < head && q@[h] == par@[c as int] {
                            let h = choose|h: int| 0 <= h < head && q@[h] == par@[c as int];
                            assert(q@[h] == q@[head as int]);
                        } else {
                            let kk = choose|kk: int| 0 <= kk < k && g@[u as int]@[kk] == c;
                            assert(g@[u as int]@[kk] == g@[u as int]@[k as int]);
                        }
                    }
                    assert(!seen[c as int]);
                    lemma_queue_short(q@, seen, n as int, c as int);
                }
                let ghost old_par = par@;
                let ghost old_depth = depth@;
                let ghost old_seen = seen;
                par.set(c, u);
                depth.set(c, depth[u] + 1);
                let ghost old_q = q@;
                q.push(c);
                proof {
                    seen = seen.update(c as int, true);
                    assert forall|x: int| 0 <= x < n && x != r && #[trigger] seen[x] implies {
                        &&& par@[x] < n
                        &&& edge(g@, par@[x] as int, x)
                        &&& depth@[x] == depth@[par@[x] as int] + 1
                        &&& (exists|h: int| 0 <= h < head && q@[h] == par@[x]) || (par@[x] == u && exists|kk: int| 0 <= kk < k + 1 && g@[u as int]@[kk] == x)
                    } by {
                        if x == c as int {
                            assert(g@[u as int]@[k as int] == x);
                            assert(edge(g@, u as int, x));
                        } else {
                            assert(old_seen[x]);
                            assert(par@[x] == old_par[x]);
                            if exists|h: int| 0 <= h < head && old_q[h] == old_par[x] {
                                let h = choose|h: int| 0 <= h < head && old_q[h] == old_par[x];
                                assert(old_seen[old_q[h] as int]);
                                assert(q@[h] == old_q[h]);
                            } else {
                                let kk = choose|kk: int| 0 <= kk < k && g@[u as int]@[kk] == x;
                            }
                            assert(old_par[x] != c);
                            assert(depth@[old_par[x] as int] == old_depth[old_par[x] as int]);
                        }
                    }
                    assert forall|x: int| 0 <= x < n && #[trigger] seen[x] implies exists|j: int| 0 <= j < q@.len() && q@[j] == x by {
                        if x == c {
                            assert(q@[old_q.len() as int] == x);
                        } else {
                            let j = choose|j: int| 0 <= j < old_q.len() && old_q[j] == x;
                            assert(q@[j] == x);
                        }
                    }
                    assert(edge(g@, u as int, c as int));
                    assert(g@[u as int]@[k as int] == c);
                }
                k += 1;
            }
            head += 1;
        }
        proof {
            let f = |x: int| 0 <= x < n && seen[x];
            assert forall|x: int, y: int| f(x) && #[trigger] edge(g@, x, y) implies f(y) by {
                let j = choose|j: int| 0 <= j < q@.len() && q@[j] == x;
                let k = choose|k: int| 0 <= k < g@[x]@.len() && g@[x]@[k] == y;
                assert(seen[g@[q@[j] as int]@[k] as int]);
            }
            assert forall|x: int| 0 <= x < n implies #[trigger] seen[x] by {
                assert(reach(g@, r as int, x));
                lemma_reach_closed(g@, r as int, f, x);
            }
            assert forall|x: int| 0 <= x < n implies #[trigger] depth@[x] < n by {
                assert(seen[x]);
                let j = choose|j: int| 0 <= j < q@.len() && q@[j] == x;
                assert(depth@[q@[j] as int] <= j);
            }
        }
        proof {
            assert forall|x: int| 0 <= x < n && x != r implies {
                &&& #[trigger] par@[x] < n
                &&& edge(g@, par@[x] as int, x)
                &&& depth@[x] == depth@[par@[x] as int] + 1
            } by {
                assert(seen[x]);
            }
        }
        Hld { par, depth, root: r, g: Ghost(g@) }
    }
}

/// A queue of distinct vertices, all seen, with a vertex `c` not seen yet,
/// is shorter than the number of vertices.
proof fn lemma_queue_short(q: Seq<usize>, seen: Seq<bool>, n: int, c: int)
    requires
        seen.len() == n,
        0 <= c < n,
        !seen[c],
        forall|a: int, b: int| 0 <= a < b < q.len() ==> #[trigger] q[a] != #[trigger] q[b],
        forall|j: int| 0 <= j < q.len() ==> #[trigger] q[j] < n && seen[q[j] as int],
    ensures
        q.len() < n,
{
    let s = Set::new(|i: int| 0 <= i < q.len());
    let f = |i: int| q[i] as int;
    vstd::set_lib::lemma_int_range(0, q.len() as int);
    assert(s =~= vstd::set_lib::set_int_range(0, q.len() as int));
    assert(vstd::relations::injective_on(f, s));
    vstd::set_lib::lemma_map_size(s, s.map(f), f);
    vstd::set_lib::lemma_int_range(0, n);
    let t = vstd::set_lib::set_int_range(0, n);
    assert(s.map(f).subset_of(t.remove(c)));
    vstd::set_lib::lemma_len_subset(s.map(f), t.remove(c));
}

} // verus!
