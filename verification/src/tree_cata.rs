//! Rerooting over a tree: a catamorphism of the tree, computed with each
//! vertex in turn as the root.
use vstd::prelude::*;

verus! {

/// The neighbours in an adjacency list with weights.
pub open spec fn nbrs<T>(l: Seq<(usize, T)>) -> Seq<usize> {
    l.map_values(|e: (usize, T)| e.0)
}

/// The neighbours of every vertex.
pub open spec fn adj_of<T>(g: Seq<Vec<(usize, T)>>) -> Seq<Seq<usize>> {
    g.map_values(|l: Vec<(usize, T)>| nbrs(l@))
}

/// Some neighbour of `v` is one level up.
pub open spec fn has_up(adj: Seq<Seq<usize>>, d: Seq<nat>, v: int) -> bool {
    exists|k: int| 0 <= k < adj[v].len() && d[#[trigger] adj[v][k] as int] + 1 == d[v]
}

/// `d` gives each vertex its distance from `0`: every edge joins two
/// consecutive levels, and every vertex but `0` has exactly one neighbour
/// one level up.
pub open spec fn levels(adj: Seq<Seq<usize>>, d: Seq<nat>) -> bool {
    &&& d.len() == adj.len()
    &&& d[0] == 0
    &&& forall|v: int, k: int|
        0 <= v < adj.len() && 0 <= k < adj[v].len() ==> d[#[trigger] adj[v][k] as int] == d[v] + 1 || d[v] == d[adj[v][k] as int] + 1
    &&& forall|v: int| 0 < v < adj.len() ==> #[trigger] has_up(adj, d, v)
    &&& forall|v: int, k1: int, k2: int|
        0 <= v < adj.len() && 0 <= k1 < adj[v].len() && 0 <= k2 < adj[v].len()
            && d[#[trigger] adj[v][k1] as int] + 1 == d[v] && d[#[trigger] adj[v][k2] as int] + 1 == d[v] ==> k1 == k2
}

/// `adj` lists each edge of a tree on `0..adj.len()` at both its ends, once.
pub open spec fn is_tree(adj: Seq<Seq<usize>>) -> bool {
    &&& 0 < adj.len() <= usize::MAX
    &&& forall|v: int, k: int| 0 <= v < adj.len() && 0 <= k < adj[v].len() ==> #[trigger] adj[v][k] < adj.len()
    &&& forall|v: int, k1: int, k2: int|
        0 <= v < adj.len() && 0 <= k1 < adj[v].len() && 0 <= k2 < adj[v].len() && k1 != k2
            ==> #[trigger] adj[v][k1] != #[trigger] adj[v][k2]
    &&& forall|v: int, k: int| 0 <= v < adj.len() && 0 <= k < adj[v].len() ==> adj[#[trigger] adj[v][k] as int].contains(v as usize)
    &&& exists|d: Seq<nat>| levels(adj, d)
}

/// The position in `v`'s list of its neighbour one level up.
pub(crate) open spec fn up_at(adj: Seq<Seq<usize>>, d: Seq<nat>, v: int) -> int {
    choose|k: int| 0 <= k < adj[v].len() && d[adj[v][k] as int] + 1 == d[v]
}

/// The neighbour of `v` one level up: its parent in the tree rooted at `0`.
pub(crate) open spec fn tpar(adj: Seq<Seq<usize>>, d: Seq<nat>, v: int) -> int {
    adj[v][up_at(adj, d, v)] as int
}

/// Each edge of a tree joins a vertex and its parent.
pub(crate) proof fn lemma_edge(adj: Seq<Seq<usize>>, d: Seq<nat>, v: int, k: int)
    requires
        is_tree(adj),
        levels(adj, d),
        0 <= v < adj.len(),
        0 <= k < adj[v].len(),
    ensures
        0 <= adj[v][k] < adj.len(),
        ({
            let u = adj[v][k] as int;
            ||| (d[u] + 1 == d[v] && v != 0 && up_at(adj, d, v) == k && tpar(adj, d, v) == u)
            ||| (d[u] == d[v] + 1 && u != 0 && tpar(adj, d, u) == v && 0 <= up_at(adj, d, u) < adj[u].len())
        }),
{
    let u = adj[v][k] as int;
    assert(d[u] == d[v] + 1 || d[v] == d[u] + 1);
    if d[u] + 1 == d[v] {
        assert(has_up(adj, d, v));
        let j = up_at(adj, d, v);
        assert(d[adj[v][j] as int] + 1 == d[v]);
    } else {
        assert(adj[u].contains(v as usize));
        let k2 = choose|k2: int| 0 <= k2 < adj[u].len() && adj[u][k2] == v as usize;
        assert(adj[u][k2] as int == v);
        assert(d[adj[u][k2] as int] + 1 == d[u]);
        assert(has_up(adj, d, u));
        let j = up_at(adj, d, u);
        assert(d[adj[u][j] as int] + 1 == d[u]);
    }
}

/// Every vertex but `0` has a parent one level up.
pub(crate) proof fn lemma_up(adj: Seq<Seq<usize>>, d: Seq<nat>, v: int)
    requires
        is_tree(adj),
        levels(adj, d),
        0 < v < adj.len(),
    ensures
        0 <= up_at(adj, d, v) < adj[v].len(),
        d[tpar(adj, d, v)] + 1 == d[v],
        0 <= tpar(adj, d, v) < adj.len(),
{
    assert(has_up(adj, d, v));
    let k = up_at(adj, d, v);
    assert(0 <= adj[v][k] < adj.len());
}

/// An injective listing of vertices below `n` that misses `u` lists fewer
/// than `n` of them.
proof fn lemma_fewer(order: Seq<usize>, pos: Seq<int>, n: int, u: int)
    requires
        0 <= u < n,
        pos.len() == n,
        forall|j: int| 0 <= j < order.len() ==> (#[trigger] order[j] as int) < n && pos[order[j] as int] == j,
        pos[u] == -1,
    ensures
        order.len() < n,
{
    let s = order.map_values(|x: usize| x as int);
    assert forall|i: int, j: int| 0 <= i < s.len() && 0 <= j < s.len() && i != j implies s[i] != s[j] by {
        assert(pos[order[i] as int] == i);
        assert(pos[order[j] as int] == j);
    }
    assert(s.no_duplicates());
    s.unique_seq_to_set();
    vstd::set_lib::lemma_int_range(0, n);
    let r = vstd::set_lib::set_int_range(0, n).remove(u);
    assert forall|x: int| s.to_set().contains(x) implies r.contains(x) by {
        let j = choose|j: int| 0 <= j < s.len() && s[j] == x;
        assert(order[j] as int == x);
        assert(pos[x] == j);
    }
    vstd::set_lib::lemma_len_subset(s.to_set(), r);
}

/// What the closure `map` returns for `a` and `t`.
pub open spec fn map_fn<U, T, M: Fn(&U, &T) -> U>(map: M) -> spec_fn(U, T) -> U {
    |a: U, t: T| choose|r: U| call_ensures(map, (&a, &t), r)
}

/// What the closure `fold` returns for `a` and `b`.
pub open spec fn fold_fn<U, F: Fn(&U, &U) -> U>(fold: F) -> spec_fn(U, U) -> U {
    |a: U, b: U| choose|r: U| call_ensures(fold, (&a, &b), r)
}

/// `f` is associative with identity `e`.
#[verifier::opaque]
pub open spec fn monoid<U>(e: U, f: spec_fn(U, U) -> U) -> bool {
    &&& forall|a: U, b: U, c: U| #[trigger] f(f(a, b), c) == f(a, f(b, c))
    &&& forall|a: U| #[trigger] f(e, a) == a
    &&& forall|a: U| #[trigger] f(a, e) == a
}

impl<T> TreeCata<T> {
    /// The fold of the children `a..b` of `v`, each one's subtree value
    /// mapped with the weight to `v`, subtrees cut `f` levels down.
    pub open spec fn span<U>(&self, e: U, sm: spec_fn(U, T) -> U, sf: spec_fn(U, U) -> U, v: int, a: int, b: int, f: nat) -> U
        decreases f, b - a,
    {
        if b <= a || f == 0 {
            e
        } else {
            let c = self.kid(v, b - 1);
            sf(self.span(e, sm, sf, v, a, b - 1, f), sm(self.sub(e, sm, sf, c, (f - 1) as nat), self.up_weight(c)))
        }
    }

    /// The value of the subtree of `v`, cut `f` levels down.
    pub open spec fn sub<U>(&self, e: U, sm: spec_fn(U, T) -> U, sf: spec_fn(U, U) -> U, v: int, f: nat) -> U
        decreases f, self.children(v).len() + 1,
    {
        self.span(e, sm, sf, v, 0, self.children(v).len() as int, f)
    }

    /// The levels below `v`.
    pub open spec fn below(&self, v: int) -> nat {
        (self.n() - self.depth(v)) as nat
    }

    /// The fold of the children `a..b` of `v`, each mapped with its weight.
    pub open spec fn kids<U>(&self, e: U, sm: spec_fn(U, T) -> U, sf: spec_fn(U, U) -> U, v: int, a: int, b: int) -> U {
        self.span(e, sm, sf, v, a, b, self.below(v))
    }

    /// The value of the subtree of `v`, rooted at `0`.
    pub open spec fn down<U>(&self, e: U, sm: spec_fn(U, T) -> U, sf: spec_fn(U, U) -> U, v: int) -> U {
        self.sub(e, sm, sf, v, self.below(v))
    }

    /// What the rest of the tree hands `c`, through its parent `p`: the
    /// value of `p` with `c` cut off, the part from `p`'s own parent first,
    /// then `p`'s other children in order, mapped with the weight in `p`'s
    /// list; `e` for `0`. `f` bounds the levels followed up.
    pub open spec fn up_to<U>(&self, e: U, sm: spec_fn(U, T) -> U, sf: spec_fn(U, U) -> U, c: int, f: nat) -> U
        decreases f,
    {
        if c == 0 || f == 0 {
            e
        } else {
            let p = self.parent(c).unwrap().0 as int;
            let k = self.child_index(c);
            sm(
                sf(self.up_to(e, sm, sf, p, (f - 1) as nat), sf(self.kids(e, sm, sf, p, 0, k), self.kids(e, sm, sf, p, k + 1, self.children(p).len() as int))),
                self.children(p)[k].1,
            )
        }
    }

    /// What the rest of the tree hands `c` through its parent.
    pub open spec fn up<U>(&self, e: U, sm: spec_fn(U, T) -> U, sf: spec_fn(U, U) -> U, c: int) -> U {
        self.up_to(e, sm, sf, c, self.depth(c))
    }

    /// The value of the tree rooted at `v`: its children before its parent,
    /// the part from its parent, then the children after, each mapped with
    /// its weight.
    pub open spec fn value<U>(&self, e: U, sm: spec_fn(U, T) -> U, sf: spec_fn(U, U) -> U, v: int) -> U {
        let pp = self.parent_index(v);
        sf(self.kids(e, sm, sf, v, 0, pp), sf(self.up(e, sm, sf, v), self.kids(e, sm, sf, v, pp, self.children(v).len() as int)))
    }
}

impl<T> TreeCata<T> {
    /// `a` is the empty value, a fold of children, or a subtree value or
    /// what the rest of the tree hands a vertex.
    pub open spec fn base_val<U>(&self, e: U, sm: spec_fn(U, T) -> U, sf: spec_fn(U, U) -> U, a: U) -> bool {
        ||| a == e
        ||| exists|q: int, i: int, j: int| a == #[trigger] self.kids(e, sm, sf, q, i, j)
        ||| exists|x: int| a == #[trigger] self.down(e, sm, sf, x)
        ||| exists|x: int| a == #[trigger] self.up(e, sm, sf, x)
    }

    /// `a` is built from such values with at most `d` levels of `sf` and
    /// `sm`: the values that the computation of `each_root_with` hands the
    /// closures are among those with `d` at most 4.
    pub open spec fn tree_val<U>(&self, e: U, sm: spec_fn(U, T) -> U, sf: spec_fn(U, U) -> U, a: U, d: nat) -> bool
        decreases d,
    {
        ||| self.base_val(e, sm, sf, a)
        ||| d > 0 && self.tree_val(e, sm, sf, a, (d - 1) as nat)
        ||| d > 0 && exists|b: U, c: U|
            self.tree_val(e, sm, sf, b, (d - 1) as nat) && self.tree_val(e, sm, sf, c, (d - 1) as nat) && a == #[trigger] sf(b, c)
        ||| d > 0 && exists|b: U, w: T| self.tree_val(e, sm, sf, b, (d - 1) as nat) && a == #[trigger] sm(b, w)
    }

    /// The closures give what `sm` and `sf` give and accept every argument
    /// built from the tree's values as above (no others are asked of them),
    /// `sf` with `empty` is a monoid, and a clone of such a value is the
    /// value.
    pub open spec fn ops_arising<U: Clone, M: Fn(&U, &T) -> U, F: Fn(&U, &U) -> U>(
        &self,
        empty: U,
        map: M,
        fold: F,
        sm: spec_fn(U, T) -> U,
        sf: spec_fn(U, U) -> U,
    ) -> bool {
        &&& forall|a: U, t: T| self.tree_val(empty, sm, sf, a, 4) ==> #[trigger] call_requires(map, (&a, &t))
        &&& forall|a: U, t: T, r: U| #[trigger] call_ensures(map, (&a, &t), r) ==> r == sm(a, t)
        &&& forall|a: U, b: U|
            self.tree_val(empty, sm, sf, a, 4) && self.tree_val(empty, sm, sf, b, 4) ==> #[trigger] call_requires(fold, (&a, &b))
        &&& forall|a: U, b: U, r: U| #[trigger] call_ensures(fold, (&a, &b), r) ==> r == sf(a, b)
        &&& monoid(empty, sf)
        &&& forall|a: U, b: U| self.tree_val(empty, sm, sf, a, 4) && #[trigger] call_ensures(U::clone, (&a,), b) ==> a == b
    }

    /// A value built with `d` levels is built with any more.
    proof fn lemma_tv_mono<U>(&self, e: U, sm: spec_fn(U, T) -> U, sf: spec_fn(U, U) -> U, a: U, d: nat, d2: nat)
        requires
            self.tree_val(e, sm, sf, a, d),
            d <= d2,
        ensures
            self.tree_val(e, sm, sf, a, d2),
        decreases d2,
    {
        if d2 > d {
            self.lemma_tv_mono(e, sm, sf, a, d, (d2 - 1) as nat);
        }
    }

    /// `sf` of two values built with `d` levels takes one more.
    proof fn lemma_tv_sf<U>(&self, e: U, sm: spec_fn(U, T) -> U, sf: spec_fn(U, U) -> U, b: U, c: U, d: nat)
        requires
            self.tree_val(e, sm, sf, b, d),
            self.tree_val(e, sm, sf, c, d),
        ensures
            self.tree_val(e, sm, sf, sf(b, c), d + 1),
    {
        assert(self.tree_val(e, sm, sf, b, ((d + 1) - 1) as nat));
    }

    /// `sm` of a value built with `d` levels takes one more.
    proof fn lemma_tv_sm<U>(&self, e: U, sm: spec_fn(U, T) -> U, sf: spec_fn(U, U) -> U, b: U, w: T, d: nat)
        requires
            self.tree_val(e, sm, sf, b, d),
        ensures
            self.tree_val(e, sm, sf, sm(b, w), d + 1),
    {
        assert(self.tree_val(e, sm, sf, b, ((d + 1) - 1) as nat));
    }

    /// The values of the upward pass at `q` are among the tree's values.
    proof fn lemma_side_tv<U>(&self, e: U, sm: spec_fn(U, T) -> U, sf: spec_fn(U, U) -> U, t: int, q: int, l: U, r: U, right: bool)
        requires
            self.side_ok(e, sm, sf, t, q, l, r, right),
        ensures
            self.tree_val(e, sm, sf, l, 0),
            self.tree_val(e, sm, sf, r, 0),
            self.tree_val(e, sm, sf, l, 4),
            self.tree_val(e, sm, sf, r, 4),
    {
        let j0 = self.first_at(q, t);
        let pp = self.ppos@[q];
        let len = self.child@[q]@.len() as int;
        if j0 >= pp {
            assert(self.base_val(e, sm, sf, r));
            assert(self.base_val(e, sm, sf, l));
        } else {
            assert(self.base_val(e, sm, sf, r));
            assert(self.base_val(e, sm, sf, l));
        }
        self.lemma_tv_mono(e, sm, sf, l, 0, 4);
        self.lemma_tv_mono(e, sm, sf, r, 0, 4);
    }
}

/// The laws of a monoid, for given values.
proof fn lemma_monoid<U>(e: U, f: spec_fn(U, U) -> U, a: U, b: U, c: U)
    requires
        monoid(e, f),
    ensures
        f(f(a, b), c) == f(a, f(b, c)),
        f(e, a) == a,
        f(a, e) == a,
{
    reveal(monoid);
}

/// A fold over `a..c` splits at `b`.
proof fn lemma_span_split<T, U>(t: &TreeCata<T>, e: U, sm: spec_fn(U, T) -> U, sf: spec_fn(U, U) -> U, v: int, a: int, b: int, c: int, f: nat)
    requires
        monoid(e, sf),
        a <= b <= c,
    ensures
        t.span(e, sm, sf, v, a, c, f) == sf(t.span(e, sm, sf, v, a, b, f), t.span(e, sm, sf, v, b, c, f)),
    decreases c - b,
{
    reveal(monoid);
    if c > b && f > 0 {
        lemma_span_split(t, e, sm, sf, v, a, b, c - 1, f);
    }
}

/// What processing `v` leaves behind: its parent, its children in the order
/// of its list, the first child after the parent, where the children stand
/// in the order and where the parent stands in the list.
spec fn done_ok<T>(
    g0: Seq<Vec<(usize, T)>>,
    adj: Seq<Seq<usize>>,
    d: Seq<nat>,
    v: int,
    p: Option<(usize, T)>,
    c: Seq<(usize, T)>,
    b: usize,
    pp: int,
    n: int,
) -> bool {
    let l = g0[v]@;
    &&& (if v == 0 {
        &&& p is None
        &&& c == l
        &&& pp == l.len()
        &&& b == n as usize
    } else {
        &&& 0 <= pp < l.len()
        &&& pp == up_at(adj, d, v)
        &&& p == Some(l[pp])
        &&& c == l.remove(pp)
        &&& b == (if pp < c.len() { c[pp].0 } else { n as usize })
    })
    &&& forall|k: int| 0 <= k < c.len() ==> tpar(adj, d, (#[trigger] c[k]).0 as int) == v && c[k].0 != 0 && (c[k].0 as int) < n
}

/// The rooted tree is well formed: the order lists every vertex once, `0`
/// first, each after its parent and each vertex's children together, in
/// order; depths and the parent's place in each list agree.
spec fn raw_wf<T>(
    par: Seq<Option<(usize, T)>>,
    order: Seq<usize>,
    child: Seq<Vec<(usize, T)>>,
    bound: Seq<usize>,
    depth: Seq<nat>,
    pos: Seq<int>,
    cstart: Seq<int>,
    ppos: Seq<int>,
) -> bool {
    let n = (child.len() as int);
    &&& n > 0
    &&& par.len() == n
    &&& order.len() == n
    &&& bound.len() == n
    &&& depth.len() == n
    &&& pos.len() == n
    &&& cstart.len() == n
    &&& ppos.len() == n
    &&& forall|i: int| 0 <= i < n ==> (#[trigger] order[i] as int) < n && pos[order[i] as int] == i
    &&& forall|v: int| 0 <= v < n ==> 0 <= #[trigger] pos[v] < n && order[pos[v]] == v
    &&& order[0] == 0
    &&& par[0] is None
    &&& depth[0] == 0
    &&& forall|v: int| 0 <= v < n ==> #[trigger] depth[v] < n
    &&& forall|v: int|
        0 < v < n ==> (#[trigger] par[v]) is Some && (par[v].unwrap().0 as int) < n
            && depth[v] == depth[par[v].unwrap().0 as int] + 1
            && 0 <= (pos[v] - cstart[par[v].unwrap().0 as int]) < child[par[v].unwrap().0 as int]@.len()
            && child[par[v].unwrap().0 as int]@[(pos[v] - cstart[par[v].unwrap().0 as int])].0 == v
    &&& forall|v: int, k: int|
        0 <= v < n && 0 <= k < child[v]@.len() ==> {
            let c = (#[trigger] child[v]@[k]).0 as int;
            &&& 0 < c < n
            &&& par[c].unwrap().0 == v
            &&& pos[c] == cstart[v] + k
        }
    &&& forall|v: int| 0 <= v < n ==> pos[v] < #[trigger] cstart[v]
    &&& forall|v: int|
        0 <= v < n ==> 0 <= #[trigger] ppos[v] <= child[v]@.len()
            && bound[v] == (if v != 0 && ppos[v] < child[v]@.len() {
                child[v]@[ppos[v]].0
            } else {
                n as usize
            })
    &&& ppos[0] == child[0]@.len()
    }

/// The tree rooted at `0`, with every vertex's children in the order of
/// its adjacency list, ready for rerooting.
pub struct TreeCata<T> {
    par: Vec<Option<(usize, T)>>,
    order: Vec<usize>,
    child: Vec<Vec<(usize, T)>>,
    bound: Vec<usize>,
    depth: Ghost<Seq<nat>>,
    pos: Ghost<Seq<int>>,
    cstart: Ghost<Seq<int>>,
    ppos: Ghost<Seq<int>>,
}

impl<T> TreeCata<T> {
    /// The number of vertices.
    pub closed spec fn n(&self) -> int {
        self.child@.len() as int
    }

    /// The children of `v`, with the weights of `v`'s list.
    pub closed spec fn children(&self, v: int) -> Seq<(usize, T)> {
        self.child@[v]@
    }

    /// The parent of `v`, with the weight of `v`'s list; `None` for `0`.
    pub closed spec fn parent(&self, v: int) -> Option<(usize, T)> {
        self.par@[v]
    }

    /// Where the parent of `v` stands in `v`'s list: the number of
    /// children listed before it.
    pub closed spec fn parent_index(&self, v: int) -> int {
        self.ppos@[v]
    }

    /// The number of edges between `v` and `0`.
    pub closed spec fn depth(&self, v: int) -> nat {
        self.depth@[v]
    }

    /// Child `k` of `v`.
    pub open spec fn kid(&self, v: int, k: int) -> int {
        self.children(v)[k].0 as int
    }

    /// The weight on the edge from `c` to its parent, from `c`'s list.
    pub open spec fn up_weight(&self, c: int) -> T {
        self.parent(c).unwrap().1
    }

    /// The position of `c` among the children of its parent.
    pub closed spec fn child_index(&self, c: int) -> int {
        self.pos@[c] - self.cstart@[self.par@[c].unwrap().0 as int]
    }

    /// Each vertex but `0` stands at `child_index` among the children of
    /// its parent.
    pub proof fn lemma_child_index(&self, c: int)
        requires
            self.wf(),
            0 < c < self.n(),
        ensures
            ({
                let p = self.parent(c).unwrap().0 as int;
                &&& 0 <= p < self.n()
                &&& 0 <= self.child_index(c) < self.children(p).len()
                &&& self.children(p)[self.child_index(c)].0 == c
            }),
    {
        assert(self.par@[c] is Some);
    }

    pub closed spec fn wf(&self) -> bool {
        raw_wf(self.par@, self.order@, self.child@, self.bound@, self.depth@, self.pos@, self.cstart@, self.ppos@)
    }
}

/// The order lists distinct vertices, `0` first, and `pos` tells where each
/// stands, `-1` for a vertex not listed.
#[verifier::opaque]
spec fn perm_ok(order: Seq<usize>, pos: Seq<int>, n: int) -> bool {
    &&& pos.len() == n
    &&& 1 <= order.len() <= n
    &&& order[0] == 0
    &&& pos[0] == 0
    &&& forall|j: int| 0 <= j < order.len() ==> (#[trigger] order[j] as int) < n && pos[order[j] as int] == j
    &&& forall|v: int| 0 <= v < n ==> -1 <= #[trigger] pos[v] < order.len() && (pos[v] >= 0 ==> order[pos[v]] as int == v)
}

/// Every vertex listed but `0` was listed after its parent, processed
/// before `h`.
#[verifier::opaque]
spec fn found_ok(adj: Seq<Seq<usize>>, d: Seq<nat>, pos: Seq<int>, n: int, h: int) -> bool {
    forall|v: int| 0 < v < n && #[trigger] pos[v] >= 0 ==> 0 <= pos[tpar(adj, d, v)] < h && pos[tpar(adj, d, v)] < pos[v]
}

/// The children of every vertex processed before `h` are listed.
#[verifier::opaque]
spec fn closed_ok(adj: Seq<Seq<usize>>, d: Seq<nat>, pos: Seq<int>, n: int, h: int) -> bool {
    forall|u: int| 0 < u < n && 0 <= #[trigger] pos[tpar(adj, d, u)] < h ==> pos[u] >= 0
}

/// Every vertex processed before `h` is done, its children listed from
/// `cstart` on.
#[verifier::opaque]
spec fn processed_ok<T>(
    g0: Seq<Vec<(usize, T)>>,
    adj: Seq<Seq<usize>>,
    d: Seq<nat>,
    n: int,
    pos: Seq<int>,
    h: int,
    par: Seq<Option<(usize, T)>>,
    child: Seq<Vec<(usize, T)>>,
    bound: Seq<usize>,
    cstart: Seq<int>,
    ppos: Seq<int>,
) -> bool {
    forall|v: int| 0 <= v < n && 0 <= #[trigger] pos[v] < h ==> {
        &&& done_ok(g0, adj, d, v, par[v], child[v]@, bound[v], ppos[v], n)
        &&& pos[v] < cstart[v]
        &&& forall|k: int| 0 <= k < child[v]@.len() ==> pos[(#[trigger] child[v]@[k]).0 as int] == cstart[v] + k
    }
}

/// Every vertex not processed before `h`, but `w`, is as it came.
#[verifier::opaque]
spec fn untouched_ok<T>(
    g0: Seq<Vec<(usize, T)>>,
    g: Seq<Vec<(usize, T)>>,
    pos: Seq<int>,
    n: int,
    h: int,
    par: Seq<Option<(usize, T)>>,
    bound: Seq<usize>,
    w: int,
) -> bool {
    forall|v: int| 0 <= v < n && v != w && !(0 <= #[trigger] pos[v] < h) ==> g[v]@ == g0[v]@ && par[v] is None && bound[v] == n as usize
}

/// Listing a vertex not listed yet.
proof fn lemma_push(order: Seq<usize>, pos: Seq<int>, n: int, u: int)
    requires
        perm_ok(order, pos, n),
        n <= usize::MAX,
        0 <= u < n,
        pos[u] == -1,
    ensures
        order.len() < n,
        perm_ok(order.push(u as usize), pos.update(u, order.len() as int), n),
{
    reveal(perm_ok);
    lemma_fewer(order, pos, n, u);
    let o2 = order.push(u as usize);
    let p2 = pos.update(u, order.len() as int);
    assert forall|j: int| 0 <= j < o2.len() implies (#[trigger] o2[j] as int) < n && p2[o2[j] as int] == j by {
        if j < order.len() {
            assert(o2[j] == order[j]);
            assert(pos[order[j] as int] == j);
            assert(order[j] as int != u);
        } else {
            assert(o2[j] as int == u);
        }
    }
    assert forall|v: int| 0 <= v < n implies -1 <= #[trigger] p2[v] < o2.len() && (p2[v] >= 0 ==> o2[p2[v]] as int == v) by {
        if v != u {
            assert(p2[v] == pos[v]);
            if pos[v] >= 0 {
                assert(o2[pos[v]] == order[pos[v]]);
            }
        }
    }
}

/// Listing a child of a processed vertex keeps every listed vertex after
/// its parent.
proof fn lemma_found_push(adj: Seq<Seq<usize>>, d: Seq<nat>, pos: Seq<int>, n: int, h: int, u: int, l: int)
    requires
        is_tree(adj),
        levels(adj, d),
        n == adj.len(),
        found_ok(adj, d, pos, n, h),
        pos.len() == n,
        0 < u < n,
        pos[u] == -1,
        0 <= pos[tpar(adj, d, u)] < h,
        pos[tpar(adj, d, u)] < l,
    ensures
        found_ok(adj, d, pos.update(u, l), n, h),
{
    reveal(found_ok);
    let p2 = pos.update(u, l);
    assert forall|v: int| 0 < v < n && #[trigger] p2[v] >= 0 implies 0 <= p2[tpar(adj, d, v)] < h && p2[tpar(adj, d, v)] < p2[v] by {
        lemma_up(adj, d, v);
        if v != u {
            assert(pos[v] >= 0);
            assert(tpar(adj, d, v) != u);
        } else {
            assert(tpar(adj, d, v) != u);
        }
    }
}

/// Processing a vertex whose children are all listed.
proof fn lemma_closed_extend(adj: Seq<Seq<usize>>, d: Seq<nat>, pos: Seq<int>, n: int, h: int, v: int)
    requires
        is_tree(adj),
        levels(adj, d),
        n == adj.len(),
        pos.len() == n,
        closed_ok(adj, d, pos, n, h),
        forall|x: int| 0 <= x < n && #[trigger] pos[x] == h ==> x == v,
        forall|u: int| 0 < u < n && #[trigger] tpar(adj, d, u) == v ==> pos[u] >= 0,
    ensures
        closed_ok(adj, d, pos, n, h + 1),
{
    reveal(closed_ok);
    assert forall|u: int| 0 < u < n && 0 <= #[trigger] pos[tpar(adj, d, u)] < h + 1 implies pos[u] >= 0 by {
        lemma_up(adj, d, u);
        if pos[tpar(adj, d, u)] == h {
            assert(tpar(adj, d, u) == v);
        }
    }
}

/// Listing a vertex after the processed ones keeps the children of the
/// processed ones listed.
proof fn lemma_closed_push(adj: Seq<Seq<usize>>, d: Seq<nat>, pos: Seq<int>, n: int, h: int, u: int, l: int)
    requires
        is_tree(adj),
        levels(adj, d),
        n == adj.len(),
        closed_ok(adj, d, pos, n, h),
        pos.len() == n,
        0 <= u < n,
        l >= h,
    ensures
        closed_ok(adj, d, pos.update(u, l), n, h),
{
    reveal(closed_ok);
    let p2 = pos.update(u, l);
    assert forall|w: int| 0 < w < n && 0 <= #[trigger] p2[tpar(adj, d, w)] < h implies p2[w] >= 0 by {
        lemma_up(adj, d, w);
        if tpar(adj, d, w) != u {
            assert(pos[tpar(adj, d, w)] == p2[tpar(adj, d, w)]);
        }
        if w != u {
            assert(p2[w] == pos[w]);
        }
    }
}

/// Listing a vertex not listed yet keeps the processed vertices done.
proof fn lemma_processed_push<T>(
    g0: Seq<Vec<(usize, T)>>,
    adj: Seq<Seq<usize>>,
    d: Seq<nat>,
    n: int,
    pos: Seq<int>,
    h: int,
    par: Seq<Option<(usize, T)>>,
    child: Seq<Vec<(usize, T)>>,
    bound: Seq<usize>,
    cstart: Seq<int>,
    ppos: Seq<int>,
    u: int,
    l: int,
)
    requires
        processed_ok(g0, adj, d, n, pos, h, par, child, bound, cstart, ppos),
        pos.len() == n,
        0 <= u < n,
        pos[u] == -1,
        l >= h,
    ensures
        processed_ok(g0, adj, d, n, pos.update(u, l), h, par, child, bound, cstart, ppos),
{
    reveal(processed_ok);
    let p2 = pos.update(u, l);
    assert forall|v: int| 0 <= v < n && 0 <= #[trigger] p2[v] < h implies {
        &&& done_ok(g0, adj, d, v, par[v], child[v]@, bound[v], ppos[v], n)
        &&& p2[v] < cstart[v]
        &&& forall|k: int| 0 <= k < child[v]@.len() ==> p2[(#[trigger] child[v]@[k]).0 as int] == cstart[v] + k
    } by {
        assert(v != u);
        assert(pos[v] == p2[v]);
        assert forall|k: int| 0 <= k < child[v]@.len() implies p2[(#[trigger] child[v]@[k]).0 as int] == cstart[v] + k by {
            assert(pos[child[v]@[k].0 as int] == cstart[v] + k);
        }
    }
}

/// Changing the data of a vertex not processed keeps the processed ones
/// done.
proof fn lemma_processed_set<T>(
    g0: Seq<Vec<(usize, T)>>,
    adj: Seq<Seq<usize>>,
    d: Seq<nat>,
    n: int,
    pos: Seq<int>,
    h: int,
    par: Seq<Option<(usize, T)>>,
    child: Seq<Vec<(usize, T)>>,
    bound: Seq<usize>,
    cstart: Seq<int>,
    ppos: Seq<int>,
    par2: Seq<Option<(usize, T)>>,
    child2: Seq<Vec<(usize, T)>>,
    bound2: Seq<usize>,
    cstart2: Seq<int>,
    ppos2: Seq<int>,
    w: int,
)
    requires
        processed_ok(g0, adj, d, n, pos, h, par, child, bound, cstart, ppos),
        !(0 <= pos[w] < h),
        forall|x: int| 0 <= x < n && x != w ==> par2[x] == par[x] && child2[x] == child[x] && bound2[x] == bound[x] && cstart2[x] == cstart[x] && ppos2[x] == ppos[x],
    ensures
        processed_ok(g0, adj, d, n, pos, h, par2, child2, bound2, cstart2, ppos2),
{
    reveal(processed_ok);
    assert forall|v: int| 0 <= v < n && 0 <= #[trigger] pos[v] < h implies {
        &&& done_ok(g0, adj, d, v, par2[v], child2[v]@, bound2[v], ppos2[v], n)
        &&& pos[v] < cstart2[v]
        &&& forall|k: int| 0 <= k < child2[v]@.len() ==> pos[(#[trigger] child2[v]@[k]).0 as int] == cstart2[v] + k
    } by {
        assert(v != w);
        assert(child2[v] == child[v]);
    }
}

/// Processing one more vertex.
proof fn lemma_processed_extend<T>(
    g0: Seq<Vec<(usize, T)>>,
    adj: Seq<Seq<usize>>,
    d: Seq<nat>,
    n: int,
    pos: Seq<int>,
    h: int,
    par: Seq<Option<(usize, T)>>,
    child: Seq<Vec<(usize, T)>>,
    bound: Seq<usize>,
    cstart: Seq<int>,
    ppos: Seq<int>,
    v: int,
)
    requires
        processed_ok(g0, adj, d, n, pos, h, par, child, bound, cstart, ppos),
        0 <= v < n,
        pos[v] == h,
        forall|x: int| 0 <= x < n && #[trigger] pos[x] == h ==> x == v,
        done_ok(g0, adj, d, v, par[v], child[v]@, bound[v], ppos[v], n),
        pos[v] < cstart[v],
        forall|k: int| 0 <= k < child[v]@.len() ==> pos[(#[trigger] child[v]@[k]).0 as int] == cstart[v] + k,
    ensures
        processed_ok(g0, adj, d, n, pos, h + 1, par, child, bound, cstart, ppos),
{
    reveal(processed_ok);
}

/// Changing the data of `w` keeps the others as they came.
proof fn lemma_untouched_set<T>(
    g0: Seq<Vec<(usize, T)>>,
    g: Seq<Vec<(usize, T)>>,
    pos: Seq<int>,
    n: int,
    h: int,
    par: Seq<Option<(usize, T)>>,
    bound: Seq<usize>,
    g2: Seq<Vec<(usize, T)>>,
    pos2: Seq<int>,
    par2: Seq<Option<(usize, T)>>,
    bound2: Seq<usize>,
    w: int,
)
    requires
        untouched_ok(g0, g, pos, n, h, par, bound, w),
        forall|x: int| 0 <= x < n && x != w ==> g2[x] == g[x] && par2[x] == par[x] && bound2[x] == bound[x],
        forall|x: int| 0 <= x < n && x != w && !(0 <= #[trigger] pos2[x] < h) ==> !(0 <= pos[x] < h),
    ensures
        untouched_ok(g0, g2, pos2, n, h, par2, bound2, w),
{
    reveal(untouched_ok);
    assert forall|v: int| 0 <= v < n && v != w && !(0 <= #[trigger] pos2[v] < h) implies g2[v]@ == g0[v]@ && par2[v] is None && bound2[v] == n as usize by {
        assert(!(0 <= pos[v] < h));
    }
}

/// Every vertex is listed once all listed ones are processed.
proof fn lemma_all_found(adj: Seq<Seq<usize>>, d: Seq<nat>, pos: Seq<int>, n: int, h: int, v: int)
    requires
        is_tree(adj),
        levels(adj, d),
        n == adj.len(),
        pos.len() == n,
        pos[0] == 0,
        closed_ok(adj, d, pos, n, h),
        forall|x: int| 0 <= x < n ==> #[trigger] pos[x] < h,
        0 <= v < n,
    ensures
        pos[v] >= 0,
    decreases d[v],
{
    if v != 0 {
        lemma_up(adj, d, v);
        lemma_all_found(adj, d, pos, n, h, tpar(adj, d, v));
        reveal(closed_ok);
    }
}

/// Listing every vertex lists `n` of them.
proof fn lemma_all_listed(order: Seq<usize>, pos: Seq<int>, n: int)
    requires
        pos.len() == n,
        forall|v: int| 0 <= v < n ==> 0 <= #[trigger] pos[v] < order.len() && order[pos[v]] as int == v,
    ensures
        n <= order.len(),
{
    let s = pos;
    assert forall|i: int, j: int| 0 <= i < s.len() && 0 <= j < s.len() && i != j implies s[i] != s[j] by {
        assert(order[pos[i]] as int == i);
        assert(order[pos[j]] as int == j);
    }
    assert(s.no_duplicates());
    s.unique_seq_to_set();
    vstd::set_lib::lemma_int_range(0, order.len() as int);
    let r = vstd::set_lib::set_int_range(0, order.len() as int);
    assert forall|x: int| s.to_set().contains(x) implies r.contains(x) by {
        let j = choose|j: int| 0 <= j < s.len() && s[j] == x;
    }
    vstd::set_lib::lemma_len_subset(s.to_set(), r);
}

/// A vertex is listed no earlier than its level.
proof fn lemma_depth_pos(adj: Seq<Seq<usize>>, d: Seq<nat>, pos: Seq<int>, n: int, h: int, v: int)
    requires
        is_tree(adj),
        levels(adj, d),
        n == adj.len(),
        pos.len() == n,
        found_ok(adj, d, pos, n, h),
        forall|x: int| 0 <= x < n ==> #[trigger] pos[x] >= 0,
        0 <= v < n,
    ensures
        d[v] <= pos[v],
    decreases d[v],
{
    if v != 0 {
        lemma_up(adj, d, v);
        lemma_depth_pos(adj, d, pos, n, h, tpar(adj, d, v));
        reveal(found_ok);
        assert(pos[v] >= 0);
    }
}

/// When every listed vertex is processed, the tree is rooted.
proof fn lemma_finish<T>(
    g0: Seq<Vec<(usize, T)>>,
    adj: Seq<Seq<usize>>,
    d: Seq<nat>,
    n: int,
    order: Seq<usize>,
    pos: Seq<int>,
    h: int,
    par: Seq<Option<(usize, T)>>,
    child: Seq<Vec<(usize, T)>>,
    bound: Seq<usize>,
    cstart: Seq<int>,
    ppos: Seq<int>,
)
    requires
        n == g0.len(),
        adj == adj_of(g0),
        is_tree(adj),
        levels(adj, d),
        par.len() == n,
        child.len() == n,
        bound.len() == n,
        cstart.len() == n,
        ppos.len() == n,
        h == order.len(),
        perm_ok(order, pos, n),
        found_ok(adj, d, pos, n, h),
        closed_ok(adj, d, pos, n, h),
        processed_ok(g0, adj, d, n, pos, h, par, child, bound, cstart, ppos),
    ensures
        raw_wf(par, order, child, bound, d, pos, cstart, ppos),
        par[0] is None,
        child[0]@ == g0[0]@,
        forall|v: int| 0 < v < n ==> {
            &&& 0 <= #[trigger] ppos[v] < g0[v]@.len()
            &&& par[v] == Some(g0[v]@[ppos[v]])
            &&& child[v]@ == g0[v]@.remove(ppos[v])
            &&& d[v] == d[g0[v]@[ppos[v]].0 as int] + 1
        },
{
            reveal(perm_ok);
            assert forall|v: int| 0 <= v < n implies #[trigger] pos[v] >= 0 by {
                lemma_all_found(adj, d, pos, n, h, v);
            }
            lemma_all_listed(order, pos, n);
            assert forall|v: int| 0 <= v < n implies #[trigger] d[v] < n by {
                lemma_depth_pos(adj, d, pos, n, h, v);
            }
            reveal(processed_ok);
            assert forall|v: int| 0 < v < n implies {
                &&& (#[trigger] par[v]) is Some
                &&& (par[v].unwrap().0 as int) == tpar(adj, d, v)
                &&& 0 <= ppos[v] < g0[v]@.len()
                &&& par[v] == Some(g0[v]@[ppos[v]])
                &&& child[v]@ == g0[v]@.remove(ppos[v])
            } by {
                assert(0 <= pos[v] < h);
                lemma_up(adj, d, v);
                assert(adj[v][up_at(adj, d, v)] == g0[v]@[up_at(adj, d, v)].0);
            }
            assert forall|v: int| 0 < v < n implies {
                let p = (#[trigger] par[v]).unwrap().0 as int;
                &&& 0 <= pos[v] - cstart[p] < child[p]@.len()
                &&& child[p]@[pos[v] - cstart[p]].0 == v
            } by {
                lemma_up(adj, d, v);
                let p = tpar(adj, d, v);
                let ku = up_at(adj, d, v);
                assert(adj[v][ku] as int == p);
                assert(adj[adj[v][ku] as int].contains(v as usize));
                let j = choose|j: int| 0 <= j < adj[p].len() && adj[p][j] == v as usize;
                lemma_edge(adj, d, p, j);
                assert(0 <= pos[p] < h);
                let lp = g0[p]@;
                let pp = ppos[p];
                assert(adj[p][j] == lp[j].0);
                assert(done_ok(g0, adj, d, p, par[p], child[p]@, bound[p], pp, n));
                let k = if p != 0 && j > pp { j - 1 } else { j };
                if p != 0 {
                    lemma_up(adj, d, p);
                    assert(j != pp);
                    lp.remove_ensures(pp);
                    assert(child[p]@[k] == lp[j]);
                } else {
                    assert(child[p]@[k] == lp[j]);
                }
                assert(pos[child[p]@[k].0 as int] == cstart[p] + k);
            }
            assert(0 <= pos[0] < h);
    assert forall|v: int| 0 < v < n implies {
        &&& 0 <= #[trigger] ppos[v] < g0[v]@.len()
        &&& par[v] == Some(g0[v]@[ppos[v]])
        &&& child[v]@ == g0[v]@.remove(ppos[v])
        &&& d[v] == d[g0[v]@[ppos[v]].0 as int] + 1
    } by {
        assert(par[v] is Some);
        lemma_up(adj, d, v);
    }
    assert forall|v: int, k: int| 0 <= v < n && 0 <= k < child[v]@.len() implies {
        let c = (#[trigger] child[v]@[k]).0 as int;
        &&& 0 < c < n
        &&& par[c].unwrap().0 == v
        &&& pos[c] == cstart[v] + k
    } by {
        assert(0 <= pos[v] < h);
        let c = child[v]@[k].0 as int;
        assert(par[c] is Some);
    }
    assert forall|v: int| 0 <= v < n implies 0 <= #[trigger] ppos[v] <= child[v]@.len()
        && bound[v] == (if v != 0 && ppos[v] < child[v]@.len() { child[v]@[ppos[v]].0 } else { n as usize }) by {
        assert(0 <= pos[v] < h);
    }
}

impl<T> TreeCata<T> {
    /// The first child of `p` whose place in the order is `t` or later.
    spec fn first_at(&self, p: int, t: int) -> int {
        let cs = self.cstart@[p];
        let len = self.child@[p]@.len() as int;
        if t <= cs {
            0
        } else if t >= cs + len {
            len
        } else {
            t - cs
        }
    }

    /// Vertex `q` folds, left and right of its parent, the children placed
    /// from `t` on in the order; `right` tells whether some child right of
    /// the parent is still to come.
    spec fn side_ok<U>(
        &self,
        e: U,
        sm: spec_fn(U, T) -> U,
        sf: spec_fn(U, U) -> U,
        t: int,
        q: int,
        l: U,
        r: U,
        right: bool,
    ) -> bool {
        let j0 = self.first_at(q, t);
        let pp = self.ppos@[q];
        let len = self.child@[q]@.len() as int;
        if j0 >= pp {
            &&& r == self.kids(e, sm, sf, q, j0, len)
            &&& l == e
            &&& right == (j0 > pp)
        } else {
            &&& r == self.kids(e, sm, sf, q, pp, len)
            &&& l == self.kids(e, sm, sf, q, j0, pp)
            &&& !right
        }
    }

    /// The upward pass has handled the vertices from place `t` on in the
    /// order: their subtree values are known, and each vertex folds the
    /// children handled.
    #[verifier::opaque]
    spec fn up_pass<U>(
        &self,
        e: U,
        sm: spec_fn(U, T) -> U,
        sf: spec_fn(U, U) -> U,
        t: int,
        dp: Seq<U>,
        ascl: Seq<U>,
        ascr: Seq<U>,
        right: Seq<bool>,
    ) -> bool {
        &&& forall|x: int| 0 <= x < self.n() && self.pos@[x] >= t ==> #[trigger] dp[x] == self.down(e, sm, sf, x)
        &&& forall|q: int| 0 <= q < self.n() ==> #[trigger] self.side_ok(e, sm, sf, t, q, ascl[q], ascr[q], right[q])
    }

    /// Child `k` of `v` and its place.
    proof fn lemma_kid(&self, v: int, k: int)
        requires
            self.wf(),
            0 <= v < self.n(),
            0 <= k < self.child@[v]@.len(),
        ensures
            ({
                let c = self.kid(v, k);
                &&& 0 < c < self.n()
                &&& self.parent(c).unwrap().0 == v
                &&& self.depth(c) == self.depth(v) + 1
                &&& self.below(c) + 1 == self.below(v)
                &&& self.child_index(c) == k
                &&& self.pos@[c] == self.cstart@[v] + k
            }),
    {
        let c = self.kid(v, k);
        assert(self.child@[v]@[k].0 as int == c);
        assert(self.par@[c] is Some);
    }

    /// Folding the children `k..b` of `v` is folding child `k`, then the
    /// rest; folding `0..k + 1` is folding `0..k`, then child `k`.
    proof fn lemma_kids_step<U>(&self, e: U, sm: spec_fn(U, T) -> U, sf: spec_fn(U, U) -> U, v: int, k: int, b: int)
        requires
            self.wf(),
            monoid(e, sf),
            0 <= v < self.n(),
            0 <= k < b <= self.child@[v]@.len(),
        ensures
            ({
                let c = self.kid(v, k);
                let term = sm(self.down(e, sm, sf, c), self.up_weight(c));
                &&& self.kids(e, sm, sf, v, k, b) == sf(term, self.kids(e, sm, sf, v, k + 1, b))
                &&& self.kids(e, sm, sf, v, 0, k + 1) == sf(self.kids(e, sm, sf, v, 0, k), term)
                &&& self.kids(e, sm, sf, v, k, k + 1) == term
            }),
    {
        self.lemma_kid(v, k);
        let f = self.below(v);
        lemma_span_split(self, e, sm, sf, v, k, k + 1, b, f);
        lemma_span_split(self, e, sm, sf, v, 0, k, k + 1, f);
        assert(self.span(e, sm, sf, v, k, k, f) == e);
        assert(self.span(e, sm, sf, v, 0, 0, f) == e);
        let c = self.kid(v, k);
        lemma_monoid(e, sf, sm(self.down(e, sm, sf, c), self.up_weight(c)), e, e);
    }

    /// A vertex whose children are all handled folds to its subtree value.
    proof fn lemma_self_down<U>(&self, e: U, sm: spec_fn(U, T) -> U, sf: spec_fn(U, U) -> U, t: int, i: int, l: U, r: U, right: bool)
        requires
            self.wf(),
            monoid(e, sf),
            0 <= i < self.n(),
            self.first_at(i, t) == 0,
            self.side_ok(e, sm, sf, t, i, l, r, right),
        ensures
            sf(l, r) == self.down(e, sm, sf, i),
    {
        let li = self.child@[i]@.len() as int;
        let ppi = self.ppos@[i];
        assert(0 <= ppi <= li);
        if ppi > 0 {
            lemma_span_split(self, e, sm, sf, i, 0, ppi, li, self.below(i));
        } else {
            lemma_monoid(e, sf, r, e, e);
        }
    }

    /// The parent `p` of the vertex handled gains its child `k`, right of
    /// its own parent.
    proof fn lemma_parent_right<U>(
        &self,
        e: U,
        sm: spec_fn(U, T) -> U,
        sf: spec_fn(U, U) -> U,
        t: int,
        p: int,
        k: int,
        l: U,
        r: U,
        l2: U,
        r2: U,
        right2: bool,
    )
        requires
            self.wf(),
            monoid(e, sf),
            0 <= p < self.n(),
            0 <= k < self.child@[p]@.len(),
            self.first_at(p, t + 1) == k + 1,
            self.first_at(p, t) == k,
            self.side_ok(e, sm, sf, t + 1, p, l, r, true),
            ({
                let c = self.kid(p, k);
                let mi = sm(self.down(e, sm, sf, c), self.up_weight(c));
                &&& r2 == sf(mi, r)
                &&& right2 == (self.bound@[p] != c as usize)
                &&& l2 == l
            }),
        ensures
            self.side_ok(e, sm, sf, t, p, l2, r2, right2),
    {
        let len_p = self.child@[p]@.len() as int;
        let pp = self.ppos@[p];
        self.lemma_kid(p, k);
        self.lemma_kids_step(e, sm, sf, p, k, len_p);
        assert(k + 1 > pp);
        if p != 0 && pp < len_p {
            self.lemma_kid(p, pp);
            if k != pp {
                assert(self.pos@[self.kid(p, pp)] != self.pos@[self.kid(p, k)]);
            }
        }
    }

    /// The parent `p` of the vertex handled gains its child `k`, left of
    /// its own parent.
    proof fn lemma_parent_left<U>(
        &self,
        e: U,
        sm: spec_fn(U, T) -> U,
        sf: spec_fn(U, U) -> U,
        t: int,
        p: int,
        k: int,
        l: U,
        r: U,
        l2: U,
    )
        requires
            self.wf(),
            monoid(e, sf),
            0 <= p < self.n(),
            0 <= k < self.child@[p]@.len(),
            self.first_at(p, t + 1) == k + 1,
            self.first_at(p, t) == k,
            self.side_ok(e, sm, sf, t + 1, p, l, r, false),
            ({
                let c = self.kid(p, k);
                let mi = sm(self.down(e, sm, sf, c), self.up_weight(c));
                l2 == sf(mi, l)
            }),
        ensures
            self.side_ok(e, sm, sf, t, p, l2, r, false),
    {
        let pp = self.ppos@[p];
        self.lemma_kid(p, k);
        assert(k < pp);
        self.lemma_kids_step(e, sm, sf, p, k, pp);
        if k + 1 == pp {
            assert(self.span(e, sm, sf, p, k + 1, k + 1, self.below(p)) == e);
            lemma_monoid(e, sf, sm(self.down(e, sm, sf, self.kid(p, k)), self.up_weight(self.kid(p, k))), e, e);
        }
    }

    /// Only the parent of the vertex at place `t` has a child there.
    proof fn lemma_first_at_other(&self, t: int, q: int)
        requires
            self.wf(),
            1 <= t < self.n(),
            0 <= q < self.n(),
            q != self.parent(self.order@[t] as int).unwrap().0 as int,
        ensures
            self.first_at(q, t) == self.first_at(q, t + 1),
    {
        let cs = self.cstart@[q];
        let lq = self.child@[q]@.len() as int;
        if cs <= t < cs + lq {
            self.lemma_kid(q, t - cs);
            assert(self.order@[self.pos@[self.kid(q, t - cs)]] as int == self.kid(q, t - cs));
        }
    }

    /// Handling the vertex `i` at place `t` in the upward pass.
    proof fn lemma_up_step<U>(
        &self,
        e: U,
        sm: spec_fn(U, T) -> U,
        sf: spec_fn(U, U) -> U,
        t: int,
        dp: Seq<U>,
        ascl: Seq<U>,
        ascr: Seq<U>,
        right: Seq<bool>,
        dp2: Seq<U>,
        ascl2: Seq<U>,
        ascr2: Seq<U>,
        right2: Seq<bool>,
    )
        requires
            self.wf(),
            monoid(e, sf),
            1 <= t < self.n(),
            dp.len() == self.n(),
            ascl.len() == self.n(),
            ascr.len() == self.n(),
            right.len() == self.n(),
            self.up_pass(e, sm, sf, t + 1, dp, ascl, ascr, right),
            ({
                let i = self.order@[t] as int;
                let p = self.parent(i).unwrap().0 as int;
                let mi = sm(sf(ascl[i], ascr[i]), self.up_weight(i));
                &&& dp2 == dp.update(i, sf(ascl[i], ascr[i]))
                &&& (if right[p] {
                    &&& ascr2 == ascr.update(p, sf(mi, ascr[p]))
                    &&& right2 == right.update(p, self.bound@[p] != i as usize)
                    &&& ascl2 == ascl
                } else {
                    &&& ascl2 == ascl.update(p, sf(mi, ascl[p]))
                    &&& ascr2 == ascr
                    &&& right2 == right
                })
            }),
        ensures
            self.up_pass(e, sm, sf, t, dp2, ascl2, ascr2, right2),
    {
        reveal(TreeCata::up_pass);
        let n = self.n();
        let i = self.order@[t] as int;
        assert(self.pos@[i] == t);
        assert(self.par@[i] is Some);
        let p = self.parent(i).unwrap().0 as int;
        let k = self.child_index(i);
        assert(self.child@[p]@[k].0 == i);
        self.lemma_kid(p, k);
        assert(self.pos@[i] < self.cstart@[i]);
        assert(self.side_ok(e, sm, sf, t + 1, i, ascl[i], ascr[i], right[i]));
        self.lemma_self_down(e, sm, sf, t + 1, i, ascl[i], ascr[i], right[i]);
        assert(self.side_ok(e, sm, sf, t + 1, p, ascl[p], ascr[p], right[p]));
        if right[p] {
            self.lemma_parent_right(e, sm, sf, t, p, k, ascl[p], ascr[p], ascl2[p], ascr2[p], right2[p]);
        } else {
            self.lemma_parent_left(e, sm, sf, t, p, k, ascl[p], ascr[p], ascl2[p]);
        }
        assert forall|q: int| 0 <= q < n implies #[trigger] self.side_ok(e, sm, sf, t, q, ascl2[q], ascr2[q], right2[q]) by {
            if q != p {
                self.lemma_first_at_other(t, q);
                assert(self.side_ok(e, sm, sf, t + 1, q, ascl[q], ascr[q], right[q]));
            }
        }
        assert forall|x: int| 0 <= x < n && self.pos@[x] >= t implies #[trigger] dp2[x] == self.down(e, sm, sf, x) by {
            if x != i {
                assert(self.pos@[x] != t);
            }
        }
    }
}

impl<T> TreeCata<T> {
    /// The first sweep over the children of `i`, up to child `k`: `ac`
    /// folds what the rest of the tree hands `i` and the children before
    /// `k`; each child before `k` holds that fold as of its own place, and
    /// no other vertex has changed.
    #[verifier::opaque]
    spec fn fwd_ok<U>(&self, e: U, sm: spec_fn(U, T) -> U, sf: spec_fn(U, U) -> U, i: int, k: int, ac: U, desc: Seq<U>, desc0: Seq<U>) -> bool {
        &&& ac == sf(self.up(e, sm, sf, i), self.kids(e, sm, sf, i, 0, k))
        &&& forall|k2: int| 0 <= k2 < k ==> desc[#[trigger] self.kid(i, k2)] == sf(self.up(e, sm, sf, i), self.kids(e, sm, sf, i, 0, k2))
        &&& forall|x: int| 0 <= x < self.n() && (x == 0 || self.par@[x].unwrap().0 as int != i) ==> #[trigger] desc[x] == desc0[x]
    }

    /// One step of the first sweep, at child `k` of `i`.
    proof fn lemma_fwd_step<U>(
        &self,
        e: U,
        sm: spec_fn(U, T) -> U,
        sf: spec_fn(U, U) -> U,
        i: int,
        k: int,
        ac: U,
        desc: Seq<U>,
        desc0: Seq<U>,
        dj: U,
        ac2: U,
        desc2: Seq<U>,
    )
        requires
            self.wf(),
            monoid(e, sf),
            0 <= i < self.n(),
            0 <= k < self.child@[i]@.len(),
            desc.len() == self.n(),
            self.fwd_ok(e, sm, sf, i, k, ac, desc, desc0),
            dj == self.down(e, sm, sf, self.kid(i, k)),
            desc2 == desc.update(self.kid(i, k), ac),
            ac2 == sf(ac, sm(dj, self.up_weight(self.kid(i, k)))),
        ensures
            self.fwd_ok(e, sm, sf, i, k + 1, ac2, desc2, desc0),
    {
        reveal(TreeCata::fwd_ok);
        let len = self.child@[i]@.len() as int;
        let j = self.kid(i, k);
        self.lemma_kid(i, k);
        self.lemma_kids_step(e, sm, sf, i, k, len);
        lemma_monoid(e, sf, self.up(e, sm, sf, i), self.kids(e, sm, sf, i, 0, k), sm(dj, self.up_weight(j)));
        assert forall|k2: int| 0 <= k2 < k implies self.kid(i, k2) != j by {
            self.lemma_kid(i, k2);
        }
        assert forall|k2: int| 0 <= k2 < k + 1 implies desc2[#[trigger] self.kid(i, k2)] == sf(self.up(e, sm, sf, i), self.kids(e, sm, sf, i, 0, k2)) by {}
        assert forall|x: int| 0 <= x < self.n() && (x == 0 || self.par@[x].unwrap().0 as int != i) implies #[trigger] desc2[x] == desc0[x] by {
            assert(x != j);
        }
    }

    /// The second sweep over the children of `i`, from the last down to
    /// child `k`: `ac` folds the children from `k` on; those have their
    /// final values, the ones before still hold the prefix folds from the
    /// first sweep, and no other vertex has changed.
    #[verifier::opaque]
    spec fn back_ok<U>(
        &self,
        e: U,
        sm: spec_fn(U, T) -> U,
        sf: spec_fn(U, U) -> U,
        i: int,
        k: int,
        ac: U,
        dp: Seq<U>,
        desc: Seq<U>,
        dp0: Seq<U>,
        desc0: Seq<U>,
    ) -> bool {
        let len = self.child@[i]@.len() as int;
        &&& ac == self.kids(e, sm, sf, i, k, len)
        &&& forall|k2: int| k <= k2 < len ==> dp[#[trigger] self.kid(i, k2)] == self.value(e, sm, sf, self.kid(i, k2))
            && desc[self.kid(i, k2)] == self.up(e, sm, sf, self.kid(i, k2))
        &&& forall|k2: int| 0 <= k2 < k ==> desc[#[trigger] self.kid(i, k2)] == sf(self.up(e, sm, sf, i), self.kids(e, sm, sf, i, 0, k2))
            && dp[self.kid(i, k2)] == self.down(e, sm, sf, self.kid(i, k2))
        &&& forall|x: int| 0 <= x < self.n() && (x == 0 || self.par@[x].unwrap().0 as int != i) ==> #[trigger] desc[x] == desc0[x] && dp[x] == dp0[x]
    }

    /// The values computed for child `k` of `i` in the second sweep.
    proof fn lemma_back_vals<U>(&self, e: U, sm: spec_fn(U, T) -> U, sf: spec_fn(U, U) -> U, i: int, k: int, ac: U, dk: U, vk: U)
        requires
            self.wf(),
            monoid(e, sf),
            0 <= i < self.n(),
            0 <= k < self.child@[i]@.len(),
            ac == self.kids(e, sm, sf, i, k + 1, self.child@[i]@.len() as int),
            dk == sf(self.up(e, sm, sf, i), self.kids(e, sm, sf, i, 0, k)),
            vk == self.down(e, sm, sf, self.kid(i, k)),
        ensures
            sm(sf(dk, ac), self.children(i)[k].1) == self.up(e, sm, sf, self.kid(i, k)),
            sf(sm(vk, self.up_weight(self.kid(i, k))), ac) == self.kids(e, sm, sf, i, k, self.child@[i]@.len() as int),
    {
        let len = self.child@[i]@.len() as int;
        self.lemma_up_unfold(e, sm, sf, i, k);
        self.lemma_kids_step(e, sm, sf, i, k, len);
        lemma_monoid(e, sf, self.up(e, sm, sf, i), self.kids(e, sm, sf, i, 0, k), ac);
    }

    /// One step of the second sweep, at child `k` of `i`.
    #[verifier::rlimit(40)]
    #[verifier::spinoff_prover]
    proof fn lemma_back_step<U>(
        &self,
        e: U,
        sm: spec_fn(U, T) -> U,
        sf: spec_fn(U, U) -> U,
        i: int,
        k: int,
        ac: U,
        dp: Seq<U>,
        desc: Seq<U>,
        dp0: Seq<U>,
        desc0: Seq<U>,
        ac2: U,
        dp2: Seq<U>,
        desc2: Seq<U>,
    )
        requires
            self.wf(),
            monoid(e, sf),
            0 <= i < self.n(),
            0 <= k < self.child@[i]@.len(),
            dp.len() == self.n(),
            desc.len() == self.n(),
            self.back_ok(e, sm, sf, i, k + 1, ac, dp, desc, dp0, desc0),
            ({
                let j = self.kid(i, k);
                let dj = sm(sf(desc[j], ac), self.children(i)[k].1);
                let mj = sm(dp[j], self.up_weight(j));
                let pj = self.ppos@[j];
                let lj = self.child@[j]@.len() as int;
                &&& desc2 == desc.update(j, dj)
                &&& ac2 == sf(mj, ac)
                &&& dp2 == dp.update(j, sf(self.kids(e, sm, sf, j, 0, pj), sf(dj, self.kids(e, sm, sf, j, pj, lj))))
            }),
        ensures
            self.back_ok(e, sm, sf, i, k, ac2, dp2, desc2, dp0, desc0),
    {
        reveal(TreeCata::back_ok);
        let len = self.child@[i]@.len() as int;
        let j = self.kid(i, k);
        self.lemma_kid(i, k);
        assert(desc[j] == sf(self.up(e, sm, sf, i), self.kids(e, sm, sf, i, 0, k)));
        assert(dp[j] == self.down(e, sm, sf, j));
        self.lemma_back_vals(e, sm, sf, i, k, ac, desc[j], dp[j]);
        assert forall|k2: int| 0 <= k2 < len && k2 != k implies self.kid(i, k2) != j by {
            self.lemma_kid(i, k2);
        }
        assert forall|k2: int| k <= k2 < len implies dp2[#[trigger] self.kid(i, k2)] == self.value(e, sm, sf, self.kid(i, k2))
            && desc2[self.kid(i, k2)] == self.up(e, sm, sf, self.kid(i, k2)) by {}
        assert forall|k2: int| 0 <= k2 < k implies desc2[#[trigger] self.kid(i, k2)] == sf(self.up(e, sm, sf, i), self.kids(e, sm, sf, i, 0, k2))
            && dp2[self.kid(i, k2)] == self.down(e, sm, sf, self.kid(i, k2)) by {}
        assert forall|x: int| 0 <= x < self.n() && (x == 0 || self.par@[x].unwrap().0 as int != i) implies #[trigger] desc2[x] == desc0[x] && dp2[x] == dp0[x] by {
            assert(x != j);
            assert(desc2[x] == desc[x]);
            assert(dp2[x] == dp[x]);
            assert(desc[x] == desc0[x] && dp[x] == dp0[x]);
        }
        assert(self.back_ok(e, sm, sf, i, k, ac2, dp2, desc2, dp0, desc0));
    }

    /// At the end of the upward pass each vertex folds its children left
    /// and right of its parent.
    proof fn lemma_final_side<U>(&self, e: U, sm: spec_fn(U, T) -> U, sf: spec_fn(U, U) -> U, q: int, l: U, r: U, right: bool)
        requires
            self.wf(),
            0 <= q < self.n(),
            self.side_ok(e, sm, sf, 1, q, l, r, right),
        ensures
            l == self.kids(e, sm, sf, q, 0, self.ppos@[q]),
            r == self.kids(e, sm, sf, q, self.ppos@[q], self.child@[q]@.len() as int),
    {
        assert(self.pos@[q] < self.cstart@[q]);
        assert(self.first_at(q, 1) == 0);
        assert(self.span(e, sm, sf, q, 0, 0, self.below(q)) == e);
    }

    /// What the rest of the tree hands child `k` of `i`.
    proof fn lemma_up_unfold<U>(&self, e: U, sm: spec_fn(U, T) -> U, sf: spec_fn(U, U) -> U, i: int, k: int)
        requires
            self.wf(),
            0 <= i < self.n(),
            0 <= k < self.child@[i]@.len(),
        ensures
            self.up(e, sm, sf, self.kid(i, k)) == sm(
                sf(self.up(e, sm, sf, i), sf(self.kids(e, sm, sf, i, 0, k), self.kids(e, sm, sf, i, k + 1, self.child@[i]@.len() as int))),
                self.children(i)[k].1,
            ),
    {
        self.lemma_kid(i, k);
    }

    /// The vertex `x` has its final values once its parent is handled.
    spec fn settled(&self, x: int, t: int) -> bool {
        x == 0 || self.pos@[self.par@[x].unwrap().0 as int] < t
    }

    /// The downward pass has handled the vertices before place `t`: their
    /// children, and `0`, have their values and what the rest of the tree
    /// hands them; the others keep their subtree values.
    #[verifier::opaque]
    spec fn down_pass<U>(&self, e: U, sm: spec_fn(U, T) -> U, sf: spec_fn(U, U) -> U, t: int, dp: Seq<U>, desc: Seq<U>) -> bool {
        &&& forall|x: int| 0 <= x < self.n() && #[trigger] self.settled(x, t) ==> dp[x] == self.value(e, sm, sf, x) && desc[x] == self.up(e, sm, sf, x)
        &&& forall|x: int| 0 <= x < self.n() && !#[trigger] self.settled(x, t) ==> dp[x] == self.down(e, sm, sf, x)
    }

    /// Handling the vertex at place `t` in the downward pass.
    proof fn lemma_down_step<U>(
        &self,
        e: U,
        sm: spec_fn(U, T) -> U,
        sf: spec_fn(U, U) -> U,
        t: int,
        dp: Seq<U>,
        desc: Seq<U>,
        ac: U,
        dp2: Seq<U>,
        desc2: Seq<U>,
    )
        requires
            self.wf(),
            0 <= t < self.n(),
            self.down_pass(e, sm, sf, t, dp, desc),
            self.back_ok(e, sm, sf, self.order@[t] as int, 0, ac, dp2, desc2, dp, desc),
        ensures
            self.down_pass(e, sm, sf, t + 1, dp2, desc2),
    {
        reveal(TreeCata::down_pass);
        reveal(TreeCata::back_ok);
        let i = self.order@[t] as int;
        assert forall|x: int| 0 <= x < self.n() && #[trigger] self.settled(x, t + 1) implies dp2[x] == self.value(e, sm, sf, x) && desc2[x] == self.up(e, sm, sf, x) by {
            if x != 0 && self.par@[x].unwrap().0 as int == i {
                assert(self.par@[x] is Some);
                let k = self.child_index(x);
                assert(self.kid(i, k) == x);
            } else {
                assert(x == 0 || self.par@[x].unwrap().0 as int != i);
                assert(desc2[x] == desc[x]);
                assert(dp2[x] == dp[x]);
                if x != 0 {
                    assert(self.pos@[self.par@[x].unwrap().0 as int] != t);
                }
                assert(self.settled(x, t));
            }
        }
        assert forall|x: int| 0 <= x < self.n() && !#[trigger] self.settled(x, t + 1) implies dp2[x] == self.down(e, sm, sf, x) by {
            assert(self.par@[x] is Some);
            assert(self.par@[x].unwrap().0 as int != i);
            assert(desc2[x] == desc[x] && dp2[x] == dp[x]);
            assert(!self.settled(x, t));
        }
    }

    /// For each vertex `v`, the value of the tree rooted at `v`, read with
    /// the functions that the closures compute; see `each_root_with`. The
    /// closures are asked to accept only the values that arise here.
    pub fn each_root<U: Clone, M: Fn(&U, &T) -> U, F: Fn(&U, &U) -> U>(&self, empty: U, map: M, fold: F) -> (r: Vec<U>)
        requires
            self.wf(),
            self.ops_arising(empty, map, fold, map_fn(map), fold_fn(fold)),
        ensures
            r@.len() == self.n(),
            forall|v: int| 0 <= v < self.n() ==> r@[v] == #[trigger] self.value(empty, map_fn(map), fold_fn(fold), v),
    {
        self.each_root_with(empty, map, fold, Ghost(map_fn(map)), Ghost(fold_fn(fold)))
    }

    /// For each vertex `v`, the value of the tree rooted at `v`, where the
    /// closures compute `sm` and `sf`: with
    /// `fold` associative with identity `empty`, a leaf's value is `empty`
    /// and any other vertex folds its neighbours' values, each mapped with
    /// the weight of the edge in the neighbour's list, its children in the
    /// order of its list and its parent in its place there. Seen from a
    /// child, a vertex folds its parent first, then its other children.
    #[verifier::rlimit(40)]
    pub fn each_root_with<U: Clone, M: Fn(&U, &T) -> U, F: Fn(&U, &U) -> U>(
        &self,
        empty: U,
        map: M,
        fold: F,
        Ghost(sm): Ghost<spec_fn(U, T) -> U>,
        Ghost(sf): Ghost<spec_fn(U, U) -> U>,
    ) -> (r: Vec<U>)
        requires
            self.wf(),
            self.ops_arising(empty, map, fold, sm, sf),
        ensures
            r@.len() == self.n(),
            forall|v: int| 0 <= v < self.n() ==> r@[v] == #[trigger] self.value(empty, sm, sf, v),
    {
        let ghost e = empty;
        let n = self.child.len();
        let e1 = empty.clone();
        let mut ascl: Vec<U> = vec![e1; n];
        let e2 = empty.clone();
        let mut ascr: Vec<U> = vec![e2; n];
        let e3 = empty.clone();
        let mut dp: Vec<U> = vec![e3; n];
        let mut right: Vec<bool> = Vec::new();
        let mut j: usize = 0;
        while j < n
            invariant
                self.wf(),
                n == self.n(),
                j <= n,
                right@.len() == j,
                forall|q: int| 0 <= q < j ==> #[trigger] right@[q] == (self.bound@[q] < n),
            decreases n - j,
        {
            right.push(self.bound[j] < n);
            j += 1;
        }
        proof {
            reveal(TreeCata::up_pass);
            assert forall|q: int| 0 <= q < n implies #[trigger] self.side_ok(e, sm, sf, n as int, q, ascl@[q], ascr@[q], right@[q]) by {
                let len = self.child@[q]@.len() as int;
                assert(self.pos@[q] < self.cstart@[q]);
                if len > 0 {
                    self.lemma_kid(q, len - 1);
                    assert(self.pos@[self.kid(q, len - 1)] < n);
                }
                assert(self.first_at(q, n as int) == len);
                assert(self.span(e, sm, sf, q, len, len, self.below(q)) == e);
                if q != 0 && self.ppos@[q] < len {
                    self.lemma_kid(q, self.ppos@[q]);
                }
            }
        }
        let mut t: usize = n;
        while t > 1
            invariant
                self.wf(),
                self.ops_arising(empty, map, fold, sm, sf),
                e == empty,
                n == self.n(),
                1 <= t <= n,
                dp@.len() == n,
                ascl@.len() == n,
                ascr@.len() == n,
                right@.len() == n,
                self.up_pass(e, sm, sf, t as int, dp@, ascl@, ascr@, right@),
            decreases t,
        {
            t -= 1;
            let i = self.order[t];
            proof {
                assert(self.pos@[i as int] == t);
                assert(i != 0);
                assert(self.par@[i as int] is Some);
            }
            let ghost dp0 = dp@;
            let ghost ascl0 = ascl@;
            let ghost ascr0 = ascr@;
            let ghost right0 = right@;
            proof {
                assert(self.side_ok(e, sm, sf, t + 1, i as int, ascl@[i as int], ascr@[i as int], right@[i as int])) by {
                    reveal(TreeCata::up_pass);
                }
                self.lemma_side_tv(e, sm, sf, t + 1, i as int, ascl@[i as int], ascr@[i as int], right@[i as int]);
            }
            let di = fold(&ascl[i], &ascr[i]);
            proof {
                self.lemma_tv_sf(e, sm, sf, ascl@[i as int], ascr@[i as int], 0);
                self.lemma_tv_mono(e, sm, sf, di, 1, 4);
            }
            dp.set(i, di);
            let (p, x) = match &self.par[i] {
                Some(pr) => (pr.0, &pr.1),
                None => unreached(),
            };
            let mi = map(&dp[i], x);
            proof {
                self.lemma_tv_sm(e, sm, sf, di, *x, 1);
                self.lemma_tv_mono(e, sm, sf, mi, 2, 4);
                assert(self.side_ok(e, sm, sf, t + 1, p as int, ascl@[p as int], ascr@[p as int], right@[p as int])) by {
                    reveal(TreeCata::up_pass);
                }
                self.lemma_side_tv(e, sm, sf, t + 1, p as int, ascl@[p as int], ascr@[p as int], right@[p as int]);
            }
            if right[p] {
                let nr = fold(&mi, &ascr[p]);
                ascr.set(p, nr);
                right.set(p, self.bound[p] != i);
            } else {
                let nl = fold(&mi, &ascl[p]);
                ascl.set(p, nl);
            }
            proof {
                self.lemma_up_step(e, sm, sf, t as int, dp0, ascl0, ascr0, right0, dp@, ascl@, ascr@, right@);
            }
        }
        proof {
            assert(self.side_ok(e, sm, sf, 1, 0, ascl@[0], ascr@[0], right@[0])) by {
                reveal(TreeCata::up_pass);
            }
            self.lemma_side_tv(e, sm, sf, 1, 0, ascl@[0], ascr@[0], right@[0]);
        }
        let d0 = fold(&ascl[0], &ascr[0]);
        dp.set(0, d0);
        let e4 = empty.clone();
        let mut desc: Vec<U> = vec![e4; n];
        proof {
            reveal(TreeCata::up_pass);
            reveal(TreeCata::down_pass);
            assert forall|q: int| 0 <= q < n implies ascl@[q] == self.kids(e, sm, sf, q, 0, self.ppos@[q])
                && ascr@[q] == self.kids(e, sm, sf, q, self.ppos@[q], self.child@[q]@.len() as int) by {
                assert(self.side_ok(e, sm, sf, 1, q, ascl@[q], ascr@[q], right@[q]));
                self.lemma_final_side(e, sm, sf, q, ascl@[q], ascr@[q], right@[q]);
            }
            let len0 = self.child@[0]@.len() as int;
            assert(self.span(e, sm, sf, 0, len0, len0, self.below(0)) == e);
            lemma_monoid(e, sf, e, e, e);
            lemma_monoid(e, sf, ascl@[0], e, e);
            assert(dp@[0] == self.value(e, sm, sf, 0));
            assert forall|x: int| 0 <= x < n && #[trigger] self.settled(x, 0) implies dp@[x] == self.value(e, sm, sf, x) && desc@[x] == self.up(e, sm, sf, x) by {
                if x != 0 {
                    assert(self.par@[x] is Some);
                }
                assert(x == 0);
            }
            assert forall|x: int| 0 <= x < n && !#[trigger] self.settled(x, 0) implies dp@[x] == self.down(e, sm, sf, x) by {
                assert(x != 0);
                assert(self.pos@[x] >= 1);
            }
        }
        let mut t: usize = 0;
        while t < n
            invariant
                self.wf(),
                self.ops_arising(empty, map, fold, sm, sf),
                e == empty,
                n == self.n(),
                t <= n,
                dp@.len() == n,
                desc@.len() == n,
                ascl@.len() == n,
                ascr@.len() == n,
                forall|q: int| 0 <= q < n ==> #[trigger] ascl@[q] == self.kids(e, sm, sf, q, 0, self.ppos@[q]),
                forall|q: int| 0 <= q < n ==> #[trigger] ascr@[q] == self.kids(e, sm, sf, q, self.ppos@[q], self.child@[q]@.len() as int),
                self.down_pass(e, sm, sf, t as int, dp@, desc@),
            decreases n - t,
        {
            let i = self.order[t];
            let ghost ii = i as int;
            let ghost dp0 = dp@;
            let ghost desc0 = desc@;
            let len = self.child[i].len();
            proof {
                reveal(TreeCata::down_pass);
                assert(self.pos@[ii] == t);
                if ii != 0 {
                    assert(self.par@[ii] is Some);
                    let k = self.child_index(ii);
                    self.lemma_kid(self.par@[ii].unwrap().0 as int, k);
                }
                assert(self.settled(ii, t as int));
                assert forall|k: int| 0 <= k < len implies dp@[#[trigger] self.kid(ii, k)] == self.down(e, sm, sf, self.kid(ii, k)) by {
                    self.lemma_kid(ii, k);
                    assert(!self.settled(self.kid(ii, k), t as int));
                }
                lemma_monoid(e, sf, desc@[ii], e, e);
                assert(self.span(e, sm, sf, ii, 0, 0, self.below(ii)) == e);
            }
            proof {
                assert(self.base_val(e, sm, sf, desc@[ii]));
                self.lemma_tv_mono(e, sm, sf, desc@[ii], 0, 4);
            }
            let mut ac = desc[i].clone();
            let mut k: usize = 0;
            proof {
                reveal(TreeCata::fwd_ok);
            }
            while k < len
                invariant
                    self.wf(),
                    self.ops_arising(empty, map, fold, sm, sf),
                    e == empty,
                    n == self.n(),
                    0 <= ii < n,
                    ii == i,
                    len == self.child@[ii]@.len(),
                    k <= len,
                    dp@ == dp0,
                    dp@.len() == n,
                    desc@.len() == n,
                    forall|k2: int| 0 <= k2 < len ==> dp0[#[trigger] self.kid(ii, k2)] == self.down(e, sm, sf, self.kid(ii, k2)),
                    self.fwd_ok(e, sm, sf, ii, k as int, ac, desc@, desc0),
                decreases len - k,
            {
                let j = self.child[i][k].0;
                proof {
                    self.lemma_kid(ii, k as int);
                    assert(j as int == self.kid(ii, k as int));
                }
                let ghost ac0 = ac;
                let ghost descb = desc@;
                let dj = ac.clone();
                desc.set(j, dj);
                let x = match &self.par[j] {
                    Some(pr) => &pr.1,
                    None => unreached(),
                };
                proof {
                    assert(ac == sf(self.up(e, sm, sf, ii), self.kids(e, sm, sf, ii, 0, k as int))) by {
                        reveal(TreeCata::fwd_ok);
                    }
                    assert(self.base_val(e, sm, sf, self.up(e, sm, sf, ii)));
                    assert(self.base_val(e, sm, sf, self.kids(e, sm, sf, ii, 0, k as int)));
                    self.lemma_tv_sf(e, sm, sf, self.up(e, sm, sf, ii), self.kids(e, sm, sf, ii, 0, k as int), 0);
                    self.lemma_tv_mono(e, sm, sf, ac, 1, 4);
                    assert(self.base_val(e, sm, sf, dp@[j as int]));
                    self.lemma_tv_mono(e, sm, sf, dp@[j as int], 0, 4);
                }
                let mj = map(&dp[j], x);
                proof {
                    self.lemma_tv_sm(e, sm, sf, dp@[j as int], *x, 0);
                    self.lemma_tv_mono(e, sm, sf, mj, 1, 4);
                }
                ac = fold(&ac, &mj);
                proof {
                    self.lemma_fwd_step(e, sm, sf, ii, k as int, ac0, descb, desc0, dp0[j as int], ac, desc@);
                }
                k += 1;
            }
            proof {
                reveal(TreeCata::fwd_ok);
            }
            let e5 = empty.clone();
            let mut ac = e5;
            let mut k: usize = len;
            let ghost desc1 = desc@;
            proof {
                assert(self.span(e, sm, sf, ii, len as int, len as int, self.below(ii)) == e);
            }
            proof {
                reveal(TreeCata::back_ok);
                assert forall|k2: int| 0 <= k2 < len implies desc@[#[trigger] self.kid(ii, k2)] == sf(self.up(e, sm, sf, ii), self.kids(e, sm, sf, ii, 0, k2))
                    && dp@[self.kid(ii, k2)] == self.down(e, sm, sf, self.kid(ii, k2)) by {}
            }
            while k > 0
                invariant
                    self.wf(),
                    self.ops_arising(empty, map, fold, sm, sf),
                    e == empty,
                    n == self.n(),
                    0 <= ii < n,
                    ii == i,
                    len == self.child@[ii]@.len(),
                    k <= len,
                    dp@.len() == n,
                    desc@.len() == n,
                    ascl@.len() == n,
                    ascr@.len() == n,
                    forall|q: int| 0 <= q < n ==> #[trigger] ascl@[q] == self.kids(e, sm, sf, q, 0, self.ppos@[q]),
                    forall|q: int| 0 <= q < n ==> #[trigger] ascr@[q] == self.kids(e, sm, sf, q, self.ppos@[q], self.child@[q]@.len() as int),
                    self.back_ok(e, sm, sf, ii, k as int, ac, dp@, desc@, dp0, desc0),
                decreases k,
            {
                k -= 1;
                let j = self.child[i][k].0;
                let x = &self.child[i][k].1;
                proof {
                    self.lemma_kid(ii, k as int);
                    assert(j as int == self.kid(ii, k as int));
                }
                let ghost ac0 = ac;
                let ghost dpb = dp@;
                let ghost descb = desc@;
                let ghost dsj = desc@[j as int];
                proof {
                    assert(dsj == sf(self.up(e, sm, sf, ii), self.kids(e, sm, sf, ii, 0, k as int))
                        && dp@[j as int] == self.down(e, sm, sf, j as int)
                        && ac == self.kids(e, sm, sf, ii, k + 1, len as int)) by {
                        reveal(TreeCata::back_ok);
                    }
                    assert(self.base_val(e, sm, sf, self.up(e, sm, sf, ii)));
                    assert(self.base_val(e, sm, sf, self.kids(e, sm, sf, ii, 0, k as int)));
                    self.lemma_tv_sf(e, sm, sf, self.up(e, sm, sf, ii), self.kids(e, sm, sf, ii, 0, k as int), 0);
                    self.lemma_tv_mono(e, sm, sf, dsj, 1, 4);
                    assert(self.base_val(e, sm, sf, ac));
                    self.lemma_tv_mono(e, sm, sf, ac, 0, 1);
                    self.lemma_tv_mono(e, sm, sf, ac, 0, 4);
                    assert(self.base_val(e, sm, sf, dp@[j as int]));
                    self.lemma_tv_mono(e, sm, sf, dp@[j as int], 0, 4);
                    assert(self.base_val(e, sm, sf, ascl@[j as int]));
                    assert(self.base_val(e, sm, sf, ascr@[j as int]));
                    self.lemma_tv_mono(e, sm, sf, ascl@[j as int], 0, 4);
                    self.lemma_tv_mono(e, sm, sf, ascr@[j as int], 0, 3);
                }
                let f1 = fold(&desc[j], &ac);
                proof {
                    self.lemma_tv_sf(e, sm, sf, dsj, ac, 1);
                    self.lemma_tv_mono(e, sm, sf, f1, 2, 4);
                }
                let dj = map(&f1, x);
                proof {
                    self.lemma_tv_sm(e, sm, sf, f1, *x, 2);
                    self.lemma_tv_mono(e, sm, sf, dj, 3, 4);
                }
                desc.set(j, dj);
                let xp = match &self.par[j] {
                    Some(pr) => &pr.1,
                    None => unreached(),
                };
                let mj = map(&dp[j], xp);
                proof {
                    self.lemma_tv_sm(e, sm, sf, dp@[j as int], *xp, 0);
                    self.lemma_tv_mono(e, sm, sf, mj, 1, 4);
                }
                ac = fold(&mj, &ac);
                let tmp = fold(&desc[j], &ascr[j]);
                proof {
                    self.lemma_tv_sf(e, sm, sf, dj, ascr@[j as int], 3);
                }
                let dpj = fold(&ascl[j], &tmp);
                dp.set(j, dpj);
                proof {
                    self.lemma_back_step(e, sm, sf, ii, k as int, ac0, dpb, descb, dp0, desc0, ac, dp@, desc@);
                }
            }
            proof {
                self.lemma_down_step(e, sm, sf, t as int, dp0, desc0, ac, dp@, desc@);
            }
            t += 1;
        }
        proof {
            reveal(TreeCata::down_pass);
            assert forall|v: int| 0 <= v < n implies dp@[v] == #[trigger] self.value(e, sm, sf, v) by {
                if v != 0 {
                    assert(self.par@[v] is Some);
                }
                assert(self.settled(v, n as int));
            }
        }
        dp
    }
}

impl<T> TreeCata<T> {
    /// Roots the tree `g` at `0`: `g[v]` lists the neighbours of `v`, each
    /// with a weight. The parent of each vertex but `0` is its neighbour on
    /// the way to `0`; its children are its other neighbours, in the order
    /// of its list.
    #[verifier::rlimit(50)]
    pub fn from(g: Vec<Vec<(usize, T)>>) -> (r: Self)
        requires
            is_tree(adj_of(g@)),
        ensures
            r.wf(),
            r.n() == g@.len(),
            r.parent(0) is None,
            r.children(0) == g@[0]@,
            forall|v: int| 0 < v < r.n() ==> {
                let pi = #[trigger] r.parent_index(v);
                &&& 0 <= pi < g@[v]@.len()
                &&& r.parent(v) == Some(g@[v]@[pi])
                &&& r.children(v) == g@[v]@.remove(pi)
                &&& r.depth(v) == r.depth(g@[v]@[pi].0 as int) + 1
            },
    {
        let ghost g0 = g@;
        let ghost adj = adj_of(g0);
        let ghost d: Seq<nat> = choose|d: Seq<nat>| levels(adj, d);
        let n = g.len();
        let mut g = g;
        let mut par: Vec<Option<(usize, T)>> = Vec::new();
        let mut child: Vec<Vec<(usize, T)>> = Vec::new();
        let mut bound: Vec<usize> = Vec::new();
        let mut i: usize = 0;
        while i < n
            invariant
                i <= n,
                par@.len() == i,
                child@.len() == i,
                bound@.len() == i,
                forall|v: int| 0 <= v < i ==> #[trigger] par@[v] is None,
                forall|v: int| 0 <= v < i ==> (#[trigger] child@[v])@.len() == 0,
                forall|v: int| 0 <= v < i ==> #[trigger] bound@[v] == n,
            decreases n - i,
        {
            let empty: Vec<(usize, T)> = Vec::new();
            proof {
                assert(empty@.len() == 0);
            }
            par.push(None);
            child.push(empty);
            bound.push(n);
            i += 1;
        }
        let mut order: Vec<usize> = Vec::new();
        order.push(0);
        let ghost mut pos: Seq<int> = Seq::new(n as nat, |x: int| if x == 0 { 0int } else { -1int });
        let ghost mut cstart: Seq<int> = Seq::new(n as nat, |x: int| 0int);
        let ghost mut ppos: Seq<int> = Seq::new(n as nat, |x: int| 0int);
        proof {
            reveal(perm_ok);
            reveal(found_ok);
            reveal(closed_ok);
            reveal(processed_ok);
            reveal(untouched_ok);
        }
        let mut h: usize = 0;
        while h < order.len()
            invariant
                n == g0.len(),
                adj == adj_of(g0),
                is_tree(adj),
                levels(adj, d),
                g@.len() == n,
                par@.len() == n,
                child@.len() == n,
                bound@.len() == n,
                cstart.len() == n,
                ppos.len() == n,
                h <= order@.len(),
                perm_ok(order@, pos, n as int),
                found_ok(adj, d, pos, n as int, h as int),
                closed_ok(adj, d, pos, n as int, h as int),
                processed_ok(g0, adj, d, n as int, pos, h as int, par@, child@, bound@, cstart, ppos),
                untouched_ok(g0, g@, pos, n as int, h as int, par@, bound@, -1),
            decreases n - h,
        {
            proof {
                reveal(perm_ok);
            }
            let v = order[h];
            let ghost vi = v as int;
            let ghost hv = h as int;
            let ghost l = g0[vi]@;
            let ghost len0 = l.len() as int;
            proof {
                assert(pos[vi] == hv);
                reveal(untouched_ok);
                assert(g@[vi]@ == l);
                if vi != 0 {
                    lemma_up(adj, d, vi);
                    reveal(found_ok);
                }
                assert forall|j: int| 0 <= j < len0 implies #[trigger] adj[vi][j] == l[j].0 by {}
            }
            let mut gv: Vec<(usize, T)> = Vec::new();
            let ghost g_before = g@;
            g.set_and_swap(v, &mut gv);
            let mut rev: Vec<(usize, T)> = Vec::new();
            while gv.len() > 0
                invariant
                    len0 == l.len(),
                    gv@.len() + rev@.len() == len0,
                    gv@ == l.subrange(0, gv@.len() as int),
                    forall|j: int| 0 <= j < rev@.len() ==> #[trigger] rev@[j] == l[len0 - 1 - j],
                decreases gv@.len(),
            {
                let ghost gl = gv@.len() as int;
                let e = gv.pop().unwrap();
                proof {
                    assert(e == l[gl - 1]);
                    assert(gv@ =~= l.subrange(0, gl - 1));
                }
                rev.push(e);
            }
            let ghost cs = order@.len() as int;
            proof {
                lemma_processed_set(g0, adj, d, n as int, pos, hv, par@, child@, bound@, cstart, ppos,
                    par@, child@, bound@, cstart.update(vi, cs), ppos, vi);
                cstart = cstart.update(vi, cs);
                lemma_untouched_set(g0, g_before, pos, n as int, hv, par@, bound@, g@, pos, par@, bound@, vi);
                assert forall|j: int| 0 <= j < len0 && (vi == 0 || j != up_at(adj, d, vi)) implies pos[#[trigger] l[j].0 as int] == -1 by {
                    lemma_edge(adj, d, vi, j);
                    let u = l[j].0 as int;
                    if pos[u] >= 0 {
                        reveal(found_ok);
                        assert(pos[tpar(adj, d, u)] < hv);
                    }
                }
                assert(perm_ok(order@, pos, n as int));
            }
            let mut cv: Vec<(usize, T)> = Vec::new();
            let mut left = true;
            let ghost mut pk: int = len0;
            h += 1;
            proof {
                reveal(found_ok);
            }
            while rev.len() > 0
                invariant
                    n == g0.len(),
                    adj == adj_of(g0),
                    is_tree(adj),
                    levels(adj, d),
                    0 <= vi < n,
                    vi == v,
                    h == hv + 1,
                    cstart.len() == n,
                    ppos.len() == n,
                    cstart[vi] == cs,
                    pos[vi] == hv,
                    g@.len() == n,
                    par@.len() == n,
                    child@.len() == n,
                    bound@.len() == n,
                    l == g0[vi]@,
                    len0 == l.len(),
                    forall|j: int| 0 <= j < len0 ==> #[trigger] adj[vi][j] == l[j].0,
                    vi != 0 ==> 0 <= up_at(adj, d, vi) < len0 && 0 <= pos[tpar(adj, d, vi)] < hv,
                    0 <= rev@.len() <= len0,
                    forall|j: int| 0 <= j < rev@.len() ==> #[trigger] rev@[j] == l[len0 - 1 - j],
                    ({
                        let k = len0 - rev@.len();
                        &&& (if pk < k {
                            &&& vi != 0
                            &&& pk == up_at(adj, d, vi)
                            &&& par@[vi] == Some(l[pk])
                            &&& !left
                            &&& cv@ == l.subrange(0, k).remove(pk)
                            &&& bound@[vi] == (if pk + 1 < k { l[pk + 1].0 } else { n as usize })
                        } else {
                            &&& pk == len0
                            &&& par@[vi] is None
                            &&& left
                            &&& cv@ == l.subrange(0, k)
                            &&& bound@[vi] == n
                            &&& vi != 0 ==> k <= up_at(adj, d, vi)
                        })
                        &&& forall|j: int| k <= j < len0 && (vi == 0 || j != up_at(adj, d, vi)) ==> pos[#[trigger] l[j].0 as int] == -1
                        &&& forall|j: int| 0 <= j < k && (vi == 0 || j != up_at(adj, d, vi)) ==> pos[#[trigger] l[j].0 as int] >= 0
                    }),
                    order@.len() == cs + cv@.len(),
                    cs > hv,
                    forall|j: int| 0 <= j < cv@.len() ==> {
                        &&& pos[(#[trigger] cv@[j]).0 as int] == cs + j
                        &&& tpar(adj, d, cv@[j].0 as int) == vi
                        &&& cv@[j].0 != 0
                        &&& (cv@[j].0 as int) < n
                    },
                    perm_ok(order@, pos, n as int),
                    found_ok(adj, d, pos, n as int, h as int),
                    closed_ok(adj, d, pos, n as int, hv),
                    processed_ok(g0, adj, d, n as int, pos, hv, par@, child@, bound@, cstart, ppos),
                    untouched_ok(g0, g@, pos, n as int, hv, par@, bound@, vi),
                decreases rev@.len(),
            {
                let ghost k = len0 - rev@.len();
                let e = rev.pop().unwrap();
                proof {
                    assert(e == l[k]);
                    lemma_edge(adj, d, vi, k);
                }
                let (nv, w) = e;
                let ghost nvi = nv as int;
                if nv == 0 || par[nv].is_some() {
                    proof {
                        if !(vi != 0 && k == up_at(adj, d, vi)) {
                            assert(pos[nvi] == -1);
                            reveal(untouched_ok);
                            assert(par@[nvi] is None);
                        }
                    }
                    let ghost par0 = par@;
                    par.set(v, Some((nv, w)));
                    left = false;
                    proof {
                        pk = k;
                        assert(l.subrange(0, k + 1).remove(pk) =~= l.subrange(0, k));
                        lemma_processed_set(g0, adj, d, n as int, pos, hv, par0, child@, bound@, cstart, ppos,
                            par@, child@, bound@, cstart, ppos, vi);
                        lemma_untouched_set(g0, g@, pos, n as int, hv, par0, bound@, g@, pos, par@, bound@, vi);
                        assert forall|j: int| 0 <= j < k + 1 && (vi == 0 || j != up_at(adj, d, vi)) implies pos[#[trigger] l[j].0 as int] >= 0 by {}
                        assert(vi != 0);
                        assert(pk == up_at(adj, d, vi));
                        assert(par@[vi] == Some(l[pk]));
                        assert(cv@ == l.subrange(0, k + 1).remove(pk));
                        assert(bound@[vi] == n);
                    }
                } else {
                    proof {
                        if vi != 0 && k == up_at(adj, d, vi) {
                            if nvi != 0 {
                                reveal(processed_ok);
                                assert(par@[nvi] is Some);
                            }
                            assert(false);
                        }
                        reveal(perm_ok);
                    }
                    let ghost bound0 = bound@;
                    proof {
                        if pk + 1 < k {
                            assert(adj[vi][pk + 1] == l[pk + 1].0);
                            assert((adj[vi][pk + 1] as int) < n);
                        }
                    }
                    if !left && bound[v] == n {
                        bound.set(v, nv);
                    }
                    proof {
                        lemma_processed_set(g0, adj, d, n as int, pos, hv, par@, child@, bound0, cstart, ppos,
                            par@, child@, bound@, cstart, ppos, vi);
                        lemma_untouched_set(g0, g@, pos, n as int, hv, par@, bound0, g@, pos, par@, bound@, vi);
                    }
                    let ghost ol = order@.len() as int;
                    let ghost pos0 = pos;
                    cv.push((nv, w));
                    proof {
                        lemma_push(order@, pos, n as int, nvi);
                        lemma_found_push(adj, d, pos, n as int, h as int, nvi, ol);
                        lemma_closed_push(adj, d, pos, n as int, hv, nvi, ol);
                        lemma_processed_push(g0, adj, d, n as int, pos, hv, par@, child@, bound@, cstart, ppos, nvi, ol);
                        lemma_untouched_set(g0, g@, pos, n as int, hv, par@, bound@, g@, pos.update(nvi, ol), par@, bound@, vi);
                        pos = pos.update(nvi, ol);
                        if pk < k {
                            assert(l.subrange(0, k + 1).remove(pk) =~= l.subrange(0, k).remove(pk).push(l[k]));
                        } else {
                            assert(l.subrange(0, k + 1) =~= l.subrange(0, k).push(l[k]));
                        }
                        assert forall|j: int| k + 1 <= j < len0 && (vi == 0 || j != up_at(adj, d, vi)) implies pos[#[trigger] l[j].0 as int] == -1 by {
                            assert(adj[vi][j] != adj[vi][k]);
                        }
                        assert forall|j: int| 0 <= j < k + 1 && (vi == 0 || j != up_at(adj, d, vi)) implies pos[#[trigger] l[j].0 as int] >= 0 by {
                            if j < k {
                                assert(adj[vi][j] != adj[vi][k]);
                                assert(pos0[l[j].0 as int] >= 0);
                            }
                        }
                        assert forall|j: int| 0 <= j < cv@.len() implies {
                            &&& pos[(#[trigger] cv@[j]).0 as int] == cs + j
                            &&& tpar(adj, d, cv@[j].0 as int) == vi
                            &&& cv@[j].0 != 0
                            &&& (cv@[j].0 as int) < n
                        } by {
                            if j < cv@.len() - 1 {
                                assert(pos0[cv@[j].0 as int] == cs + j);
                            }
                        }
                    }
                    order.push(nv);
                    proof {
                        if pk < k {
                            assert(cv@ == l.subrange(0, k + 1).remove(pk));
                            assert(bound@[vi] == (if pk + 1 < k + 1 { l[pk + 1].0 } else { n as usize }));
                        } else {
                            assert(cv@ == l.subrange(0, k + 1));
                            assert(bound@[vi] == n);
                        }
                    }
                }
            }
            proof {
                assert(l.subrange(0, len0) =~= l);
                if vi != 0 {
                    assert(pk < len0);
                }
                assert forall|u: int| 0 < u < n && #[trigger] tpar(adj, d, u) == vi implies pos[u] >= 0 by {
                    lemma_up(adj, d, u);
                    let ku = up_at(adj, d, u);
                    assert(adj[u][ku] as int == vi);
                    assert(adj[adj[u][ku] as int].contains(u as usize));
                    let j = choose|j: int| 0 <= j < adj[vi].len() && adj[vi][j] == u as usize;
                    lemma_edge(adj, d, vi, j);
                    assert(l[j].0 as int == u);
                }
                reveal(perm_ok);
                lemma_closed_extend(adj, d, pos, n as int, hv, vi);
            }
            let ghost child0 = child@;
            let ghost ppos0 = ppos;
            child.set(v, cv);
            proof {
                ppos = ppos.update(vi, pk);
                lemma_processed_set(g0, adj, d, n as int, pos, hv, par@, child0, bound@, cstart, ppos0,
                    par@, child@, bound@, cstart, ppos, vi);
                assert(done_ok(g0, adj, d, vi, par@[vi], child@[vi]@, bound@[vi], ppos[vi], n as int));
                lemma_processed_extend(g0, adj, d, n as int, pos, hv, par@, child@, bound@, cstart, ppos, vi);
                reveal(untouched_ok);
            }
        }
        proof {
            lemma_finish(g0, adj, d, n as int, order@, pos, h as int, par@, child@, bound@, cstart, ppos);
        }
        TreeCata {
            par,
            order,
            child,
            bound,
            depth: Ghost(d),
            pos: Ghost(pos),
            cstart: Ghost(cstart),
            ppos: Ghost(ppos),
        }
    }
}


/// One for each vertex.
spec fn count_map<T>() -> spec_fn(int, T) -> int {
    |a: int, w: T| a + 1
}

/// Adding up.
spec fn count_fold() -> spec_fn(int, int) -> int {
    |a: int, b: int| a + b
}

impl<T> TreeCata<T> {
    /// The vertex `k` levels above `u`.
    spec fn above(&self, u: int, k: nat) -> int
        decreases k,
    {
        if k == 0 {
            u
        } else {
            self.par@[self.above(u, (k - 1) as nat)].unwrap().0 as int
        }
    }

    /// The vertices of the subtree of `v`, `v` among them.
    spec fn under(&self, v: int) -> Set<int> {
        Set::new(|u: int| 0 <= u < self.n() && self.depth@[u] >= self.depth@[v] && self.above(u, (self.depth@[u] - self.depth@[v]) as nat) == v)
    }

    /// The number of vertices in the subtree of `v`.
    spec fn size(&self, v: int) -> int {
        self.under(v).len() as int
    }

    /// The sizes of the children `a..b` of `v`.
    spec fn ksum(&self, v: int, a: int, b: int) -> int
        decreases b - a,
    {
        if b <= a {
            0
        } else {
            self.ksum(v, a, b - 1) + self.size(self.kid(v, b - 1))
        }
    }

    /// The vertices of the subtrees of the children before `i` of `v`.
    spec fn kunder(&self, v: int, i: int) -> Set<int> {
        Set::new(|u: int| exists|k: int| 0 <= k < i && #[trigger] self.under(self.kid(v, k)).contains(u))
    }

    /// The vertex `k` levels above `u` is a vertex `k` levels higher.
    proof fn lemma_above(&self, u: int, k: nat)
        requires
            self.wf(),
            0 <= u < self.n(),
            k <= self.depth@[u],
        ensures
            0 <= self.above(u, k) < self.n(),
            self.depth@[self.above(u, k)] == self.depth@[u] - k,
        decreases k,
    {
        if k > 0 {
            self.lemma_above(u, (k - 1) as nat);
            let w = self.above(u, (k - 1) as nat);
            assert(w != 0);
            assert(self.par@[w] is Some);
        }
    }

    /// The subtree of `v` holds `v` and at most every vertex.
    proof fn lemma_under(&self, v: int)
        requires
            self.wf(),
            0 <= v < self.n(),
        ensures
            self.under(v).finite(),
            self.under(v).contains(v),
            1 <= self.size(v) <= self.n(),
    {
        let r = vstd::set_lib::set_int_range(0, self.n());
        vstd::set_lib::lemma_int_range(0, self.n());
        assert(self.under(v).subset_of(r));
        vstd::set_lib::lemma_len_subset(self.under(v), r);
        assert(self.above(v, 0) == v);
        assert(self.under(v).contains(v));
        if self.under(v).len() == 0 {
            assert(self.under(v) =~= Set::empty());
        }
    }

    /// The subtree of `0` is the whole tree.
    proof fn lemma_under_root(&self)
        requires
            self.wf(),
        ensures
            self.size(0) == self.n(),
    {
        let r = vstd::set_lib::set_int_range(0, self.n());
        vstd::set_lib::lemma_int_range(0, self.n());
        assert forall|u: int| r.contains(u) implies self.under(0).contains(u) by {
            self.lemma_above(u, self.depth@[u]);
            let w = self.above(u, self.depth@[u]);
            if w != 0 {
                assert(self.par@[w] is Some);
            }
        }
        assert(self.under(0) =~= r);
    }

    /// The subtree of a child lies in the subtree of `v`, without `v`.
    proof fn lemma_under_kid(&self, v: int, k: int)
        requires
            self.wf(),
            0 <= v < self.n(),
            0 <= k < self.child@[v]@.len(),
        ensures
            self.under(self.kid(v, k)).subset_of(self.under(v).remove(v)),
    {
        self.lemma_kid(v, k);
        let c = self.kid(v, k);
        assert forall|u: int| self.under(c).contains(u) implies self.under(v).remove(v).contains(u) by {
            let j = (self.depth@[u] - self.depth@[c]) as nat;
            assert(self.above(u, j + 1) == self.par@[self.above(u, j)].unwrap().0 as int);
            assert((self.depth@[u] - self.depth@[v]) as nat == j + 1);
        }
    }

    /// A vertex of the subtree of `v` other than `v` lies in the subtree of
    /// a child.
    proof fn lemma_under_split(&self, v: int, u: int)
        requires
            self.wf(),
            0 <= v < self.n(),
            self.under(v).contains(u),
            u != v,
        ensures
            self.kunder(v, self.child@[v]@.len() as int).contains(u),
    {
        let j = (self.depth@[u] - self.depth@[v]) as nat;
        assert(j > 0);
        self.lemma_above(u, (j - 1) as nat);
        let c = self.above(u, (j - 1) as nat);
        assert(c != 0);
        assert(self.par@[c] is Some);
        assert(self.above(u, j) == self.par@[c].unwrap().0 as int);
        let k = self.pos@[c] - self.cstart@[v];
        assert(0 <= k < self.child@[v]@.len() && self.child@[v]@[k].0 == c);
        assert(self.kid(v, k) == c);
        assert(self.under(c).contains(u));
    }

    /// The subtrees of the children before `i` hold `ksum` vertices.
    proof fn lemma_kunder(&self, v: int, i: int)
        requires
            self.wf(),
            0 <= v < self.n(),
            0 <= i <= self.child@[v]@.len(),
        ensures
            self.kunder(v, i).finite(),
            self.kunder(v, i).len() == self.ksum(v, 0, i),
            self.kunder(v, i).subset_of(self.under(v).remove(v)),
        decreases i,
    {
        if i == 0 {
            assert(self.kunder(v, 0) =~= Set::empty());
        } else {
            self.lemma_kunder(v, i - 1);
            let prev = self.kunder(v, i - 1);
            let c = self.kid(v, i - 1);
            self.lemma_kid(v, i - 1);
            self.lemma_under(c);
            self.lemma_under_kid(v, i - 1);
            assert(self.kunder(v, i) =~= prev + self.under(c));
            assert forall|u: int| prev.contains(u) implies !self.under(c).contains(u) by {
                let k = choose|k: int| 0 <= k < i - 1 && #[trigger] self.under(self.kid(v, k)).contains(u);
                self.lemma_kid(v, k);
                let c2 = self.kid(v, k);
                if self.under(c).contains(u) {
                    assert(self.above(u, (self.depth@[u] - self.depth@[c]) as nat) == c);
                    assert(self.above(u, (self.depth@[u] - self.depth@[c2]) as nat) == c2);
                }
            }
            assert(prev.disjoint(self.under(c)));
            vstd::set_lib::lemma_set_disjoint_lens(prev, self.under(c));
        }
    }

    /// The children's subtrees hold every vertex of the subtree of `v` but
    /// `v`.
    proof fn lemma_ksum_all(&self, v: int)
        requires
            self.wf(),
            0 <= v < self.n(),
        ensures
            self.ksum(v, 0, self.child@[v]@.len() as int) == self.size(v) - 1,
    {
        let len = self.child@[v]@.len() as int;
        self.lemma_kunder(v, len);
        self.lemma_under(v);
        assert forall|u: int| self.under(v).remove(v).contains(u) implies self.kunder(v, len).contains(u) by {
            self.lemma_under_split(v, u);
        }
        assert(self.kunder(v, len) =~= self.under(v).remove(v));
    }

    /// The sizes of the children split at `b`.
    proof fn lemma_ksum_split(&self, v: int, a: int, b: int, c: int)
        requires
            a <= b <= c,
        ensures
            self.ksum(v, a, c) == self.ksum(v, a, b) + self.ksum(v, b, c),
        decreases c - b,
    {
        if c > b {
            self.lemma_ksum_split(v, a, b, c - 1);
        }
    }

    /// Counting, the fold of the children `a..b` of `v` is the number of
    /// vertices in their subtrees.
    proof fn lemma_span_count(&self, v: int, a: int, b: int)
        requires
            self.wf(),
            0 <= v < self.n(),
            0 <= a <= b <= self.child@[v]@.len(),
        ensures
            self.span(0int, count_map(), count_fold(), v, a, b, self.below(v)) == self.ksum(v, a, b),
        decreases self.below(v), b - a,
    {
        if b > a {
            self.lemma_span_count(v, a, b - 1);
            self.lemma_kid(v, b - 1);
            let c = self.kid(v, b - 1);
            self.lemma_down_count(c);
        }
    }

    /// Counting, the subtree value of `v` is the number of vertices below
    /// it.
    proof fn lemma_down_count(&self, v: int)
        requires
            self.wf(),
            0 <= v < self.n(),
        ensures
            self.down(0int, count_map(), count_fold(), v) == self.size(v) - 1,
        decreases self.below(v), self.child@[v]@.len() + 1,
    {
        self.lemma_span_count(v, 0, self.child@[v]@.len() as int);
        self.lemma_ksum_all(v);
    }

    /// Counting, what the rest of the tree hands `c` is the number of
    /// vertices outside its subtree.
    proof fn lemma_up_count(&self, c: int)
        requires
            self.wf(),
            0 <= c < self.n(),
        ensures
            self.up(0int, count_map(), count_fold(), c) == self.n() - self.size(c),
        decreases self.depth@[c],
    {
        if c == 0 {
            self.lemma_under_root();
        } else {
            assert(self.par@[c] is Some);
            self.lemma_child_index(c);
            let p = self.parent(c).unwrap().0 as int;
            let k = self.child_index(c);
            let len = self.child@[p]@.len() as int;
            self.lemma_kid(p, k);
            self.lemma_up_count(p);
            self.lemma_span_count(p, 0, k);
            self.lemma_span_count(p, k + 1, len);
            self.lemma_ksum_split(p, 0, k + 1, len);
            self.lemma_ksum_all(p);
            assert(self.ksum(p, 0, k + 1) == self.ksum(p, 0, k) + self.size(c));
            assert(self.up(0int, count_map(), count_fold(), c) == self.up_to(0int, count_map(), count_fold(), c, self.depth(c)));
        }
    }

    /// Rerooting takes in the whole tree: counting one for each vertex
    /// (`empty` zero, `map` adding one, `fold` adding), the value of the
    /// tree rooted at any vertex is the number of the other vertices, on
    /// every tree, however deep.
    pub proof fn lemma_value_counts(&self, v: int)
        requires
            self.wf(),
            0 <= v < self.n(),
        ensures
            self.value(0int, (|a: int, w: T| a + 1), (|a: int, b: int| a + b), v) == self.n() - 1,
    {
        let len = self.child@[v]@.len() as int;
        let pp = self.ppos@[v];
        self.lemma_span_count(v, 0, pp);
        self.lemma_span_count(v, pp, len);
        self.lemma_ksum_split(v, 0, pp, len);
        self.lemma_ksum_all(v);
        self.lemma_up_count(v);
        assert(count_map::<T>() == (|a: int, w: T| a + 1));
        assert(count_fold() == (|a: int, b: int| a + b));
    }
}

} // verus!
