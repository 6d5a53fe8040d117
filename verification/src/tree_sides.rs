//! What `Tree::value` counts: the sides of a tree seen along its edges.
//!
//! Each entry of a vertex's list leads to one side of the tree: the
//! vertices reached through that neighbour. The sides of a vertex's
//! neighbours hold every other vertex exactly once, so a catamorphism that
//! adds one per vertex counts `n - 1` at every root: no part of the tree is
//! left out, however deep it lies.
use vstd::prelude::*;

use crate::tree::{pos, Tree};
use crate::tree_cata::{adj_of, levels, lemma_edge, lemma_up, nbrs, tpar, up_at};

verus! {

/// The levels of the tree: each vertex's distance from `0`.
spec fn lv<T>(t: &Tree<T>) -> Seq<nat> {
    choose|d: Seq<nat>| levels(adj_of(t.lists()), d)
}

/// Neighbour `k` of `x`.
spec fn nb<T>(t: &Tree<T>, x: int, k: int) -> int {
    t.lists()[x]@[k].0 as int
}

/// The list of `x`'s length.
spec fn deg<T>(t: &Tree<T>, x: int) -> int {
    t.lists()[x]@.len() as int
}

/// The vertex `k` levels above `u`.
spec fn anc<T>(t: &Tree<T>, u: int, k: nat) -> int
    decreases k,
{
    if k == 0 {
        u
    } else {
        tpar(adj_of(t.lists()), lv(t), anc(t, u, (k - 1) as nat))
    }
}

/// The vertices below `v`, `v` among them.
spec fn desc<T>(t: &Tree<T>, v: int) -> Set<int> {
    Set::new(|u: int| 0 <= u < t.n() && lv(t)[u] >= lv(t)[v] && anc(t, u, (lv(t)[u] - lv(t)[v]) as nat) == v)
}

/// The number of vertices below `v`, `v` among them.
spec fn sz<T>(t: &Tree<T>, v: int) -> int {
    desc(t, v).len() as int
}

/// Entry `i` of `y`'s list is a child of `y`.
spec fn isc<T>(t: &Tree<T>, y: int, i: int) -> bool {
    lv(t)[nb(t, y, i)] == lv(t)[y] + 1
}

/// The number of vertices on the side of entry `k` of `x`'s list.
spec fn side<T>(t: &Tree<T>, x: int, k: int) -> int {
    if isc(t, x, k) {
        sz(t, nb(t, x, k))
    } else {
        t.n() - sz(t, x)
    }
}

/// The sides of the entries before `i`.
spec fn psum<T>(t: &Tree<T>, y: int, i: int) -> int
    decreases i,
{
    if i <= 0 {
        0
    } else {
        psum(t, y, i - 1) + side(t, y, i - 1)
    }
}

/// The sides of the entries from `i` on.
spec fn ssum<T>(t: &Tree<T>, y: int, i: int) -> int
    decreases deg(t, y) - i,
{
    if i < 0 || i >= deg(t, y) {
        0
    } else {
        side(t, y, i) + ssum(t, y, i + 1)
    }
}

/// The vertices below the children among the entries before `i`.
spec fn kset<T>(t: &Tree<T>, y: int, i: int) -> Set<int> {
    Set::new(|u: int| exists|i2: int| 0 <= i2 < i && isc(t, y, i2) && #[trigger] desc(t, nb(t, y, i2)).contains(u))
}

/// The sizes of the children among the entries before `i`.
spec fn csum<T>(t: &Tree<T>, y: int, i: int) -> int
    decreases i,
{
    if i <= 0 {
        0
    } else {
        csum(t, y, i - 1) + if isc(t, y, i - 1) { sz(t, nb(t, y, i - 1)) } else { 0 }
    }
}

/// The levels exist, and entries of lists are read off the adjacency.
proof fn lemma_lv<T>(t: &Tree<T>)
    requires
        t.wf(),
    ensures
        levels(adj_of(t.lists()), lv(t)),
        lv(t).len() == t.n(),
{
}

/// Entry `k` of `x`'s list in the adjacency.
proof fn lemma_adj<T>(t: &Tree<T>, x: int, k: int)
    requires
        0 <= x < t.n(),
        0 <= k < deg(t, x),
    ensures
        adj_of(t.lists())[x].len() == deg(t, x),
        adj_of(t.lists())[x][k] as int == nb(t, x, k),
{
    assert(adj_of(t.lists())[x] == nbrs(t.lists()[x]@));
}

/// The vertex `k` levels above `u` is `k` levels higher.
proof fn lemma_anc<T>(t: &Tree<T>, u: int, k: nat)
    requires
        t.wf(),
        0 <= u < t.n(),
        k <= lv(t)[u],
    ensures
        0 <= anc(t, u, k) < t.n(),
        lv(t)[anc(t, u, k)] == lv(t)[u] - k,
    decreases k,
{
    lemma_lv(t);
    if k > 0 {
        lemma_anc(t, u, (k - 1) as nat);
        let w = anc(t, u, (k - 1) as nat);
        lemma_up(adj_of(t.lists()), lv(t), w);
    }
}

/// A vertex at level `0` is `0`.
proof fn lemma_level_zero<T>(t: &Tree<T>, w: int)
    requires
        t.wf(),
        0 <= w < t.n(),
        lv(t)[w] == 0,
    ensures
        w == 0,
{
    lemma_lv(t);
    if w != 0 {
        lemma_up(adj_of(t.lists()), lv(t), w);
    }
}

/// The vertices below `v` are vertices, `v` among them; `0` is below no
/// other vertex.
proof fn lemma_desc<T>(t: &Tree<T>, v: int)
    requires
        t.wf(),
        0 <= v < t.n(),
    ensures
        desc(t, v).finite(),
        desc(t, v).contains(v),
        1 <= sz(t, v) <= t.n(),
        lv(t)[v] > 0 ==> sz(t, v) <= t.n() - 1,
{
    lemma_lv(t);
    let r = vstd::set_lib::set_int_range(0, t.n());
    vstd::set_lib::lemma_int_range(0, t.n());
    assert(desc(t, v).subset_of(r));
    vstd::set_lib::lemma_len_subset(desc(t, v), r);
    assert(anc(t, v, 0) == v);
    assert(desc(t, v).contains(v));
    if desc(t, v).len() == 0 {
        assert(desc(t, v) =~= Set::empty());
    }
    if lv(t)[v] > 0 {
        assert(desc(t, v).subset_of(r.remove(0)));
        vstd::set_lib::lemma_len_subset(desc(t, v), r.remove(0));
    }
}

/// Every vertex is below `0`.
proof fn lemma_root<T>(t: &Tree<T>)
    requires
        t.wf(),
    ensures
        sz(t, 0) == t.n(),
{
    lemma_lv(t);
    let r = vstd::set_lib::set_int_range(0, t.n());
    vstd::set_lib::lemma_int_range(0, t.n());
    assert forall|u: int| r.contains(u) implies desc(t, 0).contains(u) by {
        lemma_anc(t, u, lv(t)[u]);
        lemma_level_zero(t, anc(t, u, lv(t)[u]));
    }
    assert(desc(t, 0) =~= r);
}

/// Entry `i` of `y`'s list is `y`'s parent or one of its children.
proof fn lemma_entry<T>(t: &Tree<T>, y: int, i: int)
    requires
        t.wf(),
        0 <= y < t.n(),
        0 <= i < deg(t, y),
    ensures
        0 <= nb(t, y, i) < t.n(),
        isc(t, y, i) ==> nb(t, y, i) != 0 && tpar(adj_of(t.lists()), lv(t), nb(t, y, i)) == y,
        !isc(t, y, i) ==> y != 0 && lv(t)[nb(t, y, i)] + 1 == lv(t)[y] && up_at(adj_of(t.lists()), lv(t), y) == i,
{
    lemma_lv(t);
    lemma_adj(t, y, i);
    lemma_edge(adj_of(t.lists()), lv(t), y, i);
}

/// The vertices below a child are below its parent, the parent not among
/// them.
proof fn lemma_desc_sub<T>(t: &Tree<T>, y: int, i: int)
    requires
        t.wf(),
        0 <= y < t.n(),
        0 <= i < deg(t, y),
        isc(t, y, i),
    ensures
        desc(t, nb(t, y, i)).subset_of(desc(t, y)),
        !desc(t, nb(t, y, i)).contains(y),
{
    lemma_lv(t);
    lemma_entry(t, y, i);
    let c = nb(t, y, i);
    assert forall|u: int| desc(t, c).contains(u) implies desc(t, y).contains(u) by {
        let k = (lv(t)[u] - lv(t)[c]) as nat;
        assert(anc(t, u, k + 1) == tpar(adj_of(t.lists()), lv(t), anc(t, u, k)));
        assert((lv(t)[u] - lv(t)[y]) as nat == k + 1);
    }
}

/// Two children at the same level have no vertex below both.
proof fn lemma_desc_disj<T>(t: &Tree<T>, c1: int, c2: int)
    requires
        c1 != c2,
        lv(t)[c1] == lv(t)[c2],
    ensures
        desc(t, c1).disjoint(desc(t, c2)),
{
}

/// A vertex below `y` other than `y` is below a child of `y`.
proof fn lemma_desc_split<T>(t: &Tree<T>, y: int, u: int)
    requires
        t.wf(),
        0 <= y < t.n(),
        desc(t, y).contains(u),
        u != y,
    ensures
        kset(t, y, deg(t, y)).contains(u),
{
    lemma_lv(t);
    let adj = adj_of(t.lists());
    let d = lv(t);
    let k = (d[u] - d[y]) as nat;
    assert(k > 0);
    lemma_anc(t, u, (k - 1) as nat);
    let c = anc(t, u, (k - 1) as nat);
    assert(d[c] == d[y] + 1);
    assert(c != 0) by {
        if c == 0 {
            assert(d[0] == 0);
        }
    }
    assert(anc(t, u, k) == tpar(adj, d, c));
    lemma_up(adj, d, c);
    let kk = up_at(adj, d, c);
    assert(adj[c][kk] as int == y);
    assert(adj[adj[c][kk] as int].contains(c as usize));
    let i = choose|i: int| 0 <= i < adj[y].len() && adj[y][i] == c as usize;
    lemma_adj(t, y, i);
    assert(nb(t, y, i) == c);
    assert(desc(t, c).contains(u));
    assert(isc(t, y, i));
}

/// The vertices below the children before entry `i` number `csum`.
proof fn lemma_kset<T>(t: &Tree<T>, y: int, i: int)
    requires
        t.wf(),
        0 <= y < t.n(),
        0 <= i <= deg(t, y),
    ensures
        kset(t, y, i).finite(),
        kset(t, y, i).len() == csum(t, y, i),
        kset(t, y, i).subset_of(desc(t, y).remove(y)),
    decreases i,
{
    lemma_lv(t);
    if i == 0 {
        assert(kset(t, y, 0) =~= Set::empty());
    } else {
        lemma_kset(t, y, i - 1);
        let prev = kset(t, y, i - 1);
        lemma_entry(t, y, i - 1);
        let c = nb(t, y, i - 1);
        if isc(t, y, i - 1) {
            lemma_desc(t, c);
            lemma_desc_sub(t, y, i - 1);
            assert(kset(t, y, i) =~= prev + desc(t, c));
            assert forall|u: int| prev.contains(u) implies !desc(t, c).contains(u) by {
                let i2 = choose|i2: int| 0 <= i2 < i - 1 && isc(t, y, i2) && #[trigger] desc(t, nb(t, y, i2)).contains(u);
                lemma_adj(t, y, i2);
                lemma_adj(t, y, i - 1);
                assert(nb(t, y, i2) != c);
                lemma_desc_disj(t, nb(t, y, i2), c);
            }
            assert(prev.disjoint(desc(t, c)));
            vstd::set_lib::lemma_set_disjoint_lens(prev, desc(t, c));
        } else {
            assert(kset(t, y, i) =~= prev);
        }
    }
}

/// The children of `y` hold all the vertices below it but `y`.
proof fn lemma_children<T>(t: &Tree<T>, y: int)
    requires
        t.wf(),
        0 <= y < t.n(),
    ensures
        csum(t, y, deg(t, y)) == sz(t, y) - 1,
{
    lemma_kset(t, y, deg(t, y));
    lemma_desc(t, y);
    assert forall|u: int| desc(t, y).remove(y).contains(u) implies kset(t, y, deg(t, y)).contains(u) by {
        lemma_desc_split(t, y, u);
    }
    assert(kset(t, y, deg(t, y)) =~= desc(t, y).remove(y));
}


/// The sides of the entries before `i`: the children's sizes, and the rest
/// of the tree once the parent's entry is passed.
proof fn lemma_psum<T>(t: &Tree<T>, y: int, i: int)
    requires
        t.wf(),
        0 <= y < t.n(),
        0 <= i <= deg(t, y),
    ensures
        psum(t, y, i) == csum(t, y, i) + if y != 0 && up_at(adj_of(t.lists()), lv(t), y) < i { t.n() - sz(t, y) } else { 0 },
    decreases i,
{
    lemma_lv(t);
    if i > 0 {
        lemma_psum(t, y, i - 1);
        lemma_entry(t, y, i - 1);
        let k = up_at(adj_of(t.lists()), lv(t), y);
        assert(psum(t, y, i) == psum(t, y, i - 1) + side(t, y, i - 1));
        if isc(t, y, i - 1) {
            assert(csum(t, y, i) == csum(t, y, i - 1) + sz(t, nb(t, y, i - 1)));
            if y != 0 {
                lemma_up(adj_of(t.lists()), lv(t), y);
                lemma_adj(t, y, k);
                assert(k != i - 1);
            }
        } else {
            assert(csum(t, y, i) == csum(t, y, i - 1));
            assert(y != 0 && k == i - 1);
        }
    } else if y != 0 {
        lemma_up(adj_of(t.lists()), lv(t), y);
    }
}

/// The sides of all of a vertex's entries hold every other vertex.
proof fn lemma_total<T>(t: &Tree<T>, y: int)
    requires
        t.wf(),
        0 <= y < t.n(),
    ensures
        psum(t, y, deg(t, y)) == t.n() - 1,
{
    lemma_psum(t, y, deg(t, y));
    lemma_children(t, y);
    if y != 0 {
        lemma_lv(t);
        lemma_up(adj_of(t.lists()), lv(t), y);
        lemma_adj(t, y, up_at(adj_of(t.lists()), lv(t), y));
    } else {
        lemma_root(t);
    }
}

/// Every side holds a vertex, and none holds them all.
proof fn lemma_side_pos<T>(t: &Tree<T>, x: int, k: int)
    requires
        t.wf(),
        0 <= x < t.n(),
        0 <= k < deg(t, x),
    ensures
        1 <= side(t, x, k) <= t.n() - 1,
{
    lemma_entry(t, x, k);
    lemma_desc(t, x);
    if isc(t, x, k) {
        lemma_desc(t, nb(t, x, k));
        lemma_desc_sub(t, x, k);
        lemma_desc(t, x);
        vstd::set_lib::lemma_len_subset(desc(t, nb(t, x, k)), desc(t, x).remove(x));
    }
}

/// The prefix and suffix sums split the total at every entry.
proof fn lemma_split<T>(t: &Tree<T>, y: int, i: int)
    requires
        0 <= i <= deg(t, y),
    ensures
        psum(t, y, i) + ssum(t, y, i) == psum(t, y, deg(t, y)),
    decreases deg(t, y) - i,
{
    if i < deg(t, y) {
        lemma_split(t, y, i + 1);
    }
}

/// The prefix sums do not shrink.
proof fn lemma_psum_mono<T>(t: &Tree<T>, y: int, i: int)
    requires
        t.wf(),
        0 <= y < t.n(),
        0 <= i <= deg(t, y),
    ensures
        0 <= psum(t, y, i),
    decreases i,
{
    if i > 0 {
        lemma_psum_mono(t, y, i - 1);
        lemma_side_pos(t, y, i - 1);
    }
}

/// The suffix sums do not go below zero.
proof fn lemma_ssum_mono<T>(t: &Tree<T>, y: int, i: int)
    requires
        t.wf(),
        0 <= y < t.n(),
        0 <= i <= deg(t, y),
    ensures
        0 <= ssum(t, y, i),
    decreases deg(t, y) - i,
{
    if i < deg(t, y) {
        lemma_ssum_mono(t, y, i + 1);
        lemma_side_pos(t, y, i);
    }
}

/// The two sides of an edge hold every vertex between them.
proof fn lemma_pair<T>(t: &Tree<T>, x: int, k: int)
    requires
        t.wf(),
        0 <= x < t.n(),
        0 <= k < deg(t, x),
    ensures
        t.has(nb(t, x, k), pos(t.lists(), nb(t, x, k), x)),
        nb(t, nb(t, x, k), pos(t.lists(), nb(t, x, k), x)) == x,
        side(t, x, k) + side(t, nb(t, x, k), pos(t.lists(), nb(t, x, k), x)) == t.n(),
{
    lemma_lv(t);
    let adj = adj_of(t.lists());
    lemma_adj(t, x, k);
    lemma_entry(t, x, k);
    let y = nb(t, x, k);
    assert(adj[adj[x][k] as int].contains(x as usize));
    let i = choose|i: int| 0 <= i < adj[y].len() && adj[y][i] == x as usize;
    lemma_adj(t, y, i);
    assert(0 <= i < deg(t, y) && t.lists()[y]@[i].0 == x);
    let j = pos(t.lists(), y, x);
    lemma_adj(t, y, j);
    lemma_entry(t, y, j);
}

/// With `map` adding one and `fold` adding, a neighbour's share is the
/// number of vertices on its side, once the depth followed reaches it.
proof fn lemma_share<T, M: Fn(&usize, &T) -> usize, F: Fn(&usize, &usize) -> usize>(
    t: &Tree<T>,
    map: M,
    fold: F,
    x: int,
    k: int,
    f: nat,
    u: usize,
)
    requires
        t.wf(),
        forall|a: usize, w: T, r: usize| #[trigger] call_ensures(map, (&a, &w), r) ==> r == a + 1,
        forall|a: usize, b: usize, r: usize| #[trigger] call_ensures(fold, (&a, &b), r) ==> r == a + b,
        0 <= x < t.n(),
        0 <= k < deg(t, x),
        side(t, x, k) <= f,
        t.share(0usize, map, fold, x, k, f, u),
    ensures
        u == side(t, x, k),
    decreases f, 0int,
{
    lemma_side_pos(t, x, k);
    lemma_pair(t, x, k);
    let y = nb(t, x, k);
    let j = pos(t.lists(), y, x);
    let g = (f - 1) as nat;
    assert(t.lists()[x]@[k].0 as int == y);
    let w = choose|w: usize| t.without(0usize, map, fold, y, j, g, w) && #[trigger] call_ensures(map, (&w, &t.lists()[y]@[j].1), u);
    let (a, b) = choose|a: usize, b: usize|
        #![trigger call_ensures(fold, (&a, &b), w)]
        t.prefix(0usize, map, fold, y, j, g, a) && t.suffix(0usize, map, fold, y, j + 1, g, b) && call_ensures(fold, (&a, &b), w);
    lemma_total(t, y);
    lemma_split(t, y, j);
    lemma_psum_mono(t, y, j);
    lemma_ssum_mono(t, y, j + 1);
    lemma_prefix(t, map, fold, y, j, g, a);
    lemma_suffix(t, map, fold, y, j + 1, g, b);
}

/// The left fold of the shares before entry `i` counts their sides.
proof fn lemma_prefix<T, M: Fn(&usize, &T) -> usize, F: Fn(&usize, &usize) -> usize>(
    t: &Tree<T>,
    map: M,
    fold: F,
    y: int,
    i: int,
    g: nat,
    a: usize,
)
    requires
        t.wf(),
        forall|a: usize, w: T, r: usize| #[trigger] call_ensures(map, (&a, &w), r) ==> r == a + 1,
        forall|a: usize, b: usize, r: usize| #[trigger] call_ensures(fold, (&a, &b), r) ==> r == a + b,
        0 <= y < t.n(),
        0 <= i <= deg(t, y),
        psum(t, y, i) <= g,
        t.prefix(0usize, map, fold, y, i, g, a),
    ensures
        a == psum(t, y, i),
    decreases g, i + 1,
{
    if i > 0 {
        let (a0, c) = choose|a0: usize, c: usize|
            #![trigger call_ensures(fold, (&a0, &c), a)]
            t.prefix(0usize, map, fold, y, i - 1, g, a0) && t.share(0usize, map, fold, y, i - 1, g, c) && call_ensures(fold, (&a0, &c), a);
        lemma_side_pos(t, y, i - 1);
        lemma_psum_mono(t, y, i - 1);
        lemma_prefix(t, map, fold, y, i - 1, g, a0);
        lemma_share(t, map, fold, y, i - 1, g, c);
    }
}

/// The right fold of the shares from entry `i` on counts their sides.
proof fn lemma_suffix<T, M: Fn(&usize, &T) -> usize, F: Fn(&usize, &usize) -> usize>(
    t: &Tree<T>,
    map: M,
    fold: F,
    y: int,
    i: int,
    g: nat,
    b: usize,
)
    requires
        t.wf(),
        forall|a: usize, w: T, r: usize| #[trigger] call_ensures(map, (&a, &w), r) ==> r == a + 1,
        forall|a: usize, b: usize, r: usize| #[trigger] call_ensures(fold, (&a, &b), r) ==> r == a + b,
        0 <= y < t.n(),
        0 <= i <= deg(t, y),
        ssum(t, y, i) <= g,
        t.suffix(0usize, map, fold, y, i, g, b),
    ensures
        b == ssum(t, y, i),
    decreases g, deg(t, y) - i + 2,
{
    if i < deg(t, y) {
        let (c, b0) = choose|c: usize, b0: usize|
            #![trigger call_ensures(fold, (&c, &b0), b)]
            t.share(0usize, map, fold, y, i, g, c) && t.suffix(0usize, map, fold, y, i + 1, g, b0) && call_ensures(fold, (&c, &b0), b);
        lemma_side_pos(t, y, i);
        lemma_ssum_mono(t, y, i + 1);
        lemma_suffix(t, map, fold, y, i + 1, g, b0);
        lemma_share(t, map, fold, y, i, g, c);
    }
}

/// The catamorphism at every root takes in the whole tree: with `empty`
/// zero, `map` adding one and `fold` adding, the value of the tree rooted
/// at any vertex `v` is the number of the other vertices, `n - 1`, on
/// every tree, however deep it is.
pub proof fn lemma_value_counts<T, M: Fn(&usize, &T) -> usize, F: Fn(&usize, &usize) -> usize>(
    t: &Tree<T>,
    map: M,
    fold: F,
    v: int,
    u: usize,
)
    requires
        t.wf(),
        forall|a: usize, w: T, r: usize| #[trigger] call_ensures(map, (&a, &w), r) ==> r == a + 1,
        forall|a: usize, b: usize, r: usize| #[trigger] call_ensures(fold, (&a, &b), r) ==> r == a + b,
        0 <= v < t.n(),
        t.value(0usize, map, fold, v, u),
    ensures
        u == t.n() - 1,
{
    lemma_total(t, v);
    lemma_split(t, v, 0);
    lemma_suffix(t, map, fold, v, 0, t.n() as nat, u);
}

} // verus!
