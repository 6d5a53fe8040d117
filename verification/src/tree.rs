//! A tree given by adjacency lists, with a catamorphism computed at every
//! vertex as the root.
//!
//! What `cata` computes is stated as a relation between inputs and possible
//! outcomes of the closures: each value is one that the closures can give
//! (`call_ensures`) on the values computed before it, and the clone of the
//! empty value is one that `clone` can give. With closures that return one
//! value only on each input, the relation is a function.
use vstd::prelude::*;

use crate::tree_cata::{adj_of, is_tree};

verus! {

/// The position of `x` in the list of `y`.
pub open spec fn pos<T>(g: Seq<Vec<(usize, T)>>, y: int, x: int) -> int {
    choose|j: int| 0 <= j < g[y]@.len() && g[y]@[j].0 == x
}

/// A tree.
pub struct Tree<T> {
    g: Vec<Vec<(usize, T)>>,
}

impl<T> Tree<T> {
    /// The adjacency lists: vertex `v` is joined to `l.0` by an edge of
    /// weight `l.1`, for each `l` in its list.
    pub closed spec fn lists(&self) -> Seq<Vec<(usize, T)>> {
        self.g@
    }

    /// The number of vertices.
    pub open spec fn n(&self) -> int {
        self.lists().len() as int
    }

    pub open spec fn wf(&self) -> bool {
        is_tree(adj_of(self.lists()))
    }

    /// Entry `k` of `x`'s list exists.
    pub open spec fn has(&self, x: int, k: int) -> bool {
        0 <= x < self.n() && 0 <= k < self.lists()[x]@.len()
    }

    /// `u` is a possible share that neighbour `k` of `x` hands `x`: `map` of
    /// a possible value of the neighbour's side of the tree (its list folded
    /// without `x`) and the weight in the neighbour's list; `f` bounds the
    /// depth followed.
    pub open spec fn share<U: Clone, M: Fn(&U, &T) -> U, F: Fn(&U, &U) -> U>(
        &self,
        e: U,
        map: M,
        fold: F,
        x: int,
        k: int,
        f: nat,
        u: U,
    ) -> bool
        decreases f, 0int,
    {
        if f == 0 || !self.has(x, k) {
            cloned(e, u)
        } else {
            let y = self.lists()[x]@[k].0 as int;
            let j = pos(self.lists(), y, x);
            if self.has(y, j) {
                exists|w: U| self.without(e, map, fold, y, j, (f - 1) as nat, w) && #[trigger] call_ensures(map, (&w, &self.lists()[y]@[j].1), u)
            } else {
                cloned(e, u)
            }
        }
    }

    /// `u` is a possible left fold, starting from the empty value, of the
    /// shares of the neighbours `0..i` of `x`.
    pub open spec fn prefix<U: Clone, M: Fn(&U, &T) -> U, F: Fn(&U, &U) -> U>(
        &self,
        e: U,
        map: M,
        fold: F,
        x: int,
        i: int,
        f: nat,
        u: U,
    ) -> bool
        decreases f, i + 1,
    {
        if i <= 0 || !(0 <= x < self.n()) || i > self.lists()[x]@.len() {
            cloned(e, u)
        } else {
            exists|a: U, c: U|
                #![trigger call_ensures(fold, (&a, &c), u)]
                self.prefix(e, map, fold, x, i - 1, f, a) && self.share(e, map, fold, x, i - 1, f, c) && call_ensures(fold, (&a, &c), u)
        }
    }

    /// `u` is a possible right fold, ending with the empty value, of the
    /// shares of the neighbours of `x` from `i` on.
    pub open spec fn suffix<U: Clone, M: Fn(&U, &T) -> U, F: Fn(&U, &U) -> U>(
        &self,
        e: U,
        map: M,
        fold: F,
        x: int,
        i: int,
        f: nat,
        u: U,
    ) -> bool
        decreases f, (if 0 <= x < self.n() { self.lists()[x]@.len() as int } else { 0 }) - i + 2,
    {
        if !(0 <= x < self.n()) || i < 0 || i >= self.lists()[x]@.len() {
            cloned(e, u)
        } else {
            exists|c: U, b: U|
                #![trigger call_ensures(fold, (&c, &b), u)]
                self.share(e, map, fold, x, i, f, c) && self.suffix(e, map, fold, x, i + 1, f, b) && call_ensures(fold, (&c, &b), u)
        }
    }

    /// `u` is a possible value of `x` with its neighbour `j` cut off: `fold`
    /// of the left fold of the shares before `j` and the right fold of those
    /// after.
    pub open spec fn without<U: Clone, M: Fn(&U, &T) -> U, F: Fn(&U, &U) -> U>(
        &self,
        e: U,
        map: M,
        fold: F,
        x: int,
        j: int,
        f: nat,
        u: U,
    ) -> bool
        decreases f, (if 0 <= x < self.n() { self.lists()[x]@.len() as int } else { 0 }) + 4,
    {
        if !self.has(x, j) {
            cloned(e, u)
        } else {
            exists|a: U, b: U|
                #![trigger call_ensures(fold, (&a, &b), u)]
                self.prefix(e, map, fold, x, j, f, a) && self.suffix(e, map, fold, x, j + 1, f, b) && call_ensures(fold, (&a, &b), u)
        }
    }

    /// `u` is a possible value of the tree rooted at `v`: the shares of all
    /// its neighbours, in the order of its list, folded from the right.
    pub open spec fn value<U: Clone, M: Fn(&U, &T) -> U, F: Fn(&U, &U) -> U>(&self, e: U, map: M, fold: F, v: int, u: U) -> bool {
        self.suffix(e, map, fold, v, 0, self.n() as nat, u)
    }

    /// The closures accept every argument that can arise: `map` every
    /// possible side value with its weight, `fold` every pair of possible
    /// values that are folded.
    pub open spec fn calls_ok<U: Clone, M: Fn(&U, &T) -> U, F: Fn(&U, &U) -> U>(&self, e: U, map: M, fold: F) -> bool {
        &&& forall|y: int, j: int, f: nat, w: U|
            self.has(y, j) && f < self.n() && #[trigger] self.without(e, map, fold, y, j, f, w) ==> call_requires(map, (&w, &self.lists()[y]@[j].1))
        &&& forall|x: int, i: int, f: nat, a: U, c: U|
            #![trigger self.prefix(e, map, fold, x, i, f, a), self.share(e, map, fold, x, i, f, c)]
            self.has(x, i) && f <= self.n() && self.prefix(e, map, fold, x, i, f, a) && self.share(e, map, fold, x, i, f, c) ==> call_requires(fold, (&a, &c))
        &&& forall|x: int, i: int, f: nat, c: U, b: U|
            #![trigger self.share(e, map, fold, x, i, f, c), self.suffix(e, map, fold, x, i + 1, f, b)]
            self.has(x, i) && f <= self.n() && self.share(e, map, fold, x, i, f, c) && self.suffix(e, map, fold, x, i + 1, f, b) ==> call_requires(fold, (&c, &b))
        &&& forall|x: int, j: int, f: nat, a: U, b: U|
            #![trigger self.prefix(e, map, fold, x, j, f, a), self.suffix(e, map, fold, x, j + 1, f, b)]
            self.has(x, j) && f <= self.n() && self.prefix(e, map, fold, x, j, f, a) && self.suffix(e, map, fold, x, j + 1, f, b) ==> call_requires(fold, (&a, &b))
    }
}

impl<T> Tree<T> {
    /// The tree with the given adjacency lists.
    pub fn from(g: Vec<Vec<(usize, T)>>) -> (r: Self)
        requires
            is_tree(adj_of(g@)),
        ensures
            r.wf(),
            r.lists() == g@,
    {
        Tree { g }
    }

    /// Where `x` stands in the list of its neighbour `y`.
    fn find(&self, y: usize, x: usize) -> (j: usize)
        requires
            self.wf(),
            y < self.n(),
            x < self.n(),
            adj_of(self.lists())[y as int].contains(x),
        ensures
            j == pos(self.lists(), y as int, x as int),
            j < self.lists()[y as int]@.len(),
            self.lists()[y as int]@[j as int].0 == x,
    {
        let ghost adj = adj_of(self.lists());
        proof {
            assert(adj[y as int] == crate::tree_cata::nbrs(self.g@[y as int]@));
        }
        let m = self.g[y].len();
        let mut j: usize = 0;
        while j < m && self.g[y][j].0 != x
            invariant
                y < self.g@.len(),
                m == self.lists()[y as int]@.len(),
                adj[y as int] == crate::tree_cata::nbrs(self.g@[y as int]@),
                adj[y as int].contains(x),
                j <= m,
                forall|i: int| 0 <= i < j ==> self.lists()[y as int]@[i].0 != x,
            decreases m - j,
        {
            j += 1;
        }
        proof {
            let i = choose|i: int| 0 <= i < adj[y as int].len() && adj[y as int][i] == x;
            assert(adj[y as int][i] == self.lists()[y as int]@[i].0);
            let p = pos(self.lists(), y as int, x as int);
            assert(0 <= p < self.lists()[y as int]@.len() && self.lists()[y as int]@[p].0 == x);
            assert(adj[y as int][p] == x && adj[y as int][j as int] == x);
        }
        j
    }
}


impl<T> Tree<T> {
    /// What neighbour `k` of `x` hands `x`.
    fn share_exec<U: Clone, M: Fn(&U, &T) -> U, F: Fn(&U, &U) -> U>(
        &self,
        empty: &U,
        map: &M,
        fold: &F,
        x: usize,
        k: usize,
        f: usize,
    ) -> (r: U)
        requires
            self.wf(),
            self.calls_ok(*empty, *map, *fold),
            f <= self.n(),
            x < self.n(),
            k < self.lists()[x as int]@.len(),
        ensures
            self.share(*empty, *map, *fold, x as int, k as int, f as nat, r),
        decreases f, 0int,
    {
        if f == 0 {
            let r = empty.clone();
            return r;
        }
        let ghost adj = adj_of(self.lists());
        proof {
            assert(adj[x as int] == crate::tree_cata::nbrs(self.g@[x as int]@));
            assert(adj[x as int][k as int] == self.g@[x as int]@[k as int].0);
            assert(adj[x as int][k as int] < adj.len());
            assert(adj[adj[x as int][k as int] as int].contains(x));
        }
        let y = self.g[x][k].0;
        let j = self.find(y, x);
        let v = self.without_exec(empty, map, fold, y, j, f - 1);
        let r = map(&v, &self.g[y][j].1);
        proof {
            assert(self.lists()[x as int]@[k as int].0 == y);
            assert(self.without(*empty, *map, *fold, y as int, j as int, (f - 1) as nat, v) && call_ensures(
                *map,
                (&v, &self.lists()[y as int]@[j as int].1),
                r,
            ));
        }
        r
    }

    /// The value of `x` with its neighbour `j` cut off.
    fn without_exec<U: Clone, M: Fn(&U, &T) -> U, F: Fn(&U, &U) -> U>(
        &self,
        empty: &U,
        map: &M,
        fold: &F,
        x: usize,
        j: usize,
        f: usize,
    ) -> (r: U)
        requires
            self.wf(),
            self.calls_ok(*empty, *map, *fold),
            f <= self.n(),
            x < self.n(),
            j < self.lists()[x as int]@.len(),
        ensures
            self.without(*empty, *map, *fold, x as int, j as int, f as nat, r),
        decreases f, 1int,
    {
        let ghost e = *empty;
        let m = self.g[x].len();
        let mut acc = empty.clone();
        let mut i: usize = 0;
        while i < j
            invariant
                self.wf(),
                self.calls_ok(e, *map, *fold),
                e == *empty,
                f <= self.n(),
                x < self.n(),
                m == self.lists()[x as int]@.len(),
                j < m,
                i <= j,
                self.prefix(e, *map, *fold, x as int, i as int, f as nat, acc),
            decreases j - i,
        {
            let c = self.share_exec(empty, map, fold, x, i, f);
            let ghost a = acc;
            acc = fold(&acc, &c);
            proof {
                let ii = i as int;
                assert(self.prefix(e, *map, *fold, x as int, (ii + 1) - 1, f as nat, a) && self.share(e, *map, *fold, x as int, (ii + 1) - 1, f as nat, c)
                    && call_ensures(*fold, (&a, &c), acc));
                assert(self.prefix(e, *map, *fold, x as int, ii + 1, f as nat, acc));
            }
            i += 1;
        }
        let mut racc = empty.clone();
        let mut i2: usize = m;
        while i2 > j + 1
            invariant
                self.wf(),
                self.calls_ok(e, *map, *fold),
                e == *empty,
                f <= self.n(),
                x < self.n(),
                m == self.lists()[x as int]@.len(),
                j < m,
                j + 1 <= i2 <= m,
                self.suffix(e, *map, *fold, x as int, i2 as int, f as nat, racc),
            decreases i2,
        {
            let c = self.share_exec(empty, map, fold, x, i2 - 1, f);
            let ghost b = racc;
            proof {
                let ii = i2 - 1;
                assert(self.suffix(e, *map, *fold, x as int, ii + 1, f as nat, b));
            }
            racc = fold(&c, &racc);
            proof {
                let ii = i2 - 1;
                assert(self.share(e, *map, *fold, x as int, ii, f as nat, c) && self.suffix(e, *map, *fold, x as int, ii + 1, f as nat, b)
                    && call_ensures(*fold, (&c, &b), racc));
                assert(self.suffix(e, *map, *fold, x as int, ii, f as nat, racc));
            }
            i2 -= 1;
        }
        let r = fold(&acc, &racc);
        proof {
            assert(self.prefix(e, *map, *fold, x as int, j as int, f as nat, acc) && self.suffix(e, *map, *fold, x as int, j + 1, f as nat, racc)
                && call_ensures(*fold, (&acc, &racc), r));
        }
        r
    }

    /// The catamorphism given by `empty`, `map` and `fold`, with each vertex
    /// in turn as the root: at `v`, the share of each neighbour, in the
    /// order of `v`'s list, is `map` of the neighbour's side of the tree and
    /// the weight in the neighbour's list; the shares are folded from the
    /// right ending with `empty`, and a side without `v` folds its shares
    /// before `v`'s place from the left starting with `empty`, then `fold`s
    /// that with the right fold of those after. Each result is a possible
    /// outcome of the closures on the values computed before it (`value`).
    pub fn cata<U: Clone, M: Fn(&U, &T) -> U, F: Fn(&U, &U) -> U>(&self, empty: U, map: M, fold: F) -> (r: Vec<U>)
        requires
            self.wf(),
            self.calls_ok(empty, map, fold),
        ensures
            r@.len() == self.n(),
            forall|v: int| 0 <= v < self.n() ==> #[trigger] self.value(empty, map, fold, v, r@[v]),
    {
        let n = self.g.len();
        let mut dp: Vec<U> = Vec::new();
        let mut v: usize = 0;
        while v < n
            invariant
                self.wf(),
                self.calls_ok(empty, map, fold),
                n == self.n(),
                v <= n,
                dp@.len() == v,
                forall|u: int| 0 <= u < v ==> #[trigger] self.value(empty, map, fold, u, dp@[u]),
            decreases n - v,
        {
            let m = self.g[v].len();
            let mut racc = empty.clone();
            let mut i: usize = m;
            while i > 0
                invariant
                    self.wf(),
                    self.calls_ok(empty, map, fold),
                    n == self.n(),
                    v < n,
                    m == self.lists()[v as int]@.len(),
                    i <= m,
                    self.suffix(empty, map, fold, v as int, i as int, n as nat, racc),
                decreases i,
            {
                let c = self.share_exec(&empty, &map, &fold, v, i - 1, n);
                let ghost b = racc;
                proof {
                    let ii = i - 1;
                    assert(self.suffix(empty, map, fold, v as int, ii + 1, n as nat, b));
                }
                racc = fold(&c, &racc);
                proof {
                    let ii = i - 1;
                    assert(self.share(empty, map, fold, v as int, ii, n as nat, c) && self.suffix(empty, map, fold, v as int, ii + 1, n as nat, b)
                        && call_ensures(fold, (&c, &b), racc));
                    assert(self.suffix(empty, map, fold, v as int, ii, n as nat, racc));
                }
                i -= 1;
            }
            dp.push(racc);
            v += 1;
        }
        dp
    }
}

} // verus!
