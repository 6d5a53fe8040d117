//! Disjoint sets of `0..n`, joined by union by size with path compression.
use vstd::prelude::*;

use crate::counting::{count_of, lemma_count_bound, lemma_count_same, lemma_count_union};

verus! {

/// A slot of the forest: the parent, or, at a root, the size of its set.
#[derive(Clone, Copy)]
enum Item {
    Parent(usize),
    Size(usize),
}

/// The elements whose representative is `r`.
pub open spec fn in_class(roots: Seq<int>, r: int) -> spec_fn(int) -> bool {
    |x: int| roots[x] == r
}

/// The number of elements of `0..n` whose representative is `r`.
pub open spec fn class_size(roots: Seq<int>, r: int) -> nat {
    count_of(in_class(roots, r), 0, roots.len() as int)
}

/// Disjoint sets of `0..n`.
pub struct UnionFind {
    n: usize,
    buf: Vec<Item>,
    roots: Ghost<Seq<int>>,
    height: Ghost<Seq<nat>>,
    bound: Ghost<nat>,
}

impl UnionFind {
    /// The representative of each element.
    pub closed spec fn roots(&self) -> Seq<int> {
        self.roots@
    }

    /// Each element points, through its parents, at its representative,
    /// and each representative knows the size of its set.
    pub closed spec fn wf(&self) -> bool {
        let n = self.n as int;
        let roots = self.roots@;
        let height = self.height@;
        &&& self.buf@.len() == n
        &&& roots.len() == n
        &&& height.len() == n
        &&& forall|u: int| 0 <= u < n ==> 0 <= #[trigger] roots[u] < n && roots[roots[u]] == roots[u]
        &&& forall|u: int| 0 <= u < n ==> #[trigger] height[u] < self.bound@
        &&& forall|u: int| 0 <= u < n ==> match #[trigger] self.buf@[u] {
            Item::Parent(v) => v < n && roots[u] != u && roots[v as int] == roots[u] && height[u] < height[v as int]
                && height[u] < height[roots[u]],
            Item::Size(s) => roots[u] == u && s == class_size(roots, u),
        }
    }

    /// What `wf` says of the representatives.
    pub proof fn lemma_roots(&self)
        requires
            self.wf(),
        ensures
            forall|u: int| 0 <= u < self.roots().len() ==> 0 <= #[trigger] self.roots()[u] < self.roots().len()
                && self.roots()[self.roots()[u]] == self.roots()[u],
    {
    }

    /// `n` sets of one element each.
    pub fn new(n: usize) -> (r: Self)
        ensures
            r.wf(),
            r.roots() == Seq::new(n as nat, |i: int| i),
    {
        let mut buf: Vec<Item> = Vec::new();
        let mut i: usize = 0;
        while i < n
            invariant
                i <= n,
                buf@.len() == i,
                forall|k: int| 0 <= k < i ==> #[trigger] buf@[k] == Item::Size(1),
            decreases n - i,
        {
            buf.push(Item::Size(1));
            i += 1;
        }
        let ghost roots = Seq::new(n as nat, |i: int| i);
        let r = UnionFind { n, buf, roots: Ghost(roots), height: Ghost(Seq::new(n as nat, |i: int| 0nat)), bound: Ghost(1) };
        proof {
            assert forall|u: int| 0 <= u < n implies class_size(roots, u) == 1 by {
                lemma_count_single(roots, u);
            }
        }
        r
    }

    /// The number of elements.
    pub fn len(&self) -> (r: usize)
        requires
            self.wf(),
        ensures
            r == self.roots().len(),
    {
        self.n
    }

    /// The representative of `u`; the sets stay as they are.
    pub fn repr(&mut self, u: usize) -> (r: usize)
        requires
            old(self).wf(),
            u < old(self).roots().len(),
        ensures
            final(self).wf(),
            final(self).roots() == old(self).roots(),
            r == old(self).roots()[u as int],
    {
        let ghost roots = self.roots@;
        let mut res = u;
        loop
            invariant
                self.wf(),
                roots == self.roots@,
                res < self.n,
                roots[res as int] == roots[u as int],
            ensures
                self.wf(),
                roots == self.roots@,
                res as int == roots[u as int],
            decreases self.bound@ - self.height@[res as int],
        {
            match self.buf[res] {
                Item::Parent(v) => {
                    res = v;
                },
                Item::Size(_) => {
                    break;
                },
            }
        }
        let mut x = u;
        loop
            invariant
                self.wf(),
                roots == self.roots@,
                x < self.n,
                res as int == roots[u as int],
                roots[x as int] == roots[u as int],
            ensures
                self.wf(),
                roots == self.roots@,
            decreases self.bound@ - self.height@[x as int],
        {
            match self.buf[x] {
                Item::Parent(v) => {
                    self.buf.set(x, Item::Parent(res));
                    x = v;
                },
                Item::Size(_) => {
                    break;
                },
            }
        }
        res
    }

    /// Joins the sets of `u` and `v`, the smaller under the larger; returns
    /// whether they were apart.
    pub fn unite(&mut self, u: usize, v: usize) -> (r: bool)
        requires
            old(self).wf(),
            u < old(self).roots().len(),
            v < old(self).roots().len(),
        ensures
            final(self).wf(),
            ({
                let roots = old(self).roots();
                let ru = roots[u as int];
                let rv = roots[v as int];
                let par = if class_size(roots, ru) < class_size(roots, rv) { rv } else { ru };
                &&& r == (ru != rv)
                &&& final(self).roots() == roots.map_values(|x: int| if x == ru || x == rv { par } else { x })
            }),
            final(self).roots()[u as int] == final(self).roots()[v as int],
    {
        let ghost roots = self.roots@;
        let ru = self.repr(u);
        let rv = self.repr(v);
        if ru == rv {
            proof {
                assert(self.roots@ =~= roots.map_values(|x: int| if x == ru || x == rv { ru as int } else { x }));
            }
            return false;
        }
        let su = match self.buf[ru] {
            Item::Size(s) => s,
            Item::Parent(_) => 0,
        };
        let sv = match self.buf[rv] {
            Item::Size(s) => s,
            Item::Parent(_) => 0,
        };
        let n = self.n;
        let (child, par) = if su < sv { (ru, rv) } else { (rv, ru) };
        let ghost new_roots = roots.map_values(|x: int| if x == ru || x == rv { par as int } else { x });
        proof {
            lemma_class_union(roots, ru as int, rv as int, par as int);
        }
        let ghost buf0 = self.buf@;
        let ghost h0 = self.height@;
        proof {
            assert forall|x: int| 0 <= x < n implies match #[trigger] buf0[x] {
                Item::Parent(y) => y < n && roots[x] != x && roots[y as int] == roots[x] && h0[x] < h0[y as int]
                    && h0[x] < h0[roots[x]],
                Item::Size(s) => roots[x] == x && s == class_size(roots, x),
            } by {
                assert(match self.buf@[x] {
                    Item::Parent(y) => y < n && roots[x] != x && roots[y as int] == roots[x] && h0[x] < h0[y as int]
                        && h0[x] < h0[roots[x]],
                    Item::Size(s) => roots[x] == x && s == class_size(roots, x),
                });
            }
            assert(buf0[ru as int] == Item::Size(su));
            assert(buf0[rv as int] == Item::Size(sv));
        }
        self.buf.set(par, Item::Size(su + sv));
        self.buf.set(child, Item::Parent(par));
        let ghost hp = if h0[par as int] > h0[child as int] { h0[par as int] } else { h0[child as int] + 1 };
        proof {
            self.roots = Ghost(new_roots);
            self.height = Ghost(h0.update(par as int, hp));
            if self.bound@ <= hp {
                self.bound = Ghost(hp + 1);
            }
            assert forall|w: int| 0 <= w < n && w != par && w != child && roots[w] == w implies class_size(new_roots, w) == class_size(roots, w) by {
                lemma_count_same(in_class(roots, w), in_class(new_roots, w), 0, n as int);
            }
            assert forall|x: int| 0 <= x < n implies match #[trigger] self.buf@[x] {
                Item::Parent(y) => y < n && new_roots[x] != x && new_roots[y as int] == new_roots[x] && self.height@[x] < self.height@[y as int]
                    && self.height@[x] < self.height@[new_roots[x]],
                Item::Size(s) => new_roots[x] == x && s == class_size(new_roots, x),
            } by {
                if x != par && x != child {
                    assert(self.buf@[x] == buf0[x]);
                }
            }
            assert forall|x: int| 0 <= x < n implies #[trigger] self.height@[x] < self.bound@ by {}
            assert forall|x: int| 0 <= x < n implies 0 <= #[trigger] new_roots[x] < n && new_roots[new_roots[x]] == new_roots[x] by {}
        }
        true
    }

    /// The size of the set of `u`.
    pub fn count(&mut self, u: usize) -> (r: usize)
        requires
            old(self).wf(),
            u < old(self).roots().len(),
        ensures
            final(self).wf(),
            final(self).roots() == old(self).roots(),
            r == class_size(old(self).roots(), old(self).roots()[u as int]),
    {
        let r = self.repr(u);
        match self.buf[r] {
            Item::Size(s) => s,
            Item::Parent(_) => 0,
        }
    }
}

/// Joining two sets adds their sizes.
proof fn lemma_class_union(roots: Seq<int>, ru: int, rv: int, par: int)
    requires
        ru != rv,
        par == ru || par == rv,
    ensures
        ({
            let new_roots = roots.map_values(|x: int| if x == ru || x == rv { par } else { x });
            &&& class_size(new_roots, par) == class_size(roots, ru) + class_size(roots, rv)
            &&& class_size(new_roots, par) <= roots.len()
        }),
{
    let new_roots = roots.map_values(|x: int| if x == ru || x == rv { par } else { x });
    let n = roots.len() as int;
    lemma_count_union(in_class(roots, ru), in_class(roots, rv), in_class(new_roots, par), 0, n);
    lemma_count_bound(in_class(new_roots, par), 0, n);
}

/// A set of one element.
proof fn lemma_count_single(roots: Seq<int>, u: int)
    requires
        roots == Seq::new(roots.len(), |i: int| i),
        0 <= u < roots.len(),
    ensures
        class_size(roots, u) == 1,
{
    let n = roots.len() as int;
    let f = in_class(roots, u);
    assert forall|j: int| 0 <= j < n implies #[trigger] roots[j] == j by {}
    crate::counting::lemma_count_split(f, 0, u, n);
    crate::counting::lemma_count_split(f, u, u + 1, n);
    lemma_count_same(|x: int| false, f, 0, u);
    lemma_count_same(|x: int| false, f, u + 1, n);
    crate::counting::lemma_count_zero(0, u);
    crate::counting::lemma_count_zero(u + 1, n);
    assert(count_of(f, u, u) == 0);
    assert(count_of(f, u, u + 1) == 1) by {
        reveal_with_fuel(count_of, 2);
    }
}

} // verus!
