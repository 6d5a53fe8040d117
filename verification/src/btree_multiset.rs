//! A multiset: an ordered map from values to their multiplicities.
use vstd::prelude::*;

use crate::order::TotalOrder;
use crate::vec_map::{keys_sorted, map_of, VecMap};

verus! {

/// The total of the multiplicities in `s`.
pub open spec fn total<K>(s: Seq<(K, usize)>) -> nat
    decreases s.len(),
{
    if s.len() == 0 {
        0
    } else {
        total(s.drop_last()) + s.last().1 as nat
    }
}

proof fn lemma_total_split<K>(s: Seq<(K, usize)>, i: int)
    requires
        0 <= i <= s.len(),
    ensures
        total(s) == total(s.take(i)) + total(s.skip(i)),
    decreases s.len(),
{
    if i < s.len() {
        let d = s.drop_last();
        lemma_total_split(d, i);
        assert(d.take(i) =~= s.take(i));
        assert(s.skip(i).drop_last() =~= d.skip(i));
    } else {
        assert(s.take(i) =~= s);
        assert(s.skip(i).len() == 0);
    }
}

proof fn lemma_total_one<K>(e: (K, usize), x: Seq<(K, usize)>)
    ensures
        total(seq![e] + x) == e.1 + total(x),
{
    let s = seq![e] + x;
    lemma_total_split(s, 1);
    assert(s.take(1) =~= seq![e]);
    assert(seq![e].drop_last() =~= Seq::<(K, usize)>::empty());
    assert(total(seq![e]) == total(Seq::<(K, usize)>::empty()) + e.1 as nat);
    assert(s.skip(1) =~= x);
}

proof fn lemma_total_update<K>(s: Seq<(K, usize)>, i: int, e: (K, usize))
    requires
        0 <= i < s.len(),
    ensures
        total(s.update(i, e)) == total(s) - s[i].1 + e.1,
{
    let u = s.update(i, e);
    lemma_total_split(s, i);
    lemma_total_split(u, i);
    assert(u.take(i) =~= s.take(i));
    assert(s.skip(i) =~= seq![s[i]] + s.skip(i + 1));
    assert(u.skip(i) =~= seq![e] + s.skip(i + 1));
    lemma_total_one(s[i], s.skip(i + 1));
    lemma_total_one(e, s.skip(i + 1));
}

proof fn lemma_total_insert<K>(s: Seq<(K, usize)>, i: int, e: (K, usize))
    requires
        0 <= i <= s.len(),
    ensures
        total(s.insert(i, e)) == total(s) + e.1,
{
    let u = s.insert(i, e);
    lemma_total_split(s, i);
    lemma_total_split(u, i);
    assert(u.take(i) =~= s.take(i));
    assert(u.skip(i) =~= seq![e] + s.skip(i));
    lemma_total_one(e, s.skip(i));
}

proof fn lemma_total_remove<K>(s: Seq<(K, usize)>, i: int)
    requires
        0 <= i < s.len(),
    ensures
        total(s.remove(i)) == total(s) - s[i].1,
{
    let u = s.remove(i);
    lemma_total_split(s, i);
    lemma_total_split(u, i);
    assert(u.take(i) =~= s.take(i));
    assert(s.skip(i) =~= seq![s[i]] + s.skip(i + 1));
    assert(u.skip(i) =~= s.skip(i + 1));
    lemma_total_one(s[i], s.skip(i + 1));
}

/// The values of `s`, each repeated by its multiplicity, in order.
pub open spec fn expand<K>(s: Seq<(K, usize)>) -> Seq<K>
    decreases s.len(),
{
    if s.len() == 0 {
        Seq::empty()
    } else {
        Seq::new(s[0].1 as nat, |_i: int| s[0].0) + expand(s.drop_first())
    }
}

/// `c` copies of `x`.
proof fn lemma_repeat_count<K>(c: nat, x: K, k: K)
    ensures
        Seq::new(c, |_i: int| x).to_multiset().count(k) == if k == x { c } else { 0 },
    decreases c,
{
    broadcast use vstd::seq_lib::group_to_multiset_ensures, vstd::multiset::group_multiset_axioms;
    let s = Seq::new(c, |_i: int| x);
    if c > 0 {
        lemma_repeat_count((c - 1) as nat, x, k);
        assert(s =~= Seq::new((c - 1) as nat, |_i: int| x).push(x));
    } else {
        assert(s =~= Seq::<K>::empty());
    }
}

/// Expanding sorted entries lists each key as often as its multiplicity,
/// in increasing order.
proof fn lemma_expand<K: TotalOrder>(s: Seq<(K, usize)>)
    requires
        keys_sorted(s),
    ensures
        expand(s).len() == total(s),
        forall|i: int, j: int| 0 <= i <= j < expand(s).len() ==> expand(s)[i].rank() <= expand(s)[j].rank(),
        s.len() > 0 ==> forall|i: int| 0 <= i < expand(s).len() ==> s[0].0.rank() <= #[trigger] expand(s)[i].rank(),
        forall|k: K| expand(s).to_multiset().count(k) == if map_of(s).contains_key(k) { map_of(s)[k] as nat } else { 0 },
    decreases s.len(),
{
    broadcast use vstd::seq_lib::group_to_multiset_ensures, vstd::multiset::group_multiset_axioms;
    crate::vec_map::lemma_map_of(s);
    if s.len() > 0 {
        let t = s.drop_first();
        assert(keys_sorted(t)) by {
            assert forall|i: int, j: int| 0 <= i < j < t.len() implies t[i].0.rank() < t[j].0.rank() by {
                assert(t[i] == s[i + 1] && t[j] == s[j + 1]);
            }
        }
        lemma_expand(t);
        crate::vec_map::lemma_map_of(t);
        let a = Seq::new(s[0].1 as nat, |_i: int| s[0].0);
        let e = expand(s);
        assert(e == a + expand(t));
        assert(s =~= seq![s[0]] + t);
        lemma_total_one(s[0], t);
        assert forall|i: int| 0 <= i < expand(t).len() implies s[0].0.rank() < #[trigger] expand(t)[i].rank() by {
            if t.len() > 0 {
                assert(t[0] == s[1]);
            }
        }
        assert forall|i: int| 0 <= i < e.len() implies s[0].0.rank() <= #[trigger] e[i].rank() by {
            if i >= a.len() {
                assert(e[i] == expand(t)[i - a.len()]);
            }
        }
        assert forall|i: int, j: int| 0 <= i <= j < e.len() implies e[i].rank() <= e[j].rank() by {
            if j >= a.len() {
                assert(e[j] == expand(t)[j - a.len()]);
                if i >= a.len() {
                    assert(e[i] == expand(t)[i - a.len()]);
                }
            }
        }
        vstd::seq_lib::lemma_multiset_commutative(a, expand(t));
        assert forall|k: K| e.to_multiset().count(k) == if map_of(s).contains_key(k) { map_of(s)[k] as nat } else { 0 } by {
            lemma_repeat_count(s[0].1 as nat, s[0].0, k);
            if k == s[0].0 {
                assert(!map_of(t).contains_key(k)) by {
                    if map_of(t).contains_key(k) {
                        let i = choose|i: int| 0 <= i < t.len() && t[i].0 == k;
                        assert(t[i] == s[i + 1]);
                    }
                }
            } else {
                if map_of(t).contains_key(k) {
                    let i = choose|i: int| 0 <= i < t.len() && t[i].0 == k;
                    assert(t[i] == s[i + 1]);
                    assert(map_of(s)[s[i + 1].0] == s[i + 1].1);
                } else if map_of(s).contains_key(k) {
                    let i = choose|i: int| 0 <= i < s.len() && s[i].0 == k;
                    assert(i > 0);
                    assert(t[i - 1] == s[i]);
                }
            }
        }
    } else {
        assert(expand(s) =~= Seq::<K>::empty());
    }
}

/// A multiset of ordered values.
pub struct BTreeMultiset<K> {
    map: VecMap<K, usize>,
    len: usize,
}

impl<K: TotalOrder> BTreeMultiset<K> {
    /// The multiplicity of `k`.
    pub closed spec fn count(&self, k: K) -> nat {
        if self.map@.contains_key(k) {
            self.map@[k] as nat
        } else {
            0
        }
    }

    /// The number of elements, counted with multiplicity.
    pub closed spec fn size(&self) -> nat {
        total(self.map.entries())
    }

    /// The elements in increasing order, each repeated by its multiplicity.
    pub closed spec fn elements(&self) -> Seq<K> {
        expand(self.map.entries())
    }

    /// The elements are the multiset itself, in increasing order: each
    /// value occurs `count` times, `size` in all.
    pub proof fn lemma_elements(&self)
        requires
            self.wf(),
        ensures
            self.elements().len() == self.size(),
            forall|i: int, j: int| 0 <= i <= j < self.elements().len() ==> self.elements()[i].rank() <= self.elements()[j].rank(),
            forall|k: K| #[trigger] self.elements().to_multiset().count(k) == self.count(k),
    {
        self.map.lemma_view();
        lemma_expand(self.map.entries());
    }

    pub closed spec fn wf(&self) -> bool {
        &&& self.map.wf()
        &&& forall|i: int| 0 <= i < self.map.entries().len() ==> #[trigger] self.map.entries()[i].1 > 0
        &&& self.len == total(self.map.entries())
    }

    pub fn new() -> (r: Self)
        ensures
            r.wf(),
            forall|k: K| r.count(k) == 0,
            r.size() == 0,
    {
        BTreeMultiset { map: VecMap::new(), len: 0 }
    }

    /// Adds one `k`.
    pub fn insert(&mut self, k: K)
        requires
            old(self).wf(),
            old(self).size() < usize::MAX,
        ensures
            final(self).wf(),
            final(self).count(k) == old(self).count(k) + 1,
            forall|x: K| x != k ==> final(self).count(x) == old(self).count(x),
            final(self).size() == old(self).size() + 1,
    {
        self.insert_n(k, 1)
    }

    /// Adds `n` copies of `k`.
    pub fn insert_n(&mut self, k: K, n: usize)
        requires
            old(self).wf(),
            old(self).size() + n <= usize::MAX,
        ensures
            final(self).wf(),
            final(self).count(k) == old(self).count(k) + n,
            forall|x: K| x != k ==> final(self).count(x) == old(self).count(x),
            final(self).size() == old(self).size() + n,
    {
        if n == 0 {
            return;
        }
        proof {
            self.map.lemma_view();
        }
        let ghost s = self.map.entries();
        let c = match self.map.get(&k) {
            Some(c) => c,
            None => 0,
        };
        proof {
            if self.map@.contains_key(k) {
                let i = choose|i: int| 0 <= i < s.len() && s[i].0 == k;
                lemma_total_split(s, i);
                lemma_total_split(s.skip(i), 1);
                assert(s.skip(i).take(1) =~= seq![s[i]]);
                lemma_total_one(s[i], Seq::empty());
                assert(seq![s[i]] + Seq::<(K, usize)>::empty() =~= seq![s[i]]);
            }
        }
        self.map.insert(k, c + n);
        self.len += n;
        proof {
            let t = self.map.entries();
            self.map.lemma_view();
            if old(self).map@.contains_key(k) {
                let i = choose|i: int| 0 <= i < s.len() && s[i].0 == k && t == s.update(i, (k, (c + n) as usize));
                lemma_total_update(s, i, (k, (c + n) as usize));
            } else {
                let i = choose|i: int| 0 <= i <= s.len() && t == s.insert(i, (k, n));
                lemma_total_insert(s, i, (k, n));
            }
            assert forall|j: int| 0 <= j < t.len() implies #[trigger] t[j].1 > 0 by {
                assert(self.map@[t[j].0] == t[j].1);
                if t[j].0 != k {
                    old(self).map.lemma_view();
                    let q = choose|q: int| 0 <= q < s.len() && s[q].0 == t[j].0;
                    assert(s[q].1 > 0);
                }
            }
        }
    }

    /// Removes one `k`, if there is one.
    pub fn remove(&mut self, k: &K)
        requires
            old(self).wf(),
        ensures
            final(self).wf(),
            final(self).count(*k) == if old(self).count(*k) > 0 { old(self).count(*k) - 1 } else { 0 },
            forall|x: K| x != *k ==> final(self).count(x) == old(self).count(x),
            final(self).size() == old(self).size() - if old(self).count(*k) > 0 { 1int } else { 0 },
    {
        self.remove_n(k, 1)
    }

    /// Removes `n` copies of `k`, or all of them where there are fewer.
    pub fn remove_n(&mut self, k: &K, n: usize)
        requires
            old(self).wf(),
        ensures
            final(self).wf(),
            final(self).count(*k) == if old(self).count(*k) > n { old(self).count(*k) - n } else { 0 },
            forall|x: K| x != *k ==> final(self).count(x) == old(self).count(x),
            final(self).size() == old(self).size() - if old(self).count(*k) > n { n as int } else { old(self).count(*k) as int },
    {
        if n == 0 {
            return;
        }
        proof {
            self.map.lemma_view();
        }
        let ghost s = self.map.entries();
        match self.map.get(k) {
            Some(c) => {
                proof {
                    let i = choose|i: int| 0 <= i < s.len() && s[i].0 == *k;
                    lemma_total_split(s, i);
                    lemma_total_split(s.skip(i), 1);
                    assert(s.skip(i).take(1) =~= seq![s[i]]);
                    lemma_total_one(s[i], Seq::empty());
                    assert(seq![s[i]] + Seq::<(K, usize)>::empty() =~= seq![s[i]]);
                }
                if c <= n {
                    self.map.remove(k);
                    self.len -= c;
                    proof {
                        let t = self.map.entries();
                        let i = choose|i: int| 0 <= i < s.len() && s[i].0 == *k && t == s.remove(i);
                        lemma_total_remove(s, i);
                        self.map.lemma_view();
                        assert forall|j: int| 0 <= j < t.len() implies #[trigger] t[j].1 > 0 by {
                            assert(t[j] == if j < i { s[j] } else { s[j + 1] });
                        }
                    }
                } else {
                    self.map.insert(*k, c - n);
                    self.len -= n;
                    proof {
                        let t = self.map.entries();
                        let i = choose|i: int| 0 <= i < s.len() && s[i].0 == *k && t == s.update(i, (*k, (c - n) as usize));
                        lemma_total_update(s, i, (*k, (c - n) as usize));
                        self.map.lemma_view();
                        assert forall|j: int| 0 <= j < t.len() implies #[trigger] t[j].1 > 0 by {
                            if j != i {
                                assert(t[j] == s[j]);
                            }
                        }
                    }
                }
            },
            None => {},
        }
    }

    /// The least element.
    pub fn min(&self) -> (r: Option<&K>)
        requires
            self.wf(),
        ensures
            r is None <==> self.size() == 0,
            r matches Some(m) ==> self.count(*m) > 0 && forall|x: K| self.count(x) > 0 ==> m.rank() <= x.rank(),
    {
        proof {
            self.map.lemma_view();
            self.lemma_size_zero();
        }
        if self.map.len() == 0 {
            None
        } else {
            proof {
                assert forall|x: K| self.count(x) > 0 implies self.map.entries()[0].0.rank() <= x.rank() by {
                    let i = choose|i: int| 0 <= i < self.map.entries().len() && self.map.entries()[i].0 == x;
                    assert(keys_sorted(self.map.entries()));
                }
            }
            Some(self.map.key_ref(0))
        }
    }

    /// The greatest element.
    pub fn max(&self) -> (r: Option<&K>)
        requires
            self.wf(),
        ensures
            r is None <==> self.size() == 0,
            r matches Some(m) ==> self.count(*m) > 0 && forall|x: K| self.count(x) > 0 ==> x.rank() <= m.rank(),
    {
        proof {
            self.map.lemma_view();
            self.lemma_size_zero();
        }
        let n = self.map.len();
        if n == 0 {
            None
        } else {
            proof {
                assert forall|x: K| self.count(x) > 0 implies x.rank() <= self.map.entries()[n - 1].0.rank() by {
                    let i = choose|i: int| 0 <= i < self.map.entries().len() && self.map.entries()[i].0 == x;
                    assert(keys_sorted(self.map.entries()));
                }
            }
            Some(self.map.key_ref(n - 1))
        }
    }

    proof fn lemma_size_zero(&self)
        requires
            self.wf(),
        ensures
            (self.size() == 0) <==> self.map.entries().len() == 0,
    {
        let s = self.map.entries();
        if s.len() > 0 {
            lemma_total_split(s, s.len() - 1);
            assert(s[s.len() - 1].1 > 0);
            assert(s.skip(s.len() - 1).drop_last().len() == 0);
        }
    }

    pub fn is_empty(&self) -> (r: bool)
        requires
            self.wf(),
        ensures
            r == (self.size() == 0),
    {
        proof {
            self.lemma_size_zero();
        }
        self.map.len() == 0
    }

    /// The number of elements, counted with multiplicity.
    pub fn len(&self) -> (r: usize)
        requires
            self.wf(),
        ensures
            r == self.size(),
    {
        self.len
    }

    /// The distinct elements in increasing order, each with its
    /// multiplicity.
    pub fn counts(&self) -> (r: Vec<(K, usize)>)
        requires
            self.wf(),
        ensures
            forall|i: int, j: int| 0 <= i < j < r@.len() ==> r@[i].0.rank() < r@[j].0.rank(),
            forall|k: K| self.count(k) > 0 <==> exists|i: int| 0 <= i < r@.len() && r@[i].0 == k,
            forall|i: int| 0 <= i < r@.len() ==> self.count(r@[i].0) == r@[i].1,
    {
        proof {
            self.map.lemma_view();
        }
        let mut r: Vec<(K, usize)> = Vec::new();
        let n = self.map.len();
        let mut i: usize = 0;
        while i < n
            invariant
                self.wf(),
                n == self.map.entries().len(),
                i <= n,
                r@ == self.map.entries().take(i as int),
            decreases n - i,
        {
            r.push(self.map.entry(i));
            i += 1;
            proof {
                assert(r@ =~= self.map.entries().take(i as int));
            }
        }
        proof {
            assert(r@ =~= self.map.entries());
            self.map.lemma_view();
            assert forall|k: K| self.count(k) > 0 <==> exists|i: int| 0 <= i < r@.len() && r@[i].0 == k by {
                if exists|i: int| 0 <= i < r@.len() && r@[i].0 == k {
                    let i = choose|i: int| 0 <= i < r@.len() && r@[i].0 == k;
                    assert(r@[i].1 > 0);
                }
            }
        }
        r
    }

    /// The elements in increasing order, each as many times as it occurs.
    pub fn iter(&self) -> (r: Iter<'_, K>)
        requires
            self.wf(),
        ensures
            r.wf(),
            r.rest() == self.elements(),
    {
        Iter::new(self)
    }
}

/// The elements of a multiset in increasing order, with multiplicity.
pub struct Iter<'a, K> {
    ms: &'a BTreeMultiset<K>,
    idx: usize,
    rem: usize,
}

impl<'a, K: TotalOrder> Iter<'a, K> {
    /// The elements not yet returned.
    pub closed spec fn rest(&self) -> Seq<K> {
        let s = self.ms.map.entries();
        if self.idx < s.len() {
            Seq::new(self.rem as nat, |_i: int| s[self.idx as int].0) + expand(s.skip(self.idx + 1))
        } else {
            Seq::empty()
        }
    }

    pub closed spec fn wf(&self) -> bool {
        &&& self.ms.wf()
        &&& self.idx <= self.ms.map.entries().len()
    }

    pub fn new(ms: &'a BTreeMultiset<K>) -> (r: Self)
        requires
            ms.wf(),
        ensures
            r.wf(),
            r.rest() == ms.elements(),
    {
        let ghost s = ms.map.entries();
        if ms.map.len() == 0 {
            Iter { ms, idx: 0, rem: 0 }
        } else {
            let r = Iter { ms, idx: 0, rem: ms.map.entry(0).1 };
            assert(s.skip(1) =~= s.drop_first());
            r
        }
    }

    /// Returns the next element.
    pub fn next(&mut self) -> (r: Option<&'a K>)
        requires
            old(self).wf(),
        ensures
            final(self).wf(),
            old(self).rest().len() == 0 ==> r is None && final(self).rest() == old(self).rest(),
            old(self).rest().len() > 0 ==> (r matches Some(x) && *x == old(self).rest()[0]
                && final(self).rest() == old(self).rest().drop_first()),
    {
        let ghost s = self.ms.map.entries();
        let n = self.ms.map.len();
        if self.idx < n && self.rem == 0 {
            proof {
                assert(Seq::new(0nat, |_i: int| s[self.idx as int].0) + expand(s.skip(self.idx + 1)) =~= expand(s.skip(self.idx + 1)));
                if self.idx + 1 < n {
                    assert(s.skip(self.idx + 1).drop_first() =~= s.skip(self.idx + 2));
                    assert(s.skip(self.idx + 1)[0] == s[self.idx + 1]);
                }
            }
            self.idx += 1;
            if self.idx < n {
                self.rem = self.ms.map.entry(self.idx).1;
            }
        }
        if self.idx >= n {
            return None;
        }
        proof {
            assert(self.ms.map.entries()[self.idx as int].1 > 0);
        }
        let ghost before = self.rest();
        self.rem -= 1;
        proof {
            assert(self.rest() =~= before.drop_first());
        }
        Some(self.ms.map.key_ref(self.idx))
    }
}

} // verus!
