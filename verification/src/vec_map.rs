//! An ordered map kept as a vector of entries sorted by key.
use vstd::prelude::*;

use crate::order::TotalOrder;

verus! {

/// The keys of `s` are strictly increasing.
pub open spec fn keys_sorted<K: TotalOrder, V>(s: Seq<(K, V)>) -> bool {
    forall|i: int, j: int| 0 <= i < j < s.len() ==> s[i].0.rank() < s[j].0.rank()
}

/// The map that a sequence of entries stands for; a later entry overrides
/// an earlier one of the same key.
pub open spec fn map_of<K, V>(s: Seq<(K, V)>) -> Map<K, V>
    decreases s.len(),
{
    if s.len() == 0 {
        Map::empty()
    } else {
        map_of(s.drop_last()).insert(s.last().0, s.last().1)
    }
}

/// What `map_of` holds for sorted entries: exactly their keys, each with
/// its value.
pub proof fn lemma_map_of<K: TotalOrder, V>(s: Seq<(K, V)>)
    requires
        keys_sorted(s),
    ensures
        forall|k: K| #[trigger] map_of(s).contains_key(k) <==> exists|i: int| 0 <= i < s.len() && s[i].0 == k,
        forall|i: int| #![trigger s[i]] 0 <= i < s.len() ==> map_of(s).contains_key(s[i].0) && map_of(s)[s[i].0] == s[i].1,
        map_of(s).dom().finite(),
        map_of(s).dom().len() == s.len(),
    decreases s.len(),
{
    if s.len() > 0 {
        let t = s.drop_last();
        lemma_map_of(t);
        assert forall|i: int| 0 <= i < t.len() implies t[i].0 != s.last().0 by {
            assert(t[i] == s[i]);
        }
        assert forall|k: K| #[trigger] map_of(s).contains_key(k) <==> exists|i: int| 0 <= i < s.len() && s[i].0 == k by {
            if map_of(s).contains_key(k) && k != s.last().0 {
                let i = choose|i: int| 0 <= i < t.len() && t[i].0 == k;
                assert(s[i] == t[i]);
            }
            if exists|i: int| 0 <= i < s.len() && s[i].0 == k {
                let i = choose|i: int| 0 <= i < s.len() && s[i].0 == k;
                if i < s.len() - 1 {
                    assert(s[i] == t[i]);
                }
            }
        }
        assert forall|i: int| #![trigger s[i]] 0 <= i < s.len() implies map_of(s).contains_key(s[i].0) && map_of(s)[s[i].0] == s[i].1 by {
            if i < s.len() - 1 {
                assert(s[i] == t[i]);
            }
        }
        assert(!map_of(t).contains_key(s.last().0)) by {
            if map_of(t).contains_key(s.last().0) {
                let i = choose|i: int| 0 <= i < t.len() && t[i].0 == s.last().0;
            }
        }
    }
}

/// Two sorted sequences of entries with the same keys and values stand for
/// the same map.
pub proof fn lemma_map_of_ext<K: TotalOrder, V>(s: Seq<(K, V)>, m: Map<K, V>)
    requires
        keys_sorted(s),
        forall|k: K| m.contains_key(k) <==> exists|i: int| 0 <= i < s.len() && s[i].0 == k,
        forall|i: int| 0 <= i < s.len() ==> m[s[i].0] == s[i].1,
    ensures
        map_of(s) == m,
{
    lemma_map_of(s);
    assert forall|k: K| #[trigger] m.contains_key(k) implies map_of(s)[k] == m[k] by {
        let i = choose|i: int| 0 <= i < s.len() && s[i].0 == k;
        assert(s[i] == s[i]);
    }
    assert(map_of(s) =~= m);
}

proof fn lemma_set_entry<K: TotalOrder, V>(s: Seq<(K, V)>, i: int, k: K, v: V)
    requires
        keys_sorted(s),
        0 <= i < s.len(),
        s[i].0 == k,
    ensures
        keys_sorted(s.update(i, (k, v))),
        map_of(s.update(i, (k, v))) == map_of(s).insert(k, v),
{
    let t = s.update(i, (k, v));
    let m = map_of(s).insert(k, v);
    lemma_map_of(s);
    assert(keys_sorted(t));
    assert forall|q: K| m.contains_key(q) <==> exists|j: int| 0 <= j < t.len() && t[j].0 == q by {
        if q == k {
            assert(t[i].0 == k);
        } else if m.contains_key(q) {
            let j = choose|j: int| 0 <= j < s.len() && s[j].0 == q;
            assert(t[j] == s[j]);
        }
        if exists|j: int| 0 <= j < t.len() && t[j].0 == q {
            let j = choose|j: int| 0 <= j < t.len() && t[j].0 == q;
            if j != i {
                assert(t[j] == s[j]);
            }
        }
    }
    assert forall|j: int| 0 <= j < t.len() implies m[t[j].0] == t[j].1 by {
        if j != i {
            assert(t[j] == s[j]);
            assert(s[j].0 != k);
        }
    }
    lemma_map_of_ext(t, m);
}

proof fn lemma_insert_entry<K: TotalOrder, V>(s: Seq<(K, V)>, i: int, k: K, v: V)
    requires
        keys_sorted(s),
        0 <= i <= s.len(),
        forall|j: int| 0 <= j < i ==> s[j].0.rank() < k.rank(),
        forall|j: int| i <= j < s.len() ==> s[j].0.rank() > k.rank(),
    ensures
        keys_sorted(s.insert(i, (k, v))),
        map_of(s.insert(i, (k, v))) == map_of(s).insert(k, v),
{
    let t = s.insert(i, (k, v));
    let m = map_of(s).insert(k, v);
    lemma_map_of(s);
    assert forall|a: int, b: int| 0 <= a < b < t.len() implies t[a].0.rank() < t[b].0.rank() by {
        if a < i && b < i {
        } else if a < i && b == i {
        } else if a < i {
            assert(t[b] == s[b - 1]);
        } else if a == i {
            assert(t[b] == s[b - 1]);
        } else {
            assert(t[a] == s[a - 1]);
            assert(t[b] == s[b - 1]);
        }
    }
    assert forall|q: K| m.contains_key(q) <==> exists|j: int| 0 <= j < t.len() && t[j].0 == q by {
        if q == k {
            assert(t[i].0 == k);
        } else if m.contains_key(q) {
            let j = choose|j: int| 0 <= j < s.len() && s[j].0 == q;
            if j < i {
                assert(t[j] == s[j]);
            } else {
                assert(t[j + 1] == s[j]);
            }
        }
        if exists|j: int| 0 <= j < t.len() && t[j].0 == q {
            let j = choose|j: int| 0 <= j < t.len() && t[j].0 == q;
            if j < i {
                assert(t[j] == s[j]);
            } else if j > i {
                assert(t[j] == s[j - 1]);
            }
        }
    }
    assert forall|j: int| 0 <= j < t.len() implies m[t[j].0] == t[j].1 by {
        if j < i {
            assert(t[j] == s[j]);
            assert(t[j].0 != k);
        } else if j > i {
            assert(t[j] == s[j - 1]);
            assert(t[j].0 != k);
        }
    }
    lemma_map_of_ext(t, m);
}

proof fn lemma_remove_entry<K: TotalOrder, V>(s: Seq<(K, V)>, i: int)
    requires
        keys_sorted(s),
        0 <= i < s.len(),
    ensures
        keys_sorted(s.remove(i)),
        map_of(s.remove(i)) == map_of(s).remove(s[i].0),
{
    let t = s.remove(i);
    let k = s[i].0;
    let m = map_of(s).remove(k);
    lemma_map_of(s);
    assert forall|a: int, b: int| 0 <= a < b < t.len() implies t[a].0.rank() < t[b].0.rank() by {
        if b < i {
        } else if a < i {
            assert(t[b] == s[b + 1]);
        } else {
            assert(t[a] == s[a + 1]);
            assert(t[b] == s[b + 1]);
        }
    }
    assert forall|q: K| m.contains_key(q) <==> exists|j: int| 0 <= j < t.len() && t[j].0 == q by {
        if m.contains_key(q) {
            let j = choose|j: int| 0 <= j < s.len() && s[j].0 == q;
            if j < i {
                assert(t[j] == s[j]);
            } else {
                assert(j != i);
                assert(t[j - 1] == s[j]);
            }
        }
        if exists|j: int| 0 <= j < t.len() && t[j].0 == q {
            let j = choose|j: int| 0 <= j < t.len() && t[j].0 == q;
            if j < i {
                assert(t[j] == s[j]);
            } else {
                assert(t[j] == s[j + 1]);
            }
        }
    }
    assert forall|j: int| 0 <= j < t.len() implies m[t[j].0] == t[j].1 by {
        if j < i {
            assert(t[j] == s[j]);
        } else {
            assert(t[j] == s[j + 1]);
        }
    }
    lemma_map_of_ext(t, m);
}

/// An ordered map, kept as its entries in increasing order of key.
pub struct VecMap<K, V> {
    entries: Vec<(K, V)>,
}

impl<K: TotalOrder, V: Copy> VecMap<K, V> {
    /// The entries in increasing order of key.
    pub closed spec fn entries(&self) -> Seq<(K, V)> {
        self.entries@
    }

    /// The map.
    pub open spec fn view(&self) -> Map<K, V> {
        map_of(self.entries())
    }

    pub closed spec fn wf(&self) -> bool {
        keys_sorted(self.entries@)
    }

    pub proof fn lemma_view(&self)
        requires
            self.wf(),
        ensures
            keys_sorted(self.entries()),
            forall|k: K| #[trigger] self@.contains_key(k) <==> exists|i: int| 0 <= i < self.entries().len() && self.entries()[i].0 == k,
            forall|i: int| #![trigger self.entries()[i]] 0 <= i < self.entries().len() ==> self@.contains_key(self.entries()[i].0) && self@[self.entries()[i].0] == self.entries()[i].1,
            self@.dom().finite(),
            self@.dom().len() == self.entries().len(),
    {
        lemma_map_of(self.entries@);
    }

    pub fn new() -> (r: Self)
        ensures
            r.wf(),
            r.entries() == Seq::<(K, V)>::empty(),
            r@ == Map::<K, V>::empty(),
    {
        VecMap { entries: Vec::new() }
    }

    pub fn len(&self) -> (r: usize)
        ensures
            r == self.entries().len(),
    {
        self.entries.len()
    }

    /// The entry at position `i` in increasing order of key.
    pub fn entry(&self, i: usize) -> (r: (K, V))
        requires
            i < self.entries().len(),
        ensures
            r == self.entries()[i as int],
    {
        self.entries[i]
    }

    /// The number of keys less than `k`: the position of the first key not
    /// less than `k`.
    pub fn lower_bound(&self, k: &K) -> (r: usize)
        requires
            self.wf(),
        ensures
            r <= self.entries().len(),
            forall|i: int| 0 <= i < r ==> self.entries()[i].0.rank() < k.rank(),
            forall|i: int| r <= i < self.entries().len() ==> self.entries()[i].0.rank() >= k.rank(),
    {
        let mut lo: usize = 0;
        let mut hi: usize = self.entries.len();
        while lo < hi
            invariant
                lo <= hi <= self.entries@.len(),
                keys_sorted(self.entries@),
                forall|i: int| 0 <= i < lo ==> self.entries@[i].0.rank() < k.rank(),
                forall|i: int| hi <= i < self.entries@.len() ==> self.entries@[i].0.rank() >= k.rank(),
            decreases hi - lo,
        {
            let mid = lo + (hi - lo) / 2;
            if self.entries[mid].0.less(k) {
                lo = mid + 1;
            } else {
                hi = mid;
            }
        }
        lo
    }

    /// A reference to the key at position `i`.
    pub fn key_ref(&self, i: usize) -> (r: &K)
        requires
            i < self.entries().len(),
        ensures
            *r == self.entries()[i as int].0,
    {
        &self.entries[i].0
    }

    /// The position of `k`, if it is a key.
    pub fn find(&self, k: &K) -> (r: Option<usize>)
        requires
            self.wf(),
        ensures
            r is None <==> !self@.contains_key(*k),
            r matches Some(i) ==> i < self.entries().len() && self.entries()[i as int].0 == *k,
    {
        proof {
            self.lemma_view();
        }
        let i = self.lower_bound(k);
        if i < self.entries.len() && self.entries[i].0.same(k) {
            proof {
                K::rank_injective(self.entries@[i as int].0, *k);
            }
            Some(i)
        } else {
            proof {
                if self@.contains_key(*k) {
                    let j = choose|j: int| 0 <= j < self.entries@.len() && self.entries@[j].0 == *k;
                    if j < i {
                    } else if j > i {
                        assert(self.entries@[i as int].0.rank() < self.entries@[j].0.rank());
                    }
                }
            }
            None
        }
    }

    /// The value of `k`, if it is a key.
    pub fn get(&self, k: &K) -> (r: Option<V>)
        requires
            self.wf(),
        ensures
            r == (if self@.contains_key(*k) { Some(self@[*k]) } else { None::<V> }),
    {
        proof {
            self.lemma_view();
        }
        match self.find(k) {
            Some(i) => Some(self.entries[i].1),
            None => None,
        }
    }

    /// Maps `k` to `v`; returns the value it replaces.
    pub fn insert(&mut self, k: K, v: V) -> (r: Option<V>)
        requires
            old(self).wf(),
        ensures
            final(self).wf(),
            final(self)@ == old(self)@.insert(k, v),
            r == (if old(self)@.contains_key(k) { Some(old(self)@[k]) } else { None::<V> }),
            old(self)@.contains_key(k) ==> exists|i: int| 0 <= i < old(self).entries().len() && old(self).entries()[i].0 == k
                && final(self).entries() == old(self).entries().update(i, (k, v)),
            !old(self)@.contains_key(k) ==> exists|i: int| 0 <= i <= old(self).entries().len()
                && final(self).entries() == old(self).entries().insert(i, (k, v)),
    {
        proof {
            self.lemma_view();
        }
        let ghost s = self.entries@;
        let i = self.lower_bound(&k);
        if i < self.entries.len() && self.entries[i].0.same(&k) {
            proof {
                K::rank_injective(self.entries@[i as int].0, k);
                lemma_set_entry(s, i as int, k, v);
            }
            let old_v = self.entries[i].1;
            self.entries.set(i, (k, v));
            Some(old_v)
        } else {
            proof {
                if old(self)@.contains_key(k) {
                    let j = choose|j: int| 0 <= j < s.len() && s[j].0 == k;
                    if j > i {
                        assert(s[i as int].0.rank() < s[j].0.rank());
                    }
                }
                assert forall|j: int| i <= j < s.len() implies s[j].0.rank() > k.rank() by {
                    if s[j].0.rank() == k.rank() {
                        K::rank_injective(s[j].0, k);
                        if j > i {
                            assert(s[i as int].0.rank() < s[j].0.rank());
                        }
                    }
                }
                lemma_insert_entry(s, i as int, k, v);
            }
            self.entries.insert(i, (k, v));
            None
        }
    }

    /// Removes the entry at position `i`.
    pub fn remove_at(&mut self, i: usize) -> (r: (K, V))
        requires
            old(self).wf(),
            i < old(self).entries().len(),
        ensures
            final(self).wf(),
            r == old(self).entries()[i as int],
            final(self).entries() == old(self).entries().remove(i as int),
            final(self)@ == old(self)@.remove(r.0),
    {
        proof {
            self.lemma_view();
        }
        proof {
            lemma_remove_entry(self.entries@, i as int);
        }
        self.entries.remove(i)
    }

    /// Removes `k`; returns its value.
    pub fn remove(&mut self, k: &K) -> (r: Option<V>)
        requires
            old(self).wf(),
        ensures
            final(self).wf(),
            final(self)@ == old(self)@.remove(*k),
            r == (if old(self)@.contains_key(*k) { Some(old(self)@[*k]) } else { None::<V> }),
            old(self)@.contains_key(*k) ==> exists|i: int| 0 <= i < old(self).entries().len() && old(self).entries()[i].0 == *k
                && final(self).entries() == old(self).entries().remove(i),
            !old(self)@.contains_key(*k) ==> final(self).entries() == old(self).entries(),
    {
        proof {
            self.lemma_view();
        }
        match self.find(k) {
            Some(i) => {
                let e = self.remove_at(i);
                Some(e.1)
            },
            None => {
                proof {
                    assert(self@.remove(*k) =~= self@);
                }
                None
            },
        }
    }
}

} // verus!
