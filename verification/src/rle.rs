//! Run-length encoding.
use vstd::prelude::*;

use crate::order::TotalOrder;

verus! {

/// The length of the run at the front of `s`: the least `k >= 1` with
/// `k == s.len()` or `!same(s[0], s[k])`; `0` when `s` is empty.
pub open spec fn run_len<T>(s: Seq<T>, same: spec_fn(T, T) -> bool) -> nat
    decreases s.len(),
{
    if s.len() == 0 {
        0
    } else {
        run_len_from(s, same, 1)
    }
}

/// The least `k >= i` with `k == s.len()` or `!same(s[0], s[k])`.
pub open spec fn run_len_from<T>(s: Seq<T>, same: spec_fn(T, T) -> bool, i: nat) -> nat
    decreases s.len() - i,
{
    if i >= s.len() {
        s.len()
    } else if !same(s[0], s[i as int]) {
        i
    } else {
        run_len_from(s, same, i + 1)
    }
}

/// The runs of `s`: each the number of elements it holds and its first
/// element.
pub open spec fn runs<T>(s: Seq<T>, same: spec_fn(T, T) -> bool) -> Seq<(nat, T)>
    decreases s.len(),
{
    if s.len() == 0 {
        Seq::empty()
    } else {
        let k = run_len(s, same);
        proof {
            lemma_run_len(s, same);
        }
        seq![(k, s[0])] + runs(s.skip(k as int), same)
    }
}

proof fn lemma_run_len_from<T>(s: Seq<T>, same: spec_fn(T, T) -> bool, i: nat)
    requires
        1 <= i <= s.len(),
        forall|k: int| 1 <= k < i ==> same(s[0], #[trigger] s[k]),
    ensures
        i <= run_len_from(s, same, i) <= s.len(),
        forall|k: int| 1 <= k < run_len_from(s, same, i) ==> same(s[0], #[trigger] s[k]),
        run_len_from(s, same, i) < s.len() ==> !same(s[0], s[run_len_from(s, same, i) as int]),
    decreases s.len() - i,
{
    if i < s.len() && same(s[0], s[i as int]) {
        lemma_run_len_from(s, same, i + 1);
    }
}

/// What `run_len` is: the elements after the first in the run are the same
/// as the first, and the element right after the run is not.
pub proof fn lemma_run_len<T>(s: Seq<T>, same: spec_fn(T, T) -> bool)
    requires
        s.len() > 0,
    ensures
        1 <= run_len(s, same) <= s.len(),
        forall|k: int| 1 <= k < run_len(s, same) ==> same(s[0], #[trigger] s[k]),
        run_len(s, same) < s.len() ==> !same(s[0], s[run_len(s, same) as int]),
{
    lemma_run_len_from(s, same, 1);
}

/// Equality of values, as a relation.
pub open spec fn equal_values<T>() -> spec_fn(T, T) -> bool {
    |x: T, y: T| x == y
}

/// The sequence that a list of runs stands for.
pub open spec fn decode<T>(r: Seq<(nat, T)>) -> Seq<T>
    decreases r.len(),
{
    if r.len() == 0 {
        Seq::empty()
    } else {
        Seq::new(r[0].0, |_i: int| r[0].1) + decode(r.drop_first())
    }
}

/// Decoding the runs of a sequence of equal-or-not values gives it back.
pub proof fn lemma_decode_runs<T>(s: Seq<T>)
    ensures
        decode(runs(s, equal_values())) == s,
    decreases s.len(),
{
    let same = equal_values::<T>();
    if s.len() > 0 {
        lemma_run_len(s, same);
        let k = run_len(s, same);
        lemma_decode_runs(s.skip(k as int));
        let r = runs(s, same);
        assert(r.drop_first() =~= runs(s.skip(k as int), same));
        assert(s =~= Seq::new(k, |_i: int| s[0]) + s.skip(k as int));
    }
}

/// Adjacent runs of a sequence hold different values.
pub proof fn lemma_runs_maximal<T>(s: Seq<T>, same: spec_fn(T, T) -> bool, i: int)
    requires
        0 <= i < runs(s, same).len() - 1,
    ensures
        !same(runs(s, same)[i].1, runs(s, same)[i + 1].1),
    decreases s.len(),
{
    lemma_run_len(s, same);
    let k = run_len(s, same);
    let rest = s.skip(k as int);
    assert(runs(s, same)[i + 1] == runs(rest, same)[i]);
    if i == 0 {
        lemma_run_len(rest, same);
        assert(runs(rest, same)[0].1 == rest[0]);
    } else {
        lemma_runs_maximal(rest, same, i - 1);
    }
}

/// The runs of equal elements of a sequence.
pub struct Rle<T> {
    buf: Vec<T>,
    pos: usize,
}

impl<T: TotalOrder> Rle<T> {
    /// The elements not yet encoded.
    pub closed spec fn rest(&self) -> Seq<T> {
        self.buf@.skip(self.pos as int)
    }

    pub closed spec fn wf(&self) -> bool {
        self.pos <= self.buf@.len()
    }

    pub fn new(buf: Vec<T>) -> (r: Self)
        ensures
            r.wf(),
            r.rest() == buf@,
    {
        let r = Rle { buf, pos: 0 };
        assert(r.buf@.skip(0) =~= r.buf@);
        r
    }

    /// Returns the next run, with the number of elements it holds.
    pub fn next(&mut self) -> (r: Option<(usize, T)>)
        requires
            old(self).wf(),
        ensures
            final(self).wf(),
            old(self).rest().len() == 0 ==> r is None && final(self).rest() == old(self).rest(),
            old(self).rest().len() > 0 ==> (r matches Some((c, x)) && (c as nat, x) == runs(
                old(self).rest(),
                equal_values(),
            )[0] && final(self).rest() == old(self).rest().skip(c as int)),
    {
        let ghost s = self.rest();
        let ghost same = equal_values::<T>();
        if self.pos == self.buf.len() {
            return None;
        }
        let last = self.buf[self.pos];
        let start = self.pos;
        let mut i = self.pos + 1;
        while i < self.buf.len() && last.same(&self.buf[i])
            invariant
                start < i <= self.buf@.len(),
                last == self.buf@[start as int],
                s == self.buf@.skip(start as int),
                forall|k: int| start < k < i ==> self.buf@[k] == last,
            decreases self.buf@.len() - i,
        {
            proof {
                T::rank_injective(last, self.buf@[i as int]);
            }
            i += 1;
        }
        proof {
            lemma_run_len(s, same);
            let k = run_len(s, same);
            if i < self.buf@.len() {
                assert(s[(i - start) as int] == self.buf@[i as int]);
                assert(!same(s[0], s[(i - start) as int]));
            }
            assert(k == i - start) by {
                if k < i - start {
                    assert(s[k as int] == self.buf@[start + k]);
                } else if k > i - start {
                    assert(s[(i - start) as int] == self.buf@[i as int]);
                }
            }
        }
        self.pos = i;
        proof {
            assert(self.rest() =~= s.skip(i - start));
        }
        Some((i - start, last))
    }
}


/// The relation that `compare` decides.
pub open spec fn relation_of<T, F: Fn(&T, &T) -> bool>(compare: F) -> spec_fn(T, T) -> bool {
    |a: T, b: T| call_ensures(compare, (&a, &b), true)
}

/// `compare` can be called on any pair and gives each pair one answer.
pub open spec fn decides<T, F: Fn(&T, &T) -> bool>(compare: F) -> bool {
    &&& forall|a: &T, b: &T| call_requires(compare, (a, b))
    &&& forall|a: &T, b: &T, r1: bool, r2: bool|
        call_ensures(compare, (a, b), r1) && call_ensures(compare, (a, b), r2) ==> r1 == r2
}

/// The runs of a sequence under a relation decided by `compare`: each run
/// holds the elements related to its first.
pub struct RleBy<T, F> {
    buf: Vec<T>,
    pos: usize,
    compare: F,
}

impl<T: Copy, F: Fn(&T, &T) -> bool> RleBy<T, F> {
    /// The elements not yet encoded.
    pub closed spec fn rest(&self) -> Seq<T> {
        self.buf@.skip(self.pos as int)
    }

    pub closed spec fn compare(&self) -> F {
        self.compare
    }

    pub closed spec fn wf(&self) -> bool {
        self.pos <= self.buf@.len()
    }

    pub fn new(buf: Vec<T>, compare: F) -> (r: Self)
        ensures
            r.wf(),
            r.rest() == buf@,
            r.compare() == compare,
    {
        let r = RleBy { buf, pos: 0, compare };
        assert(r.buf@.skip(0) =~= r.buf@);
        r
    }

    /// Returns the next run, with the number of elements it holds.
    pub fn next(&mut self) -> (r: Option<(usize, T)>)
        requires
            old(self).wf(),
            decides(old(self).compare()),
        ensures
            final(self).wf(),
            final(self).compare() == old(self).compare(),
            old(self).rest().len() == 0 ==> r is None && final(self).rest() == old(self).rest(),
            old(self).rest().len() > 0 ==> (r matches Some((c, x)) && (c as nat, x) == runs(
                old(self).rest(),
                relation_of(old(self).compare()),
            )[0] && final(self).rest() == old(self).rest().skip(c as int)),
            old(self).rest().len() > 0 ==> (r matches Some((c, x)) && (forall|k: int|
                0 < k < c ==> call_ensures(old(self).compare(), (&old(self).rest()[0], &#[trigger] old(self).rest()[k]), true))
                && (c < old(self).rest().len() ==> call_ensures(
                old(self).compare(),
                (&old(self).rest()[0], &old(self).rest()[c as int]),
                false,
            ))),
    {
        let ghost s = self.rest();
        let ghost same = relation_of(self.compare);
        if self.pos == self.buf.len() {
            return None;
        }
        let last = self.buf[self.pos];
        let start = self.pos;
        let mut i = self.pos + 1;
        while i < self.buf.len() && (self.compare)(&last, &self.buf[i])
            invariant
                start < i <= self.buf@.len(),
                last == self.buf@[start as int],
                s == self.buf@.skip(start as int),
                same == relation_of(self.compare),
                decides(self.compare),
                forall|k: int| start < k < i ==> same(last, #[trigger] self.buf@[k]),
            decreases self.buf@.len() - i,
        {
            i += 1;
        }
        proof {
            lemma_run_len(s, same);
            let k = run_len(s, same);
            if i < self.buf@.len() {
                assert(s[(i - start) as int] == self.buf@[i as int]);
                assert(!same(s[0], s[(i - start) as int]));
            }
            assert(k == i - start) by {
                if k < i - start {
                    assert(s[k as int] == self.buf@[start + k]);
                } else if k > i - start {
                    assert(s[(i - start) as int] == self.buf@[i as int]);
                }
            }
        }
        self.pos = i;
        proof {
            assert(self.rest() =~= s.skip(i - start));
        }
        Some((i - start, last))
    }
}

/// The key that `key` gives `x`.
pub open spec fn key_of<T, U, K: Fn(&T) -> U>(key: K, x: T) -> U {
    choose|u: U| call_ensures(key, (&x,), u)
}

/// `key` can be called on anything and gives each one key.
pub open spec fn keys<T, U, K: Fn(&T) -> U>(key: K) -> bool {
    &&& forall|a: &T| call_requires(key, (a,))
    &&& forall|a: &T, u: U, v: U| call_ensures(key, (a,), u) && call_ensures(key, (a,), v) ==> u == v
}

/// Relating values of equal keys.
pub open spec fn same_key<T, U, K: Fn(&T) -> U>(key: K) -> spec_fn(T, T) -> bool {
    |a: T, b: T| key_of(key, a) == key_of(key, b)
}

/// The runs of a sequence of elements of equal keys.
pub struct RleByKey<T, K> {
    buf: Vec<T>,
    pos: usize,
    key: K,
}

impl<T: Copy, U: TotalOrder, K: Fn(&T) -> U> RleByKey<T, K> {
    /// The elements not yet encoded.
    pub closed spec fn rest(&self) -> Seq<T> {
        self.buf@.skip(self.pos as int)
    }

    pub closed spec fn key(&self) -> K {
        self.key
    }

    pub closed spec fn wf(&self) -> bool {
        self.pos <= self.buf@.len()
    }

    pub fn new(buf: Vec<T>, key: K) -> (r: Self)
        ensures
            r.wf(),
            r.rest() == buf@,
            r.key() == key,
    {
        let r = RleByKey { buf, pos: 0, key };
        assert(r.buf@.skip(0) =~= r.buf@);
        r
    }

    /// Returns the next run, with the number of elements it holds.
    pub fn next(&mut self) -> (r: Option<(usize, T)>)
        requires
            old(self).wf(),
            keys::<T, U, K>(old(self).key()),
        ensures
            final(self).wf(),
            final(self).key() == old(self).key(),
            old(self).rest().len() == 0 ==> r is None && final(self).rest() == old(self).rest(),
            old(self).rest().len() > 0 ==> (r matches Some((c, x)) && (c as nat, x) == runs(
                old(self).rest(),
                same_key::<T, U, K>(old(self).key()),
            )[0] && final(self).rest() == old(self).rest().skip(c as int)),
            old(self).rest().len() > 0 ==> (r matches Some((c, x)) && forall|k: int|
                0 <= k <= c && k < old(self).rest().len() ==> call_ensures(
                    old(self).key(),
                    (&old(self).rest()[k],),
                    #[trigger] key_of(old(self).key(), old(self).rest()[k]),
                )),
    {
        let ghost s = self.rest();
        let ghost same = same_key::<T, U, K>(self.key);
        if self.pos == self.buf.len() {
            return None;
        }
        let last = self.buf[self.pos];
        let start = self.pos;
        let klast = (self.key)(&last);
        let mut i = self.pos + 1;
        loop
            invariant_except_break
                start < i <= self.buf@.len(),
                last == self.buf@[start as int],
                klast == key_of(self.key, last),
                s == self.buf@.skip(start as int),
                same == same_key::<T, U, K>(self.key),
                keys::<T, U, K>(self.key),
                forall|k: int| start < k < i ==> same(last, #[trigger] self.buf@[k]),
                forall|k: int| start <= k < i ==> call_ensures(self.key, (&self.buf@[k],), #[trigger] key_of(self.key, self.buf@[k])),
            ensures
                start < i <= self.buf@.len(),
                forall|k: int| start < k < i ==> same(last, #[trigger] self.buf@[k]),
                forall|k: int| start <= k < i ==> call_ensures(self.key, (&self.buf@[k],), #[trigger] key_of(self.key, self.buf@[k])),
                i < self.buf@.len() ==> !same(last, self.buf@[i as int]) && call_ensures(
                    self.key,
                    (&self.buf@[i as int],),
                    key_of(self.key, self.buf@[i as int]),
                ),
            decreases self.buf@.len() - i,
        {
            if i >= self.buf.len() {
                break;
            }
            let kb = (self.key)(&self.buf[i]);
            proof {
                assert(kb == key_of(self.key, self.buf@[i as int]));
            }
            if !klast.same(&kb) {
                break;
            }
            proof {
                U::rank_injective(klast, kb);
            }
            i += 1;
        }
        proof {
            lemma_run_len(s, same);
            let k = run_len(s, same);
            if i < self.buf@.len() {
                assert(s[(i - start) as int] == self.buf@[i as int]);
                assert(!same(s[0], s[(i - start) as int]));
            }
            assert(k == i - start) by {
                if k < i - start {
                    assert(s[k as int] == self.buf@[start + k]);
                } else if k > i - start {
                    assert(s[(i - start) as int] == self.buf@[i as int]);
                }
            }
        }
        self.pos = i;
        proof {
            assert(self.rest() =~= s.skip(i - start));
        }
        Some((i - start, last))
    }
}

} // verus!
