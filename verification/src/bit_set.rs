//! A set of small integers, kept as the bits of words.
use vstd::prelude::*;
use crate::counting::{count_of, lemma_count_bound, lemma_count_card, lemma_count_flip, lemma_count_same, lemma_count_split, lemma_count_zero};
use vstd::std_specs::bits::{axiom_u64_leading_zeros, axiom_u64_trailing_zeros, u64_leading_zeros, u64_trailing_zeros};

verus! {

/// Bit `j` of `w` is set.
pub open spec fn bit(w: u64, j: int) -> bool {
    (w >> (j as u64)) & 1u64 == 1u64
}

proof fn lemma_bit_or(w: u64, s: u64, j: u64)
    by (bit_vector)
    requires
        s < 64,
        j < 64,
    ensures
        ((w | (1u64 << s)) >> j) & 1u64 == 1u64 <==> ((w >> j) & 1u64 == 1u64 || j == s),
{
}

proof fn lemma_bit_and_not(w: u64, s: u64, j: u64)
    by (bit_vector)
    requires
        s < 64,
        j < 64,
    ensures
        ((w & !(1u64 << s)) >> j) & 1u64 == 1u64 <==> ((w >> j) & 1u64 == 1u64 && j != s),
{
}

proof fn lemma_bit_shr(w: u64, s: u64, j: u64)
    by (bit_vector)
    requires
        s < 64,
        j < 64,
        j + s < 64,
    ensures
        ((w >> s) >> j) & 1u64 == (w >> ((j + s) as u64)) & 1u64,
{
}

proof fn lemma_zero_bits(j: u64)
    by (bit_vector)
    ensures
        (0u64 >> j) & 1u64 == 0u64,
{
}

proof fn lemma_bit_low_mask(w: u64, t: u64, j: u64)
    by (bit_vector)
    requires
        t < 64,
        j < 64,
    ensures
        ((w & (((1u64 << t) - 1u64) as u64)) >> j) & 1u64 == 1u64 <==> (j < t && (w >> j) & 1u64 == 1u64),
{
}

proof fn lemma_bit_one(w: u64, j: u64)
    by (bit_vector)
    ensures
        (w >> j) & 1u64 == 1u64 <==> (w >> j) & 1u64 != 0u64,
{
}

proof fn lemma_nonzero_has_bit(w: u64)
    requires
        w != 0,
    ensures
        u64_trailing_zeros(w) < 64,
        bit(w, u64_trailing_zeros(w) as int),
        forall|j: int| 0 <= j < u64_trailing_zeros(w) ==> !bit(w, j),
{
    axiom_u64_trailing_zeros(w);
    let t = u64_trailing_zeros(w);
    assert forall|j: int| 0 <= j < t implies !bit(w, j) by {
        let ju = j as u64;
        assert((w >> ju) & 1u64 == 0u64);
    }
}

proof fn lemma_nonzero_top_bit(w: u64)
    requires
        w != 0,
    ensures
        u64_leading_zeros(w) < 64,
        bit(w, 63 - u64_leading_zeros(w)),
        forall|j: int| 63 - u64_leading_zeros(w) < j < 64 ==> !bit(w, j),
{
    axiom_u64_leading_zeros(w);
    let l = u64_leading_zeros(w);
    let top = (63 - l) as u64;
    lemma_bit_one(w, top);
    assert forall|j: int| 63 - l < j < 64 implies !bit(w, j) by {
        let ju = j as u64;
        assert((w >> ju) & 1u64 == 0u64);
    }
}

proof fn lemma_bit_shr_range(w: u64, s: u64, j: u64)
    by (bit_vector)
    requires
        s < 64,
        j < 64,
        ((w >> s) >> j) & 1u64 == 1u64,
    ensures
        j + s < 64,
{
}

proof fn lemma_shl_pos(r: u64)
    by (bit_vector)
    requires
        r < 63,
    ensures
        (1u64 << ((r + 1) as u64)) >= 1u64,
{
}

proof fn lemma_bit_high_mask(w: u64, a: u64, j: u64)
    by (bit_vector)
    requires
        a < 64,
        j < 64,
    ensures
        ((w & (!0u64 << a)) >> j) & 1u64 == 1u64 <==> (a <= j && (w >> j) & 1u64 == 1u64),
{
}

/// A set of integers in `0..cap`, kept as bits of 64-bit words.
pub struct BitSet {
    buf: Vec<u64>,
    cap: usize,
    len: usize,
}

impl BitSet {
    /// `i` is in the set.
    pub closed spec fn has(&self, i: int) -> bool {
        0 <= i < self.cap && bit(self.buf@[i / 64], i % 64)
    }

    /// Membership, as a predicate.
    pub closed spec fn members(&self) -> spec_fn(int) -> bool {
        |i: int| self.has(i)
    }

    /// The set.
    pub open spec fn view(&self) -> Set<int> {
        Set::new(|i: int| self.has(i))
    }

    /// The capacity: the set holds integers below it.
    pub closed spec fn capacity(&self) -> nat {
        self.cap as nat
    }

    /// `members` is membership in the set.
    pub proof fn lemma_members(&self)
        ensures
            forall|i: int| #[trigger] (self.members())(i) == self@.contains(i),
    {
    }

    /// The number of elements in `lo..hi` (see `lemma_count_in`).
    pub open spec fn count_in(&self, lo: int, hi: int) -> nat {
        count_of(self.members(), lo, hi)
    }

    /// `count_in(lo, hi)` is the number of elements `i` of the set with
    /// `lo <= i < hi`.
    pub proof fn lemma_count_in(&self, lo: int, hi: int)
        requires
            lo <= hi,
        ensures
            self.count_in(lo, hi) == self@.filter(|i: int| lo <= i < hi).len(),
    {
        lemma_count_card(self.members(), lo, hi);
        assert(self@.filter(|i: int| lo <= i < hi) =~= Set::new(|i: int| lo <= i < hi && (self.members())(i)));
    }

    pub closed spec fn wf(&self) -> bool {
        &&& self.buf@.len() * 64 >= self.cap
        &&& self.cap <= usize::MAX - 63
        &&& self.buf@.len() * 64 < self.cap + 64
        &&& forall|i: int| self.cap <= i < self.buf@.len() * 64 ==> !bit(#[trigger] self.buf@[i / 64], i % 64)
        &&& self.len == count_of(self.members(), 0, self.cap as int)
    }

    /// An empty set of integers below `cap`.
    pub fn new(cap: usize) -> (r: Self)
        requires
            cap <= usize::MAX - 63,
        ensures
            r.wf(),
            r.capacity() == cap,
            r@ == Set::<int>::empty(),
    {
        let n = (cap + 63) / 64;
        let mut buf: Vec<u64> = Vec::new();
        let mut k: usize = 0;
        while k < n
            invariant
                k <= n,
                buf@.len() == k,
                forall|q: int| 0 <= q < k ==> buf@[q] == 0u64,
            decreases n - k,
        {
            buf.push(0);
            k += 1;
        }
        let r = BitSet { buf, cap, len: 0 };
        proof {
            assert forall|i: int| 0 <= i < r.buf@.len() * 64 implies !bit(#[trigger] r.buf@[i / 64], i % 64) by {
                lemma_zero_bits((i % 64) as u64);
            }
            lemma_count_same(|i: int| false, r.members(), 0, cap as int);
            lemma_count_zero(0, cap as int);
            assert(r@ =~= Set::<int>::empty());
        }
        r
    }

    /// Whether `i` is in the set; `i` must be below the capacity.
    pub fn contains(&self, i: usize) -> (r: bool)
        requires
            self.wf(),
            i < self.capacity(),
        ensures
            r == self@.contains(i as int),
    {
        let w = self.buf[i / 64];
        (w >> ((i % 64) as u64)) & 1 == 1
    }

    /// The number of elements in `start..end`.
    pub fn count(&self, start: usize, end: usize) -> (r: usize)
        requires
            self.wf(),
            start <= end <= self.capacity(),
        ensures
            r == self.count_in(start as int, end as int),
    {
        let mut c: usize = 0;
        let mut i = start;
        while i < end
            invariant
                self.wf(),
                start <= i <= end <= self.cap,
                c == self.count_in(start as int, i as int),
                c <= i - start,
            decreases end - i,
        {
            if self.contains(i) {
                c += 1;
            }
            i += 1;
        }
        c
    }

    /// The number of elements.
    pub fn len(&self) -> (r: usize)
        requires
            self.wf(),
        ensures
            r == self.count_in(0, self.capacity() as int),
    {
        self.len
    }

    pub fn is_empty(&self) -> (r: bool)
        requires
            self.wf(),
        ensures
            r == (self@ == Set::<int>::empty()),
    {
        proof {
            if self.len == 0 {
                assert forall|i: int| !self.has(i) by {
                    if self.has(i) {
                        lemma_count_split(self.members(), 0, i, self.cap as int);
                        lemma_count_split(self.members(), i, i + 1, self.cap as int);
                        assert(count_of(self.members(), i, i + 1) == 1);
                    }
                }
                assert(self@ =~= Set::<int>::empty());
            } else {
                if self@ == Set::<int>::empty() {
                    assert forall|i: int| 0 <= i < self.cap implies !self.has(i) by {
                        assert(!self@.contains(i));
                    }
                    lemma_count_same(|j: int| false, self.members(), 0, self.cap as int);
                    lemma_count_zero(0, self.cap as int);
                }
            }
        }
        self.len == 0
    }

    /// The least element not below `i`.
    pub fn min_ge(&self, i: usize) -> (r: Option<usize>)
        requires
            self.wf(),
            i <= self.capacity(),
        ensures
            r is None ==> forall|j: int| i <= j ==> !self@.contains(j),
            r matches Some(x) ==> self@.contains(x as int) && i <= x && forall|j: int| i <= j < x ==> !self@.contains(j),
    {
        if i >= self.cap {
            return None;
        }
        let l = i / 64;
        let sft = (i % 64) as u64;
        let w = self.buf[l] >> sft;
        if w != 0 {
            let t = w.trailing_zeros() as usize;
            proof {
                lemma_nonzero_has_bit(w);
                lemma_bit_shr_range(self.buf@[l as int], sft, t as u64);
                lemma_bit_shr(self.buf@[l as int], sft, t as u64);
                assert(bit(self.buf@[(i + t) / 64], (i + t) % 64));
                assert forall|j: int| i <= j < i + t implies !self@.contains(j) by {
                    let d = j - i;
                    lemma_bit_shr(self.buf@[l as int], sft, d as u64);
                    assert(!bit(w, d));
                }
            }
            return Some(i + t);
        }
        proof {
            assert forall|j: int| i <= j < (l + 1) * 64 implies !self@.contains(j) by {
                let d = j - i;
                lemma_bit_shr(self.buf@[l as int], sft, d as u64);
                lemma_zero_bits(d as u64);
            }
        }
        let mut k = l + 1;
        assert(i < k * 64);
        while k < self.buf.len()
            invariant
                self.wf(),
                l < k <= self.buf@.len(),
                i < self.cap,
                i < k * 64,
                forall|j: int| i <= j < k * 64 ==> !self@.contains(j),
            decreases self.buf@.len() - k,
        {
            let w = self.buf[k];
            if w != 0 {
                let t = w.trailing_zeros() as usize;
                proof {
                    lemma_nonzero_has_bit(w);
                    assert((k * 64 + t) / 64 == k && (k * 64 + t) % 64 == t);
                    assert(bit(self.buf@[(k * 64 + t) / 64], (k * 64 + t) % 64));
                    assert(k * 64 + t < self.cap);
                    assert forall|j: int| k * 64 <= j < k * 64 + t implies !self@.contains(j) by {
                        assert(j / 64 == k && j % 64 == j - k * 64);
                        assert(!bit(w, j - k * 64));
                    }
                    assert(self@.contains(k * 64 + t));
                    assert forall|j: int| i <= j < k * 64 + t implies !self@.contains(j) by {
                        if j < k * 64 {
                        } else {
                            assert(j / 64 == k && j % 64 == j - k * 64);
                            assert(!bit(w, j - k * 64));
                        }
                    }
                }
                let x = k * 64 + t;
                proof {
                    assert(self@.contains(x as int));
                    assert(i <= x);
                    assert(forall|j: int| i <= j < x ==> !self@.contains(j));
                }
                return Some(x);
            }
            proof {
                assert forall|j: int| k * 64 <= j < (k + 1) * 64 implies !self@.contains(j) by {
                    lemma_zero_bits((j - k * 64) as u64);
                }
            }
            k += 1;
        }
        None
    }

    /// The least element above `i`.
    pub fn min_gt(&self, i: usize) -> (r: Option<usize>)
        requires
            self.wf(),
            i < self.capacity(),
        ensures
            r is None ==> forall|j: int| i < j ==> !self@.contains(j),
            r matches Some(x) ==> self@.contains(x as int) && i < x && forall|j: int| i < j < x ==> !self@.contains(j),
    {
        self.min_ge(i + 1)
    }

    /// The greatest element not above `i`.
    pub fn max_le(&self, i: usize) -> (r: Option<usize>)
        requires
            self.wf(),
            i < self.capacity(),
        ensures
            r is None ==> forall|j: int| j <= i ==> !self@.contains(j),
            r matches Some(x) ==> self@.contains(x as int) && x <= i && forall|j: int| x < j <= i ==> !self@.contains(j),
    {
        let l = i / 64;
        let rr = (i % 64) as u64;
        let w0 = self.buf[l];
        proof {
            if rr < 63 {
                lemma_shl_pos(rr);
            }
        }
        let w = if rr == 63 { w0 } else { w0 & ((1u64 << (rr + 1)) - 1) };
        proof {
            assert forall|j: int| 0 <= j < 64 implies (bit(w, j) <==> (j <= rr && bit(w0, j))) by {
                if rr < 63 {
                    lemma_bit_low_mask(w0, (rr + 1) as u64, j as u64);
                }
            }
        }
        if w != 0 {
            let top = 63 - (w.leading_zeros() as usize);
            proof {
                lemma_nonzero_top_bit(w);
                assert(bit(self.buf@[(l * 64 + top) / 64], (l * 64 + top) % 64));
                assert forall|j: int| l * 64 + top < j <= i implies !self@.contains(j) by {
                    assert(!bit(w, j - l * 64));
                }
            }
            return Some(l * 64 + top);
        }
        proof {
            assert forall|j: int| l * 64 <= j <= i implies !self@.contains(j) by {
                lemma_zero_bits((j - l * 64) as u64);
                assert(!bit(w, j - l * 64));
            }
        }
        let mut k = l;
        while k > 0
            invariant
                self.wf(),
                k <= l,
                l * 64 <= i < self.cap,
                forall|j: int| k * 64 <= j <= i ==> !self@.contains(j),
            decreases k,
        {
            let w = self.buf[k - 1];
            if w != 0 {
                let top = 63 - (w.leading_zeros() as usize);
                proof {
                    lemma_nonzero_top_bit(w);
                    assert(bit(self.buf@[((k - 1) * 64 + top) / 64], ((k - 1) * 64 + top) % 64));
                    assert forall|j: int| (k - 1) * 64 + top < j < k * 64 implies !self@.contains(j) by {
                        assert(!bit(w, j - (k - 1) * 64));
                    }
                }
                return Some((k - 1) * 64 + top);
            }
            proof {
                assert forall|j: int| (k - 1) * 64 <= j < k * 64 implies !self@.contains(j) by {
                    lemma_zero_bits((j - (k - 1) * 64) as u64);
                }
            }
            k -= 1;
        }
        None
    }

    /// The greatest element below `i`.
    pub fn max_lt(&self, i: usize) -> (r: Option<usize>)
        requires
            self.wf(),
            i <= self.capacity(),
        ensures
            r is None ==> forall|j: int| j < i ==> !self@.contains(j),
            r matches Some(x) ==> self@.contains(x as int) && x < i && forall|j: int| x < j < i ==> !self@.contains(j),
    {
        if i == 0 {
            None
        } else {
            self.max_le(i - 1)
        }
    }

    /// The elements in increasing order.
    pub fn iter(&self) -> (res: Vec<usize>)
        requires
            self.wf(),
        ensures
            forall|a: int, b: int| 0 <= a < b < res@.len() ==> res@[a] < res@[b],
            forall|x: int| self@.contains(x) <==> exists|a: int| 0 <= a < res@.len() && res@[a] == x,
    {
        let mut res: Vec<usize> = Vec::new();
        if self.cap == 0 {
            proof {
                assert forall|x: int| self@.contains(x) <==> exists|a: int| 0 <= a < res@.len() && res@[a] == x by {
                }
            }
            return res;
        }
        let mut cur = self.min_ge(0);
        while cur.is_some()
            invariant
                self.wf(),
                cur matches Some(c) ==> self@.contains(c as int) && (forall|a: int| 0 <= a < res@.len() ==> res@[a] < c)
                    && (forall|j: int| 0 <= j < c && self@.contains(j) ==> exists|a: int| 0 <= a < res@.len() && res@[a] == j),
                cur is None ==> (forall|j: int| self@.contains(j) ==> exists|a: int| 0 <= a < res@.len() && res@[a] == j),
                forall|a: int, b: int| 0 <= a < b < res@.len() ==> res@[a] < res@[b],
                forall|a: int| 0 <= a < res@.len() ==> self@.contains(#[trigger] res@[a] as int),
            decreases self.cap - (match cur { Some(c) => c as int, None => self.cap as int }),
        {
            let c = cur.unwrap();
            let ghost old_res = res@;
            res.push(c);
            proof {
                assert forall|j: int| 0 <= j <= c && self@.contains(j) implies exists|a: int| 0 <= a < res@.len() && res@[a] == j by {
                    if j == c {
                        assert(res@[res@.len() - 1] == c);
                    } else {
                        let a = choose|a: int| 0 <= a < old_res.len() && old_res[a] == j;
                        assert(res@[a] == j);
                    }
                }
            }
            cur = self.min_gt(c);
        }
        res
    }

    /// Adds `i`, which must be below the capacity.
    pub fn insert(&mut self, i: usize)
        requires
            old(self).wf(),
            i < old(self).capacity(),
        ensures
            final(self).wf(),
            final(self).capacity() == old(self).capacity(),
            final(self)@ == old(self)@.insert(i as int),
    {
        let l = i / 64;
        let s = (i % 64) as u64;
        let w = self.buf[l];
        if (w >> s) & 1 == 0 {
            let ghost f = self.members();
            self.buf.set(l, w | (1u64 << s));
            proof {
                let g = self.members();
                assert forall|j: int| 0 <= j < self.buf@.len() * 64 implies
                    (bit(#[trigger] self.buf@[j / 64], j % 64) <==> (bit(old(self).buf@[j / 64], j % 64) || j == i)) by {
                    if j / 64 == l {
                        lemma_bit_or(w, s, (j % 64) as u64);
                    }
                }
                assert forall|j: int| 0 <= j < self.cap && j != i implies #[trigger] f(j) == g(j) by {
                }
                assert(g(i as int));
                assert(!f(i as int));
                lemma_count_flip(f, g, 0, self.cap as int, i as int);
                lemma_count_bound(g, 0, self.cap as int);
                assert(self@ =~= old(self)@.insert(i as int));
            }
            let ghost g = self.members();
            self.len += 1;
            proof {
                assert(self.members() =~= g);
            }
        } else {
            proof {
                lemma_bit_one(w, s);
                assert(old(self)@.contains(i as int));
                assert(self@ =~= old(self)@.insert(i as int));
            }
        }
    }

    /// Removes `i`, which must be below the capacity.
    pub fn remove(&mut self, i: usize)
        requires
            old(self).wf(),
            i < old(self).capacity(),
        ensures
            final(self).wf(),
            final(self).capacity() == old(self).capacity(),
            final(self)@ == old(self)@.remove(i as int),
    {
        let l = i / 64;
        let s = (i % 64) as u64;
        let w = self.buf[l];
        if (w >> s) & 1 != 0 {
            proof {
                lemma_bit_one(w, s);
            }
            let ghost f = self.members();
            self.buf.set(l, w & !(1u64 << s));
            proof {
                let g = self.members();
                assert forall|j: int| 0 <= j < self.buf@.len() * 64 implies
                    (bit(#[trigger] self.buf@[j / 64], j % 64) <==> (bit(old(self).buf@[j / 64], j % 64) && j != i)) by {
                    if j / 64 == l {
                        lemma_bit_and_not(w, s, (j % 64) as u64);
                    }
                }
                lemma_count_flip(f, g, 0, self.cap as int, i as int);
                assert(self@ =~= old(self)@.remove(i as int));
            }
            let ghost g = self.members();
            self.len -= 1;
            proof {
                assert(self.members() =~= g);
            }
        } else {
            proof {
                lemma_bit_one(w, s);
                assert(self@ =~= old(self)@.remove(i as int));
            }
        }
    }
}



/// The bits of `w` in positions `lo..hi`.
fn mask_bits(w: u64, lo: u64, hi: u64) -> (r: u64)
    requires
        lo < 64,
        lo < hi <= 64,
    ensures
        forall|j: int| 0 <= j < 64 ==> (bit(r, j) <==> (lo <= j < hi && bit(w, j))),
{
    let hi_mask: u64 = if hi == 64 {
        !0u64
    } else {
        proof {
            lemma_shl_pos((hi - 1) as u64);
        }
        (1u64 << hi) - 1
    };
    let x = w & (!0u64 << lo);
    let r = x & hi_mask;
    proof {
        assert forall|j: int| 0 <= j < 64 implies (bit(r, j) <==> (lo <= j < hi && bit(w, j))) by {
            let ju = j as u64;
            lemma_bit_high_mask(w, lo, ju);
            if hi < 64 {
                lemma_bit_low_mask(x, hi, ju);
            } else {
                lemma_and_full(x, ju);
            }
        }
    }
    r
}

proof fn lemma_and_full(x: u64, j: u64)
    by (bit_vector)
    ensures
        ((x & !0u64) >> j) & 1u64 == (x >> j) & 1u64,
{
}

/// The words of a bit set over a range of positions, each masked to the
/// range.
pub struct RangeWord<'a> {
    start: usize,
    end: usize,
    bs: &'a BitSet,
}

impl<'a> RangeWord<'a> {
    pub closed spec fn start(&self) -> int {
        self.start as int
    }

    pub closed spec fn end(&self) -> int {
        self.end as int
    }

    pub closed spec fn set(&self) -> &'a BitSet {
        self.bs
    }

    pub fn new(start: usize, end: usize, bs: &'a BitSet) -> (r: Self)
        ensures
            r.start() == start,
            r.end() == end,
            r.set() == bs,
    {
        RangeWord { start, end, bs }
    }

    /// The next word: the members of the range in the word of `start`, as
    /// bits.
    pub fn next(&mut self) -> (r: Option<u64>)
        requires
            old(self).set().wf(),
            old(self).end() <= old(self).set().capacity(),
        ensures
            final(self).set() == old(self).set(),
            final(self).end() == old(self).end(),
            old(self).start() >= old(self).end() ==> r is None,
            old(self).start() < old(self).end() ==> (r matches Some(w) && {
                let q = old(self).start() / 64;
                &&& forall|j: int| 0 <= j < 64 ==> (bit(w, j) <==> (old(self).start() <= q * 64 + j < old(self).end()
                    && old(self).set()@.contains(q * 64 + j)))
                &&& final(self).start() == (q + 1) * 64
            }),
    {
        if self.start >= self.end {
            return None;
        }
        let q = self.start / 64;
        let lo = (self.start % 64) as u64;
        let hi: u64 = if self.end - q * 64 >= 64 { 64 } else { (self.end - q * 64) as u64 };
        let w = self.bs.buf[q];
        let r = mask_bits(w, lo, hi);
        proof {
            assert forall|j: int| 0 <= j < 64 implies (bit(r, j) <==> (self.start <= q * 64 + j < self.end
                && self.bs@.contains(q * 64 + j))) by {
                assert((q * 64 + j) / 64 == q && (q * 64 + j) % 64 == j);
            }
        }
        self.start = (q + 1) * 64;
        Some(r)
    }

    /// The last word: the members of the range in the word of `end - 1`,
    /// as bits.
    pub fn next_back(&mut self) -> (r: Option<u64>)
        requires
            old(self).set().wf(),
            old(self).end() <= old(self).set().capacity(),
        ensures
            final(self).set() == old(self).set(),
            final(self).start() == old(self).start(),
            old(self).start() >= old(self).end() ==> r is None,
            old(self).start() < old(self).end() ==> (r matches Some(w) && {
                let q = (old(self).end() - 1) / 64;
                &&& forall|j: int| 0 <= j < 64 ==> (bit(w, j) <==> (old(self).start() <= q * 64 + j < old(self).end()
                    && old(self).set()@.contains(q * 64 + j)))
                &&& final(self).end() == q * 64
            }),
    {
        if self.start >= self.end {
            return None;
        }
        let q = (self.end - 1) / 64;
        let lo: u64 = if self.start <= q * 64 { 0 } else { (self.start - q * 64) as u64 };
        let hi = ((self.end - 1) % 64 + 1) as u64;
        let w = self.bs.buf[q];
        let r = mask_bits(w, lo, hi);
        proof {
            assert forall|j: int| 0 <= j < 64 implies (bit(r, j) <==> (self.start <= q * 64 + j < self.end
                && self.bs@.contains(q * 64 + j))) by {
                assert((q * 64 + j) / 64 == q && (q * 64 + j) % 64 == j);
            }
        }
        self.end = q * 64;
        Some(r)
    }
}

/// The members of a bit set in a range of positions, from either end.
pub struct RangeIndex<'a> {
    start: usize,
    end: usize,
    bs: &'a BitSet,
}

impl<'a> RangeIndex<'a> {
    pub closed spec fn start(&self) -> int {
        self.start as int
    }

    pub closed spec fn end(&self) -> int {
        self.end as int
    }

    pub closed spec fn set(&self) -> &'a BitSet {
        self.bs
    }

    pub fn new(start: usize, end: usize, bs: &'a BitSet) -> (r: Self)
        ensures
            r.start() == start,
            r.end() == end,
            r.set() == bs,
    {
        RangeIndex { start, end, bs }
    }

    /// The least member in the range, which is then left out of it.
    pub fn next(&mut self) -> (r: Option<usize>)
        requires
            old(self).set().wf(),
            old(self).end() <= old(self).set().capacity(),
        ensures
            final(self).set() == old(self).set(),
            final(self).end() == old(self).end(),
            r is None ==> forall|j: int| old(self).start() <= j < old(self).end() ==> !old(self).set()@.contains(j),
            r is None ==> final(self).start() >= final(self).end(),
            r matches Some(x) ==> old(self).start() <= x < old(self).end() && old(self).set()@.contains(x as int)
                && (forall|j: int| old(self).start() <= j < x ==> !old(self).set()@.contains(j))
                && final(self).start() == x + 1,
    {
        if self.start >= self.end {
            return None;
        }
        match self.bs.min_ge(self.start) {
            Some(i) if i < self.end => {
                self.start = i + 1;
                Some(i)
            },
            _ => {
                self.start = self.end;
                None
            },
        }
    }

    /// The greatest member in the range, which is then left out of it.
    pub fn next_back(&mut self) -> (r: Option<usize>)
        requires
            old(self).set().wf(),
            old(self).end() <= old(self).set().capacity(),
        ensures
            final(self).set() == old(self).set(),
            final(self).start() == old(self).start(),
            r is None ==> forall|j: int| old(self).start() <= j < old(self).end() ==> !old(self).set()@.contains(j),
            r is None ==> final(self).start() >= final(self).end(),
            r matches Some(x) ==> old(self).start() <= x < old(self).end() && old(self).set()@.contains(x as int)
                && (forall|j: int| x < j < old(self).end() ==> !old(self).set()@.contains(j))
                && final(self).end() == x,
    {
        if self.start >= self.end {
            return None;
        }
        match self.bs.max_le(self.end - 1) {
            Some(i) if i >= self.start => {
                self.end = i;
                Some(i)
            },
            _ => {
                self.end = self.start;
                None
            },
        }
    }
}

impl BitSet {
    /// The members in `start..end`, from either end.
    pub fn range_index(&self, start: usize, end: usize) -> (r: RangeIndex<'_>)
        requires
            start <= end <= self.capacity(),
        ensures
            r.start() == start,
            r.end() == end,
            r.set() == self,
    {
        RangeIndex::new(start, end, self)
    }

    /// The words of `start..end`, masked to it.
    pub fn range_word(&self, start: usize, end: usize) -> (r: RangeWord<'_>)
        requires
            start <= end <= self.capacity(),
        ensures
            r.start() == start,
            r.end() == end,
            r.set() == self,
    {
        RangeWord::new(start, end, self)
    }
}

} // verus!
