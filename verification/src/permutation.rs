//! Permutations in lexicographic order.
use vstd::prelude::*;
use vstd::multiset::Multiset;

use crate::order::TotalOrder;

verus! {

broadcast use vstd::seq_lib::group_to_multiset_ensures, vstd::multiset::group_multiset_axioms;

/// The integer by which `x` is ordered: its rank, negated when `desc`.
pub open spec fn key<T: TotalOrder>(x: T, desc: bool) -> int {
    if desc {
        -x.rank()
    } else {
        x.rank()
    }
}

/// `s` and `t` agree below `d`, and `s[d]` comes before `t[d]`.
pub open spec fn lex_lt_at<T: TotalOrder>(s: Seq<T>, t: Seq<T>, d: int, desc: bool) -> bool {
    &&& s.len() == t.len()
    &&& 0 <= d < s.len()
    &&& forall|k: int| 0 <= k < d ==> s[k] == t[k]
    &&& key(s[d], desc) < key(t[d], desc)
}

/// `s` comes before `t` in lexicographic order (reversed when `desc`).
pub open spec fn lex_lt<T: TotalOrder>(s: Seq<T>, t: Seq<T>, desc: bool) -> bool {
    exists|d: int| lex_lt_at(s, t, d, desc)
}

/// `t` is a rearrangement of `s`.
pub open spec fn is_perm<T>(s: Seq<T>, t: Seq<T>) -> bool {
    s.to_multiset() == t.to_multiset()
}

/// `t` is the permutation of `s` that comes right after it in lexicographic
/// order (reversed when `desc`).
pub open spec fn is_next<T: TotalOrder>(s: Seq<T>, t: Seq<T>, desc: bool) -> bool {
    &&& is_perm(s, t)
    &&& lex_lt(s, t, desc)
    &&& forall|p: Seq<T>| is_perm(s, p) && lex_lt(s, p, desc) ==> !lex_lt(p, t, desc)
}

/// `s` is non-increasing in the order given by `desc`: the last permutation.
pub open spec fn is_last<T: TotalOrder>(s: Seq<T>, desc: bool) -> bool {
    forall|i: int, j: int| 0 <= i <= j < s.len() ==> key(s[i], desc) >= key(s[j], desc)
}

proof fn lemma_lex_flip<T: TotalOrder>(s: Seq<T>, t: Seq<T>, desc: bool)
    ensures
        lex_lt(s, t, desc) == lex_lt(t, s, !desc),
{
    if lex_lt(s, t, desc) {
        let d = choose|d: int| lex_lt_at(s, t, d, desc);
        assert(lex_lt_at(t, s, d, !desc));
    }
    let nd = !desc;
    if lex_lt(t, s, nd) {
        let d = choose|d: int| lex_lt_at(t, s, d, nd);
        assert(lex_lt_at(s, t, d, desc));
    }
}

/// Equal prefixes of two permutations leave permutations behind.
proof fn lemma_perm_skip<T>(s: Seq<T>, t: Seq<T>, m: int)
    requires
        s.len() == t.len(),
        0 <= m <= s.len(),
        is_perm(s, t),
        forall|k: int| 0 <= k < m ==> s[k] == t[k],
    ensures
        is_perm(s.skip(m), t.skip(m)),
{
    assert(s.take(m) =~= t.take(m));
    assert(s =~= s.take(m) + s.skip(m));
    assert(t =~= t.take(m) + t.skip(m));
    vstd::seq_lib::lemma_multiset_commutative(s.take(m), s.skip(m));
    vstd::seq_lib::lemma_multiset_commutative(t.take(m), t.skip(m));
    assert(s.skip(m).to_multiset() =~= t.skip(m).to_multiset()) by {
        assert forall|x: T| s.skip(m).to_multiset().count(x) == t.skip(m).to_multiset().count(x) by {
            assert(s.to_multiset().count(x) == s.take(m).to_multiset().count(x) + s.skip(m).to_multiset().count(x));
            assert(t.to_multiset().count(x) == t.take(m).to_multiset().count(x) + t.skip(m).to_multiset().count(x));
        }
    }
}

/// The last permutation comes after no other.
proof fn lemma_last_is_max<T: TotalOrder>(u: Seq<T>, p: Seq<T>, desc: bool)
    requires
        is_last(u, desc),
        is_perm(u, p),
    ensures
        !lex_lt(u, p, desc),
{
    if lex_lt(u, p, desc) {
        let d = choose|d: int| lex_lt_at(u, p, d, desc);
        lemma_perm_skip(u, p, d);
        assert(p.skip(d)[0] == p[d]);
        assert(p.skip(d).contains(p[d]));
        assert(p.skip(d).to_multiset().count(p[d]) > 0);
        assert(u.skip(d).contains(p[d]));
        let k = choose|k: int| 0 <= k < u.skip(d).len() && u.skip(d)[k] == p[d];
        assert(u[d + k] == p[d]);
        assert(key(u[d], desc) >= key(u[d + k], desc));
    }
}

proof fn lemma_swap_perm<T>(s: Seq<T>, i: int, j: int)
    requires
        0 <= i < s.len(),
        0 <= j < s.len(),
    ensures
        is_perm(s, s.update(i, s[j]).update(j, s[i])),
{
    let s1 = s.update(i, s[j]);
    assert(s1.to_multiset() == s.to_multiset().insert(s[j]).remove(s[i]));
    assert(s1.update(j, s[i]).to_multiset() == s1.to_multiset().insert(s[i]).remove(s1[j]));
    if i == j {
        assert(s.update(i, s[j]).update(j, s[i]) =~= s);
    } else {
        assert(s1[j] == s[j]);
        assert(s1.update(j, s[i]).to_multiset() =~= s.to_multiset());
    }
}

/// Swaps `v[i]` and `v[j]`.
fn swap_at<T: Copy>(v: &mut Vec<T>, i: usize, j: usize)
    requires
        i < old(v)@.len(),
        j < old(v)@.len(),
    ensures
        final(v)@ == old(v)@.update(i as int, old(v)@[j as int]).update(j as int, old(v)@[i as int]),
        is_perm(old(v)@, final(v)@),
{
    proof {
        lemma_swap_perm(v@, i as int, j as int);
    }
    let a = v[i];
    let b = v[j];
    v.set(i, b);
    v.set(j, a);
}

/// Reverses `v[lo..hi]`.
fn reverse_range<T: Copy>(v: &mut Vec<T>, lo: usize, hi: usize)
    requires
        lo <= hi <= old(v)@.len(),
    ensures
        final(v)@ == old(v)@.take(lo as int) + old(v)@.subrange(lo as int, hi as int).reverse()
            + old(v)@.skip(hi as int),
        is_perm(old(v)@, final(v)@),
{
    let ghost s = v@;
    let mut a = lo;
    let mut b = hi;
    while b - a > 1
        invariant
            lo <= a <= b <= hi <= s.len(),
            a - lo == hi - b,
            v@.len() == s.len(),
            is_perm(s, v@),
            forall|k: int| 0 <= k < lo || hi <= k < s.len() ==> v@[k] == s[k],
            forall|k: int| a <= k < b ==> v@[k] == s[k],
            forall|k: int| lo <= k < a ==> v@[k] == s[hi - 1 - (k - lo)],
            forall|k: int| b <= k < hi ==> v@[k] == s[lo + (hi - 1 - k)],
        decreases b - a,
    {
        let ghost before = v@;
        swap_at(v, a, b - 1);
        a += 1;
        b -= 1;
    }
    assert(v@ =~= s.take(lo as int) + s.subrange(lo as int, hi as int).reverse() + s.skip(hi as int));
}

/// `key(x) < key(y)` in the order given by `desc`.
fn key_less<T: TotalOrder>(x: &T, y: &T, desc: bool) -> (r: bool)
    ensures
        r == (key(*x, desc) < key(*y, desc)),
{
    if desc {
        y.less(x)
    } else {
        x.less(y)
    }
}

proof fn lemma_rank_eq<T: TotalOrder>(a: T, b: T, desc: bool)
    requires
        key(a, desc) == key(b, desc),
    ensures
        a == b,
{
    T::rank_injective(a, b);
}

/// The permutation that the step builds is the next one.
proof fn lemma_step_is_next<T: TotalOrder>(s: Seq<T>, t: Seq<T>, pi: int, jj: int, desc: bool)
    requires
        0 <= pi < jj < s.len(),
        s.len() == t.len(),
        forall|p: int, q: int| pi + 1 <= p <= q < s.len() ==> key(s[p], desc) >= key(s[q], desc),
        key(s[pi], desc) < key(s[jj], desc),
        forall|q: int| jj < q < s.len() ==> key(s[q], desc) <= key(s[pi], desc),
        is_perm(s, t),
        forall|k: int| 0 <= k < pi ==> t[k] == s[k],
        t[pi] == s[jj],
        forall|p: int, q: int| pi + 1 <= p <= q < s.len() ==> key(t[p], desc) <= key(t[q], desc),
    ensures
        is_next(s, t, desc),
{
    let n = s.len();
    assert(lex_lt_at(s, t, pi, desc));
    assert forall|p: Seq<T>| is_perm(s, p) && lex_lt(s, p, desc) implies !lex_lt(p, t, desc) by {
        let d = choose|d: int| lex_lt_at(s, p, d, desc);
        if d > pi {
            lemma_perm_skip(s, p, pi + 1);
            let u = s.skip(pi + 1);
            let w = p.skip(pi + 1);
            assert(lex_lt_at(u, w, d - pi - 1, desc));
            lemma_last_is_max(u, w, desc);
        } else if d < pi {
            if lex_lt(p, t, desc) {
                let e = choose|e: int| lex_lt_at(p, t, e, desc);
                if e < d {
                } else if e == d {
                } else {
                    assert(p[d] == t[d]);
                }
            }
        } else {
            lemma_perm_skip(s, p, pi);
            assert(p.skip(pi)[0] == p[pi]);
            assert(p.skip(pi).contains(p[pi]));
            assert(p.skip(pi).to_multiset().count(p[pi]) > 0);
            assert(s.skip(pi).contains(p[pi]));
            let k0 = choose|k0: int| 0 <= k0 < s.skip(pi).len() && s.skip(pi)[k0] == p[pi];
            let k = pi + k0;
            assert(s[k] == p[pi]);
            assert(k != pi);
            assert(k <= jj);
            assert(key(s[k], desc) >= key(s[jj], desc));
            assert(key(p[pi], desc) >= key(t[pi], desc));
            if lex_lt(p, t, desc) {
                let e = choose|e: int| lex_lt_at(p, t, e, desc);
                if e > pi {
                    lemma_rank_eq(p[pi], t[pi], desc);
                    assert(is_perm(p, t));
                    assert forall|k2: int| 0 <= k2 < pi + 1 implies p[k2] == t[k2] by {}
                    lemma_perm_skip(p, t, pi + 1);
                    let u = t.skip(pi + 1);
                    let w = p.skip(pi + 1);
                    assert(lex_lt_at(w, u, e - pi - 1, desc));
                    lemma_lex_flip(w, u, desc);
                    let nd = !desc;
                    assert(is_last(u, nd));
                    lemma_last_is_max(u, w, nd);
                }
            }
        }
    }
}

/// The step shared by the next and the previous permutation: in the order
/// given by `desc`, turns `a` into the permutation right after it and
/// returns `true`, or, where `a` is the last one, reverses it and returns
/// `false`.
#[verifier::rlimit(50)]
#[verifier::spinoff_prover]
fn step_permutation<T: TotalOrder>(a: &mut Vec<T>, desc: bool) -> (r: bool)
    ensures
        r == !is_last(old(a)@, desc),
        r ==> is_next(old(a)@, final(a)@, desc),
        !r ==> final(a)@ == old(a)@.reverse(),
        is_perm(old(a)@, final(a)@),
        r ==> exists|pi: int| #![trigger old(a)@[pi]] 0 <= pi < old(a)@.len() - 1
            && key(old(a)@[pi], desc) < key(old(a)@[pi + 1], desc)
            && is_last(old(a)@.skip(pi + 1), desc)
            && sorted_from(final(a)@, pi + 1, desc)
            && final(a)@.take(pi) == old(a)@.take(pi),
{
    let n = a.len();
    let ghost s = a@;
    if n <= 1 {
        assert(a@ =~= s.reverse());
        return false;
    }
    let mut i: usize = n - 1;
    // the suffix from `i` is non-increasing
    while i > 0 && !key_less(&a[i - 1], &a[i], desc)
        invariant
            0 <= i < n,
            n == s.len(),
            a@ == s,
            forall|p: int, q: int| i <= p <= q < n ==> key(s[p], desc) >= key(s[q], desc),
        decreases i,
    {
        i -= 1;
    }
    if i == 0 {
        reverse_range(a, 0, n);
        assert(s.take(0) + s.subrange(0, n as int).reverse() + s.skip(n as int) =~= s.reverse());
        return false;
    }
    let piv = i - 1;
    assert(key(s[piv as int], desc) < key(s[i as int], desc));
    assert(!is_last(s, desc));
    let mut j: usize = n - 1;
    while !key_less(&a[piv], &a[j], desc)
        invariant
            piv < j < n,
            piv + 1 <= j,
            n == s.len(),
            a@ == s,
            key(s[piv as int], desc) < key(s[piv + 1], desc),
            forall|q: int| j < q < n ==> key(s[q], desc) <= key(s[piv as int], desc),
        decreases j,
    {
        j -= 1;
    }
    swap_at(a, piv, j);
    let ghost s1 = a@;
    reverse_range(a, piv + 1, n);
    let ghost t = a@;
    proof {
        let pi = piv as int;
        let jj = j as int;
        assert forall|k: int| 0 <= k < pi implies t[k] == s[k] by {
            assert(t[k] == s1[k]);
        }
        assert forall|p: int, q: int| pi + 1 <= p <= q < n implies key(t[p], desc) <= key(t[q], desc) by {
            let pp = n - 1 - (p - pi - 1);
            let qq = n - 1 - (q - pi - 1);
            assert(t[p] == s1[pp]);
            assert(t[q] == s1[qq]);
        }
        lemma_step_is_next(s, t, pi, jj, desc);
        assert(t.take(pi) =~= s.take(pi));
        assert(is_last(s.skip(pi + 1), desc));
        assert(s[pi] == s[pi]);
    }
    true
}

/// Where the part of `s` after `k` is non-increasing, the permutation
/// right after `s` keeps that part sorted.
proof fn lemma_next_sorted_after_prefix_gen<T: TotalOrder>(s: Seq<T>, t: Seq<T>, k: int, desc: bool)
    requires
        0 <= k <= s.len(),
        is_last(s.skip(k), desc),
        exists|pi: int| #![trigger s[pi]] 0 <= pi < s.len() - 1
            && key(s[pi], desc) < key(s[pi + 1], desc)
            && is_last(s.skip(pi + 1), desc)
            && sorted_from(t, pi + 1, desc),
    ensures
        sorted_from(t, k, desc),
{
    let pi = choose|pi: int| #![trigger s[pi]] 0 <= pi < s.len() - 1
            && key(s[pi], desc) < key(s[pi + 1], desc)
            && is_last(s.skip(pi + 1), desc)
            && sorted_from(t, pi + 1, desc);
    if pi + 1 > k {
        assert(s.skip(k)[pi - k] == s[pi]);
        assert(s.skip(k)[pi + 1 - k] == s[pi + 1]);
    }
}

proof fn lemma_next_sorted_after_prefix<T: TotalOrder>(s: Seq<T>, t: Seq<T>, k: int)
    requires
        0 <= k <= s.len(),
        is_last(s.skip(k), false),
        exists|pi: int| #![trigger s[pi]] 0 <= pi < s.len() - 1
            && key(s[pi], false) < key(s[pi + 1], false)
            && is_last(s.skip(pi + 1), false)
            && sorted_from(t, pi + 1, false)
            && t.take(pi) == s.take(pi),
    ensures
        sorted_from(t, k, false),
{
    lemma_next_sorted_after_prefix_gen(s, t, k, false);
}

proof fn lemma_next_sorted_after_prefix_desc<T: TotalOrder>(s: Seq<T>, t: Seq<T>, k: int)
    requires
        0 <= k <= s.len(),
        is_last(s.skip(k), true),
        exists|pi: int| #![trigger s[pi]] 0 <= pi < s.len() - 1
            && key(s[pi], true) < key(s[pi + 1], true)
            && is_last(s.skip(pi + 1), true)
            && sorted_from(t, pi + 1, true)
            && t.take(pi) == s.take(pi),
    ensures
        sorted_from(t, k, true),
{
    lemma_next_sorted_after_prefix_gen(s, t, k, true);
}

/// Turns `a` into the next permutation in lexicographic order and returns
/// `true`; where `a` is the last one (non-increasing), reverses it into the
/// first one and returns `false`.
pub fn next_permutation<T: TotalOrder>(a: &mut Vec<T>) -> (r: bool)
    ensures
        r == !is_last(old(a)@, false),
        r ==> is_next(old(a)@, final(a)@, false),
        !r ==> final(a)@ == old(a)@.reverse(),
        is_perm(old(a)@, final(a)@),
        r ==> exists|pi: int| #![trigger old(a)@[pi]] 0 <= pi < old(a)@.len() - 1
            && key(old(a)@[pi], false) < key(old(a)@[pi + 1], false)
            && is_last(old(a)@.skip(pi + 1), false)
            && sorted_from(final(a)@, pi + 1, false)
            && final(a)@.take(pi) == old(a)@.take(pi),
{
    step_permutation(a, false)
}

/// Turns `a` into the previous permutation in lexicographic order and
/// returns `true`; where `a` is the first one (non-decreasing), reverses it
/// into the last one and returns `false`.
pub fn prev_permutation<T: TotalOrder>(a: &mut Vec<T>) -> (r: bool)
    ensures
        r == !is_last(old(a)@, true),
        r ==> is_next(old(a)@, final(a)@, true),
        !r ==> final(a)@ == old(a)@.reverse(),
        is_perm(old(a)@, final(a)@),
        r ==> exists|pi: int| #![trigger old(a)@[pi]] 0 <= pi < old(a)@.len() - 1
            && key(old(a)@[pi], true) < key(old(a)@[pi + 1], true)
            && is_last(old(a)@.skip(pi + 1), true)
            && sorted_from(final(a)@, pi + 1, true)
            && final(a)@.take(pi) == old(a)@.take(pi),
{
    step_permutation(a, true)
}

/// The previous permutation undoes the next one: where `t` comes right after
/// `s`, `s` comes right before `t`.
pub proof fn lemma_prev_undoes_next<T: TotalOrder>(s: Seq<T>, t: Seq<T>)
    requires
        is_next(s, t, false),
    ensures
        is_next(t, s, true),
{
    lemma_lex_flip(s, t, false);
    assert forall|p: Seq<T>| is_perm(t, p) && lex_lt(t, p, true) implies !lex_lt(p, s, true) by {
        lemma_lex_flip(t, p, true);
        lemma_lex_flip(p, s, true);
        if lex_lt(s, p, false) {
            assert(is_perm(s, p));
            assert(!lex_lt(p, t, false));
        }
    }
}

/// The next permutation undoes the previous one.
pub proof fn lemma_next_undoes_prev<T: TotalOrder>(s: Seq<T>, t: Seq<T>)
    requires
        is_next(s, t, true),
    ensures
        is_next(t, s, false),
{
    lemma_lex_flip(s, t, true);
    assert forall|p: Seq<T>| is_perm(t, p) && lex_lt(t, p, false) implies !lex_lt(p, s, false) by {
        lemma_lex_flip(t, p, false);
        lemma_lex_flip(p, s, false);
        if lex_lt(s, p, true) {
            assert(is_perm(s, p));
            assert(!lex_lt(p, t, true));
        }
    }
}


proof fn lemma_first_diff<T: TotalOrder>(t1: Seq<T>, t2: Seq<T>, i: int, desc: bool)
    requires
        t1.len() == t2.len(),
        t1 != t2,
        0 <= i <= t1.len(),
        forall|k: int| 0 <= k < i ==> t1[k] == t2[k],
    ensures
        lex_lt(t1, t2, desc) || lex_lt(t2, t1, desc),
    decreases t1.len() - i,
{
    if i == t1.len() {
        assert(t1 =~= t2);
    } else if t1[i] == t2[i] {
        lemma_first_diff(t1, t2, i + 1, desc);
    } else {
        if key(t1[i], desc) == key(t2[i], desc) {
            lemma_rank_eq(t1[i], t2[i], desc);
        }
        if key(t1[i], desc) < key(t2[i], desc) {
            assert(lex_lt_at(t1, t2, i, desc));
        } else {
            assert(lex_lt_at(t2, t1, i, desc));
        }
    }
}

/// There is one next permutation only.
pub proof fn lemma_next_unique<T: TotalOrder>(s: Seq<T>, t1: Seq<T>, t2: Seq<T>, desc: bool)
    requires
        is_next(s, t1, desc),
        is_next(s, t2, desc),
    ensures
        t1 == t2,
{
    assert(s.to_multiset().len() == s.len());
    assert(t1.to_multiset().len() == t1.len());
    assert(t2.to_multiset().len() == t2.len());
    if t1 != t2 {
        lemma_first_diff(t1, t2, 0, desc);
        assert(!lex_lt(t1, t2, desc));
        assert(!lex_lt(t2, t1, desc));
    }
}

/// What one step of `next_permutation` (`desc == false`) or
/// `prev_permutation` (`desc == true`) does to `s`, giving `t` and
/// returning `r`.
pub open spec fn steps_to<T: TotalOrder>(s: Seq<T>, t: Seq<T>, r: bool, desc: bool) -> bool {
    &&& r == !is_last(s, desc)
    &&& r ==> is_next(s, t, desc)
    &&& !r ==> t == s.reverse()
}

/// A step one way undoes a step the other way: `prev_permutation` after
/// `next_permutation` (or the converse) gives back the arrangement it
/// started from and returns the same, also where the first step wrapped
/// round from the last arrangement to the first.
pub proof fn lemma_step_undone<T: TotalOrder>(a: Seq<T>, b: Seq<T>, c: Seq<T>, r1: bool, r2: bool, desc: bool)
    requires
        steps_to(a, b, r1, desc),
        steps_to(b, c, r2, !desc),
    ensures
        c == a,
        r2 == r1,
{
    if r1 {
        if desc {
            lemma_next_undoes_prev(a, b);
        } else {
            lemma_prev_undoes_next(a, b);
        }
        assert(is_next(b, a, !desc));
        if is_last(b, !desc) {
            lemma_last_is_max(b, a, !desc);
        }
        lemma_next_unique(b, a, c, !desc);
    } else {
        assert forall|i: int, j: int| 0 <= i <= j < b.len() implies key(b[i], !desc) >= key(b[j], !desc) by {
            assert(b[i] == a[a.len() - 1 - i]);
            assert(b[j] == a[a.len() - 1 - j]);
            assert(key(a[a.len() - 1 - j], desc) >= key(a[a.len() - 1 - i], desc));
        }
        assert(is_last(b, !desc));
        assert(c =~= a);
    }
}

/// `s[lo..]` is non-decreasing in the order given by `desc`.
pub open spec fn sorted_from<T: TotalOrder>(s: Seq<T>, lo: int, desc: bool) -> bool {
    forall|p: int, q: int| lo <= p <= q < s.len() ==> key(s[p], desc) <= key(s[q], desc)
}

/// Sorts `v[lo..]` into non-decreasing order (non-increasing when `desc`).
fn sort_from<T: TotalOrder>(v: &mut Vec<T>, lo: usize, desc: bool)
    requires
        lo <= old(v)@.len(),
    ensures
        final(v)@.len() == old(v)@.len(),
        final(v)@.take(lo as int) == old(v)@.take(lo as int),
        sorted_from(final(v)@, lo as int, desc),
        is_perm(old(v)@, final(v)@),
{
    let ghost s = v@;
    let n = v.len();
    let mut i = lo;
    while i < n
        invariant
            lo <= i <= n,
            n == v@.len(),
            v@.take(lo as int) == s.take(lo as int),
            is_perm(s, v@),
            forall|p: int, q: int| lo <= p <= q < i ==> key(v@[p], desc) <= key(v@[q], desc),
        decreases n - i,
    {
        let mut j = i;
        while j > lo && key_less(&v[j], &v[j - 1], desc)
            invariant
                lo <= j <= i < n,
                n == v@.len(),
                v@.take(lo as int) == s.take(lo as int),
                is_perm(s, v@),
                forall|p: int, q: int| lo <= p <= q < j ==> key(v@[p], desc) <= key(v@[q], desc),
                forall|p: int, q: int| j <= p <= q <= i ==> key(v@[p], desc) <= key(v@[q], desc),
                forall|p: int, q: int| lo <= p < j && j < q <= i ==> key(v@[p], desc) <= key(v@[q], desc),
            decreases j,
        {
            let ghost before = v@;
            swap_at(v, j - 1, j);
            proof {
                assert(v@.take(lo as int) =~= before.take(lo as int));
            }
            j -= 1;
        }
        i += 1;
    }
}

/// The permutations of a sequence, stepped through in lexicographic order.
pub struct Permutations<T>(pub Vec<T>);

impl<T> From<Vec<T>> for Permutations<T> {
    fn from(buf: Vec<T>) -> (r: Self) {
        Permutations(buf)
    }
}

impl<T> vstd::std_specs::convert::FromSpecImpl<Vec<T>> for Permutations<T> {
    open spec fn obeys_from_spec() -> bool {
        true
    }

    open spec fn from_spec(v: Vec<T>) -> Self {
        Permutations(v)
    }
}

impl<T: TotalOrder> Permutations<T> {
    /// The current permutation.
    pub open spec fn view(&self) -> Seq<T> {
        self.0@
    }

    /// Steps to the next permutation; see [`next_permutation`].
    pub fn next(&mut self) -> (r: bool)
        ensures
            r == !is_last(old(self).view(), false),
            r ==> is_next(old(self).view(), final(self).view(), false),
            !r ==> final(self).view() == old(self).view().reverse(),
    {
        next_permutation(&mut self.0)
    }

    /// Steps to the previous permutation; see [`prev_permutation`].
    pub fn prev(&mut self) -> (r: bool)
        ensures
            r == !is_last(old(self).view(), true),
            r ==> is_next(old(self).view(), final(self).view(), true),
            !r ==> final(self).view() == old(self).view().reverse(),
    {
        prev_permutation(&mut self.0)
    }

    /// The current permutation.
    pub fn peek(&self) -> (r: &[T])
        ensures
            r@ == self.view(),
    {
        self.0.as_slice()
    }

    /// Iterates over the `count`-prefixes of the permutations, in increasing
    /// order, from the current one.
    pub fn forward(self, count: usize) -> (r: Forward<T>)
        requires
            count <= self.view().len(),
        ensures
            r.wf(),
            r.count == count,
            !r.finish,
            r.buf@.take(count as int) == self.view().take(count as int),
            is_perm(self.view(), r.buf@),
    {
        Forward::new(self, count)
    }

    /// Iterates over the `count`-prefixes of the permutations, in decreasing
    /// order, from the current one.
    pub fn backward(self, count: usize) -> (r: Backward<T>)
        requires
            count <= self.view().len(),
        ensures
            r.wf(),
            r.count == count,
            !r.finish,
            r.buf@.take(count as int) == self.view().take(count as int),
            is_perm(self.view(), r.buf@),
    {
        Backward::new(self, count)
    }
}

/// The permutation that has the prefix `s[..count]` and comes last among
/// those with it: the rest of `s`, sorted, reversed.
pub open spec fn last_with_prefix<T>(s: Seq<T>, count: int) -> Seq<T> {
    s.take(count) + s.skip(count).reverse()
}

/// The `count`-prefixes of the permutations of a sequence, in increasing
/// lexicographic order.
pub struct Forward<T> {
    pub buf: Vec<T>,
    pub count: usize,
    pub finish: bool,
}

impl<T: TotalOrder> Forward<T> {
    /// The state is valid: the part after the prefix is sorted.
    pub open spec fn wf(&self) -> bool {
        &&& self.count <= self.buf@.len()
        &&& sorted_from(self.buf@, self.count as int, false)
    }

    pub fn new(perm: Permutations<T>, count: usize) -> (r: Self)
        requires
            count <= perm.view().len(),
        ensures
            r.wf(),
            r.count == count,
            !r.finish,
            r.buf@.take(count as int) == perm.view().take(count as int),
            is_perm(perm.view(), r.buf@),
    {
        let mut buf = perm.0;
        sort_from(&mut buf, count, false);
        Forward { buf, count, finish: false }
    }

    /// Returns the current prefix and steps to the next one: the prefix of
    /// the permutation right after the last one with the current prefix.
    pub fn next(&mut self) -> (r: Option<Vec<T>>)
        requires
            old(self).wf(),
        ensures
            final(self).wf(),
            final(self).count == old(self).count,
            old(self).finish ==> r is None && final(self).finish,
            !old(self).finish ==> (r matches Some(p) && p@ == old(self).buf@.take(old(self).count as int)),
            !old(self).finish ==> final(self).finish == is_last(last_with_prefix(old(self).buf@, old(self).count as int), false),
            !old(self).finish && !final(self).finish ==> is_next(
                last_with_prefix(old(self).buf@, old(self).count as int),
                final(self).buf@,
                false,
            ),
            is_perm(old(self).buf@, final(self).buf@),
    {
        if self.finish {
            return None;
        }
        let ghost s = self.buf@;
        let k = self.count;
        let n = self.buf.len();
        let mut tmp: Vec<T> = Vec::new();
        let mut i: usize = 0;
        while i < k
            invariant
                i <= k <= n,
                n == self.buf@.len(),
                tmp@ == self.buf@.take(i as int),
            decreases k - i,
        {
            tmp.push(self.buf[i]);
            i += 1;
            assert(tmp@ =~= self.buf@.take(i as int));
        }
        reverse_range(&mut self.buf, k, n);
        let ghost mid = self.buf@;
        proof {
            assert(mid =~= last_with_prefix(s, k as int));
            assert(is_last(mid.skip(k as int), false)) by {
                assert forall|p: int, q: int| 0 <= p <= q < mid.skip(k as int).len() implies
                    key(mid.skip(k as int)[p], false) >= key(mid.skip(k as int)[q], false) by {
                    assert(mid.skip(k as int)[p] == s[n - 1 - p]);
                    assert(mid.skip(k as int)[q] == s[n - 1 - q]);
                }
            }
        }
        let more = next_permutation(&mut self.buf);
        self.finish = !more;
        proof {
            let t = self.buf@;
            if more {
                // the pivot of the step lies in the prefix, so the rest is sorted
                lemma_next_sorted_after_prefix(mid, t, k as int);
            } else {
                assert forall|p: int, q: int| k <= p <= q < n implies key(t[p], false) <= key(t[q], false) by {
                    assert(t[p] == mid[n - 1 - p]);
                    assert(t[q] == mid[n - 1 - q]);
                }
            }
        }
        Some(tmp)
    }
}

/// The `count`-prefixes of the permutations of a sequence, in decreasing
/// lexicographic order.
pub struct Backward<T> {
    pub buf: Vec<T>,
    pub count: usize,
    pub finish: bool,
}

impl<T: TotalOrder> Backward<T> {
    /// The state is valid: the part after the prefix is sorted in reverse.
    pub open spec fn wf(&self) -> bool {
        &&& self.count <= self.buf@.len()
        &&& sorted_from(self.buf@, self.count as int, true)
    }

    pub fn new(perm: Permutations<T>, count: usize) -> (r: Self)
        requires
            count <= perm.view().len(),
        ensures
            r.wf(),
            r.count == count,
            !r.finish,
            r.buf@.take(count as int) == perm.view().take(count as int),
            is_perm(perm.view(), r.buf@),
    {
        let mut buf = perm.0;
        sort_from(&mut buf, count, true);
        Backward { buf, count, finish: false }
    }

    /// Returns the current prefix and steps to the previous one: the prefix
    /// of the permutation right before the first one with the current prefix.
    pub fn next(&mut self) -> (r: Option<Vec<T>>)
        requires
            old(self).wf(),
        ensures
            final(self).wf(),
            final(self).count == old(self).count,
            old(self).finish ==> r is None && final(self).finish,
            !old(self).finish ==> (r matches Some(p) && p@ == old(self).buf@.take(old(self).count as int)),
            !old(self).finish ==> final(self).finish == is_last(last_with_prefix(old(self).buf@, old(self).count as int), true),
            !old(self).finish && !final(self).finish ==> is_next(
                last_with_prefix(old(self).buf@, old(self).count as int),
                final(self).buf@,
                true,
            ),
            is_perm(old(self).buf@, final(self).buf@),
    {
        if self.finish {
            return None;
        }
        let ghost s = self.buf@;
        let k = self.count;
        let n = self.buf.len();
        let mut tmp: Vec<T> = Vec::new();
        let mut i: usize = 0;
        while i < k
            invariant
                i <= k <= n,
                n == self.buf@.len(),
                tmp@ == self.buf@.take(i as int),
            decreases k - i,
        {
            tmp.push(self.buf[i]);
            i += 1;
            assert(tmp@ =~= self.buf@.take(i as int));
        }
        reverse_range(&mut self.buf, k, n);
        let ghost mid = self.buf@;
        proof {
            assert(mid =~= last_with_prefix(s, k as int));
            assert(is_last(mid.skip(k as int), true)) by {
                assert forall|p: int, q: int| 0 <= p <= q < mid.skip(k as int).len() implies
                    key(mid.skip(k as int)[p], true) >= key(mid.skip(k as int)[q], true) by {
                    assert(mid.skip(k as int)[p] == s[n - 1 - p]);
                    assert(mid.skip(k as int)[q] == s[n - 1 - q]);
                }
            }
        }
        let more = prev_permutation(&mut self.buf);
        self.finish = !more;
        proof {
            let t = self.buf@;
            if more {
                lemma_next_sorted_after_prefix_desc(mid, t, k as int);
            } else {
                assert forall|p: int, q: int| k <= p <= q < n implies key(t[p], true) <= key(t[q], true) by {
                    assert(t[p] == mid[n - 1 - p]);
                    assert(t[q] == mid[n - 1 - q]);
                }
            }
        }
        Some(tmp)
    }
}

} // verus!
