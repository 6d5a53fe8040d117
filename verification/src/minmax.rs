//! The minimum and maximum of a slice.
use std::cmp::Ordering;
use vstd::prelude::*;

use crate::order::{int_of, TotalOrder};

verus! {

/// `buf[i]` is a leftmost minimum and `buf[j]` a rightmost maximum of
/// `buf` under the integer measure `f`.
pub open spec fn is_minmax_at<T>(buf: Seq<T>, f: spec_fn(T) -> int, i: int, j: int) -> bool {
    &&& 0 <= i < buf.len()
    &&& 0 <= j < buf.len()
    &&& forall|k: int| 0 <= k < buf.len() ==> f(buf[i]) <= f(#[trigger] buf[k])
    &&& forall|k: int| 0 <= k < i ==> f(buf[i]) < f(#[trigger] buf[k])
    &&& forall|k: int| 0 <= k < buf.len() ==> f(#[trigger] buf[k]) <= f(buf[j])
    &&& forall|k: int| j < k < buf.len() ==> f(#[trigger] buf[k]) < f(buf[j])
}

/// Returns the minimum and the maximum of `buf`; `None` when it is empty.
/// Of equal elements the leftmost is the minimum and the rightmost the maximum.
pub fn minmax<T: TotalOrder>(buf: &[T]) -> (res: Option<(&T, &T)>)
    ensures
        res is None <==> buf@.len() == 0,
        res matches Some((mn, mx)) ==> exists|i: int, j: int|
            is_minmax_at(buf@, |x: T| x.rank(), i, j) && buf@[i] == *mn && buf@[j] == *mx,
{
    if buf.len() == 0 {
        return None;
    }
    let mut mi: usize = 0;
    let mut ma: usize = 0;
    let mut k: usize = 1;
    while k < buf.len()
        invariant
            1 <= k <= buf@.len(),
            is_minmax_at(buf@.take(k as int), |x: T| x.rank(), mi as int, ma as int),
        decreases buf@.len() - k,
    {
        if buf[k].less(&buf[mi]) {
            mi = k;
        }
        if !buf[k].less(&buf[ma]) {
            ma = k;
        }
        k += 1;
        assert(buf@.take(k as int) =~= buf@.take(k - 1).push(buf@[k - 1]));
    }
    assert(buf@.take(k as int) =~= buf@);
    Some((&buf[mi], &buf[ma]))
}

/// The key that `key` gives `x`, where it gives one.
pub open spec fn key_of<T, U, K: Fn(&T) -> U>(key: K, x: T) -> U {
    choose|u: U| call_ensures(key, (&x,), u)
}

/// `key` gives every element of `buf` one key only.
pub open spec fn deterministic_key<T, U, K: Fn(&T) -> U>(buf: Seq<T>, key: K) -> bool {
    forall|i: int, u: U, v: U|
        0 <= i < buf.len() && call_ensures(key, (&buf[i],), u) && call_ensures(key, (&buf[i],), v)
            ==> u == v
}

/// Returns the elements of `buf` of least and greatest key; `None` when it
/// is empty. Of elements with equal keys the leftmost is the minimum and
/// the rightmost the maximum.
pub fn minmax_by_key<T, U: TotalOrder, K: Fn(&T) -> U>(buf: &[T], key: K) -> (res: Option<(&T, &T)>)
    requires
        forall|i: int| 0 <= i < buf@.len() ==> call_requires(key, (&buf@[i],)),
        deterministic_key(buf@, key),
    ensures
        res is None <==> buf@.len() == 0,
        res matches Some((mn, mx)) ==> exists|i: int, j: int|
            is_minmax_at(buf@, |x: T| key_of(key, x).rank(), i, j) && buf@[i] == *mn && buf@[j]
                == *mx,
        forall|i: int| 0 <= i < buf@.len() ==> call_ensures(key, (&buf@[i],), #[trigger] key_of(key, buf@[i])),
{
    if buf.len() == 0 {
        return None;
    }
    let ghost f = |x: T| key_of(key, x).rank();
    let mut mi: usize = 0;
    let mut ma: usize = 0;
    let k0 = key(&buf[0]);
    let mut kmi = k0;
    let mut kma = k0;
    let mut k: usize = 1;
    while k < buf.len()
        invariant
            1 <= k <= buf@.len(),
            forall|i: int| 0 <= i < buf@.len() ==> call_requires(key, (&buf@[i],)),
            deterministic_key(buf@, key),
            f == (|x: T| key_of(key, x).rank()),
            forall|i: int| 0 <= i < k ==> call_ensures(key, (&buf@[i],), key_of(key, buf@[i])),
            kmi == key_of(key, buf@[mi as int]),
            kma == key_of(key, buf@[ma as int]),
            is_minmax_at(buf@.take(k as int), f, mi as int, ma as int),
        decreases buf@.len() - k,
    {
        let kk = key(&buf[k]);
        assert(kk == key_of(key, buf@[k as int]));
        if kk.less(&kmi) {
            mi = k;
            kmi = kk;
        }
        if !kk.less(&kma) {
            ma = k;
            kma = kk;
        }
        k += 1;
        assert(buf@.take(k as int) =~= buf@.take(k - 1).push(buf@[k - 1]));
    }
    assert(buf@.take(k as int) =~= buf@);
    Some((&buf[mi], &buf[ma]))
}

/// The order of two integers.
pub open spec fn ord_of(a: int, b: int) -> Ordering {
    if a < b {
        Ordering::Less
    } else if a == b {
        Ordering::Equal
    } else {
        Ordering::Greater
    }
}

/// On the elements of `buf`, every outcome of `compare` is the order of
/// their keys: `compare` is a total preorder there, given by `key`.
pub open spec fn keyed_by<T, F: Fn(&T, &T) -> Ordering>(buf: Seq<T>, compare: F, key: spec_fn(T) -> int) -> bool {
    forall|i: int, j: int, o: Ordering|
        0 <= i < buf.len() && 0 <= j < buf.len() && #[trigger] call_ensures(compare, (&buf[i], &buf[j]), o) ==> o
            == ord_of(key(buf[i]), key(buf[j]))
}

/// Every outcome of `compare` on `(x, y)` is not `Greater`.
pub open spec fn not_greater<T, F: Fn(&T, &T) -> Ordering>(compare: F, x: T, y: T) -> bool {
    forall|o: Ordering| #[trigger] call_ensures(compare, (&x, &y), o) ==> !(o is Greater)
}

/// Every outcome of `compare` on `(x, y)` is `Less`.
pub open spec fn less_out<T, F: Fn(&T, &T) -> Ordering>(compare: F, x: T, y: T) -> bool {
    forall|o: Ordering| #[trigger] call_ensures(compare, (&x, &y), o) ==> o is Less
}

/// `buf[i]` is a leftmost minimum and `buf[j]` a rightmost maximum of
/// `buf` under `compare`, in terms of its outcomes.
pub open spec fn is_minmax_by_at<T, F: Fn(&T, &T) -> Ordering>(buf: Seq<T>, compare: F, i: int, j: int) -> bool {
    &&& 0 <= i < buf.len()
    &&& 0 <= j < buf.len()
    &&& forall|k: int| 0 <= k < buf.len() ==> not_greater(compare, buf[i], #[trigger] buf[k])
    &&& forall|k: int| 0 <= k < i ==> less_out(compare, buf[i], #[trigger] buf[k])
    &&& forall|k: int| 0 <= k < buf.len() ==> not_greater(compare, #[trigger] buf[k], buf[j])
    &&& forall|k: int| j < k < buf.len() ==> less_out(compare, #[trigger] buf[k], buf[j])
}

/// Returns the least and the greatest element of `buf` under `compare`;
/// `None` when it is empty. Of equivalent elements the leftmost is the
/// minimum and the rightmost the maximum.
pub fn minmax_by<T, F: Fn(&T, &T) -> Ordering>(buf: &[T], compare: F) -> (res: Option<(&T, &T)>)
    requires
        forall|i: int, j: int| 0 <= i < buf@.len() && 0 <= j < buf@.len() ==> call_requires(compare, (&buf@[i], &buf@[j])),
        exists|key: spec_fn(T) -> int| keyed_by(buf@, compare, key),
    ensures
        res is None <==> buf@.len() == 0,
        res matches Some((mn, mx)) ==> exists|i: int, j: int|
            is_minmax_by_at(buf@, compare, i, j) && buf@[i] == *mn && buf@[j] == *mx,
{
    if buf.len() == 0 {
        return None;
    }
    let ghost key = choose|key: spec_fn(T) -> int| keyed_by(buf@, compare, key);
    let ghost kf = |x: T| key(x);
    let mut mi: usize = 0;
    let mut ma: usize = 0;
    let mut k: usize = 1;
    while k < buf.len()
        invariant
            1 <= k <= buf@.len(),
            forall|i: int, j: int| 0 <= i < buf@.len() && 0 <= j < buf@.len() ==> call_requires(compare, (&buf@[i], &buf@[j])),
            keyed_by(buf@, compare, key),
            kf == (|x: T| key(x)),
            is_minmax_at(buf@.take(int_of(k)), kf, int_of(mi), int_of(ma)),
        decreases buf@.len() - k,
    {
        let c1 = compare(&buf[k], &buf[mi]);
        proof {
            assert(c1 == ord_of(key(buf@[int_of(k)]), key(buf@[int_of(mi)])));
        }
        let new_mi = match c1 {
            Ordering::Less => true,
            _ => false,
        };
        let c2 = compare(&buf[k], &buf[ma]);
        proof {
            assert(c2 == ord_of(key(buf@[int_of(k)]), key(buf@[int_of(ma)])));
        }
        let new_ma = match c2 {
            Ordering::Less => false,
            _ => true,
        };
        if new_mi {
            mi = k;
        }
        if new_ma {
            ma = k;
        }
        k += 1;
        proof {
            assert(buf@.take(int_of(k)) =~= buf@.take(k - 1).push(buf@[k - 1]));
        }
    }
    proof {
        let s = buf@;
        assert(s.take(int_of(k)) =~= s);
        let i = int_of(mi);
        let j = int_of(ma);
        assert forall|q: int| 0 <= q < s.len() implies not_greater(compare, s[i], #[trigger] s[q]) by {
            assert(kf(s[i]) <= kf(s[q]));
        }
        assert forall|q: int| 0 <= q < i implies less_out(compare, s[i], #[trigger] s[q]) by {
            assert(kf(s[i]) < kf(s[q]));
        }
        assert forall|q: int| 0 <= q < s.len() implies not_greater(compare, #[trigger] s[q], s[j]) by {
            assert(kf(s[q]) <= kf(s[j]));
        }
        assert forall|q: int| j < q < s.len() implies less_out(compare, #[trigger] s[q], s[j]) by {
            assert(kf(s[q]) < kf(s[j]));
        }
        assert(is_minmax_by_at(s, compare, i, j));
    }
    Some((&buf[mi], &buf[ma]))
}

} // verus!
