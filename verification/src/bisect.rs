use vstd::prelude::*;

verus! {

/// Every outcome of `pred` on `i` is `true` at the indices below `j`
/// and below `i` whenever it is at `i`: the predicate is monotone and
/// deterministic on `start..end`.
pub open spec fn monotone_pred<F: Fn(usize) -> bool>(pred: F, start: usize, end: usize) -> bool {
    forall|i: usize, j: usize, bi: bool, bj: bool|
        start <= i <= j < end && call_ensures(pred, (i,), bi) && call_ensures(pred, (j,), bj) && bj
            ==> bi
}

/// Finds the least `i` in `start..end` on which `pred` is false, or `end`.
pub fn bisect<F: Fn(usize) -> bool>(start: usize, end: usize, pred: F) -> (res: usize)
    requires
        start <= end,
        forall|i: usize| start <= i < end ==> call_requires(pred, (i,)),
        monotone_pred(pred, start, end),
    ensures
        start <= res <= end,
        forall|i: usize, b: bool| start <= i < res && call_ensures(pred, (i,), b) ==> b,
        forall|b: bool| res < end && call_ensures(pred, (res,), b) ==> !b,
        res > start ==> call_ensures(pred, ((res - 1) as usize,), true),
        res < end ==> call_ensures(pred, (res,), false),
{
    if start == end {
        return start;
    }
    let mut ok = start;
    let mut bad = end;
    while bad - ok > 1
        invariant
            start <= ok < bad <= end,
            forall|i: usize| start <= i < end ==> call_requires(pred, (i,)),
            monotone_pred(pred, start, end),
            ok > start ==> exists|b: bool| call_ensures(pred, (ok,), b) && b,
            bad < end ==> exists|b: bool| call_ensures(pred, (bad,), b) && !b,
        decreases bad - ok,
    {
        let mid = ok + (bad - ok) / 2;
        if pred(mid) {
            ok = mid;
        } else {
            bad = mid;
        }
    }
    if ok == start && !pred(start) {
        start
    } else {
        bad
    }
}


/// `pred` is monotone and deterministic on the elements of `buf`: once some
/// outcome on an element is `false`, no outcome on a later element is `true`.
pub open spec fn monotone_pred_slice<T, F: Fn(&T) -> bool>(buf: Seq<T>, pred: F) -> bool {
    forall|i: int, j: int, bi: bool, bj: bool|
        0 <= i <= j < buf.len() && call_ensures(pred, (&buf[i],), bi) && call_ensures(
            pred,
            (&buf[j],),
            bj,
        ) && bj ==> bi
}

/// Finds the least `i` for which `pred(&buf[i])` is false, or `buf.len()`.
pub fn bisect_slice<T, F: Fn(&T) -> bool>(buf: &[T], pred: F) -> (res: usize)
    requires
        forall|i: int| 0 <= i < buf@.len() ==> call_requires(pred, (&buf@[i],)),
        monotone_pred_slice(buf@, pred),
    ensures
        res <= buf@.len(),
        forall|i: int, b: bool| 0 <= i < res && call_ensures(pred, (&buf@[i],), b) ==> b,
        forall|b: bool| res < buf@.len() && call_ensures(pred, (&buf@[res as int],), b) ==> !b,
        res > 0 ==> call_ensures(pred, (&buf@[res - 1],), true),
        res < buf@.len() ==> call_ensures(pred, (&buf@[res as int],), false),
{
    let end = buf.len();
    if end == 0 {
        return 0;
    }
    let mut ok: usize = 0;
    let mut bad: usize = end;
    while bad - ok > 1
        invariant
            end == buf@.len(),
            ok < bad <= end,
            forall|i: int| 0 <= i < buf@.len() ==> call_requires(pred, (&buf@[i],)),
            monotone_pred_slice(buf@, pred),
            ok > 0 ==> exists|b: bool| call_ensures(pred, (&buf@[ok as int],), b) && b,
            bad < end ==> exists|b: bool| call_ensures(pred, (&buf@[bad as int],), b) && !b,
        decreases bad - ok,
    {
        let mid = ok + (bad - ok) / 2;
        if pred(&buf[mid]) {
            ok = mid;
        } else {
            bad = mid;
        }
    }
    if ok == 0 && !pred(&buf[0]) {
        0
    } else {
        bad
    }
}

} // verus!
