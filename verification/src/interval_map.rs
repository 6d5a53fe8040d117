//! Maps from the points of disjoint intervals to values.
//!
//! The map is kept as its canonical decomposition: non-empty intervals in
//! order, each wholly below the next, where two neighbours with the same
//! value always have a point between them. Points are those of
//! [`crate::interval`].
use vstd::prelude::*;

use crate::bound::Bound;
use crate::interval::{hi, left_le, left_le_exec, lo, reaches_exec, right_le, right_le_exec, interval_of, Interval, Left, Right};
use crate::order::TotalOrder;

verus! {

/// Every point of `a` lies below every point of `b`, with more than `gap`
/// points between them.
pub open spec fn before<K: TotalOrder>(a: Interval<K>, b: Interval<K>, gap: int) -> bool {
    match (hi(a.right), lo(b.left)) {
        (Some(h), Some(l)) => h + gap < l,
        _ => false,
    }
}

/// Entry `e` holds point `z`.
pub open spec fn holds<K: TotalOrder, V>(e: (Interval<K>, V), z: int) -> bool {
    e.0.has_point(z)
}

/// The entries are non-empty and in order, each wholly below the next.
pub open spec fn sorted_disjoint<K: TotalOrder, V>(es: Seq<(Interval<K>, V)>) -> bool {
    &&& forall|i: int| 0 <= i < es.len() ==> !(#[trigger] es[i]).0.empty_spec()
    &&& forall|i: int, j: int| 0 <= i < j < es.len() ==> before(#[trigger] es[i].0, #[trigger] es[j].0, 0)
}

/// Neighbouring entries with the same value have a point between them.
pub open spec fn coalesced<K: TotalOrder, V>(es: Seq<(Interval<K>, V)>) -> bool {
    forall|i: int, j: int|
        0 <= i && j == i + 1 && j < es.len() ==> (#[trigger] es[i]).1 != (#[trigger] es[j]).1 || before(es[i].0, es[j].0, 1)
}

/// The canonical decomposition of a map from points to values.
pub open spec fn canonical<K: TotalOrder, V>(es: Seq<(Interval<K>, V)>) -> bool {
    sorted_disjoint(es) && coalesced(es)
}

/// Some entry holds `z`.
pub open spec fn covered<K: TotalOrder, V>(es: Seq<(Interval<K>, V)>, z: int) -> bool {
    exists|i: int| 0 <= i < es.len() && #[trigger] holds(es[i], z)
}

/// The map from each point held by an entry to that entry's value.
pub open spec fn map_of<K: TotalOrder, V>(es: Seq<(Interval<K>, V)>) -> Map<int, V> {
    Map::new(|z: int| covered(es, z), |z: int| es[choose|i: int| 0 <= i < es.len() && #[trigger] holds(es[i], z)].1)
}

/// The points of an interval.
pub open spec fn points<K: TotalOrder>(it: Interval<K>) -> Set<int> {
    Set::new(|z: int| it.has_point(z))
}

/// The map from every point of `it` to `v`.
pub open spec fn constant_on<K: TotalOrder, V>(it: Interval<K>, v: V) -> Map<int, V> {
    Map::new(|z: int| it.has_point(z), |z: int| v)
}

/// The higher of two lower ends.
pub open spec fn max_left<K: TotalOrder>(a: Left<K>, b: Left<K>) -> Left<K> {
    if left_le(a, b) {
        b
    } else {
        a
    }
}

/// The lower of two upper ends.
pub open spec fn min_right<K: TotalOrder>(a: Right<K>, b: Right<K>) -> Right<K> {
    if right_le(a, b) {
        a
    } else {
        b
    }
}

/// The intersection of two intervals.
pub open spec fn meet<K: TotalOrder>(a: Interval<K>, b: Interval<K>) -> Interval<K> {
    Interval { left: max_left(a.left, b.left), right: min_right(a.right, b.right) }
}

/// The upper end just below a lower end.
pub open spec fn flip_left<K: TotalOrder>(l: Left<K>) -> Option<Right<K>> {
    match l {
        Left::NegInfinity => None,
        Left::Closed(x) => Some(Right::Open(x)),
        Left::Open(x) => Some(Right::Closed(x)),
    }
}

/// The lower end just above an upper end.
pub open spec fn flip_right<K: TotalOrder>(r: Right<K>) -> Option<Left<K>> {
    match r {
        Right::Open(x) => Some(Left::Closed(x)),
        Right::Closed(x) => Some(Left::Open(x)),
        Right::PosInfinity => None,
    }
}

/// The part of `e` below `it`, as an interval that may be empty.
pub open spec fn left_part<K: TotalOrder>(e: Interval<K>, it: Interval<K>) -> Option<Interval<K>> {
    match flip_left(it.left) {
        None => None,
        Some(r) => Some(Interval { left: e.left, right: min_right(e.right, r) }),
    }
}

/// The part of `e` above `it`, as an interval that may be empty.
pub open spec fn right_part<K: TotalOrder>(e: Interval<K>, it: Interval<K>) -> Option<Interval<K>> {
    match flip_right(it.right) {
        None => None,
        Some(l) => Some(Interval { left: max_left(e.left, l), right: e.right }),
    }
}

/// The parts of the entries inside `it`, with their values, in order.
pub open spec fn pieces<K: TotalOrder, V>(es: Seq<(Interval<K>, V)>, it: Interval<K>) -> Seq<(Interval<K>, V)>
    decreases es.len(),
{
    if es.len() == 0 {
        Seq::empty()
    } else {
        let r = pieces(es.drop_last(), it);
        let e = es.last();
        if meet(e.0, it).empty_spec() {
            r
        } else {
            r.push((meet(e.0, it), e.1))
        }
    }
}

/// The part of an entry inside `it`.
pub open spec fn piece_of<K: TotalOrder, V>(it: Interval<K>) -> spec_fn((Interval<K>, V)) -> (Interval<K>, V) {
    |e: (Interval<K>, V)| (meet(e.0, it), e.1)
}

/// The entry has a point inside `it`.
pub open spec fn meets<K: TotalOrder, V>(it: Interval<K>) -> spec_fn((Interval<K>, V)) -> bool {
    |e: (Interval<K>, V)| !meet(e.0, it).empty_spec()
}

/// The pieces are, in the order of the entries, the part inside `it` of
/// every entry that has a point inside `it`, each with its value; taken
/// from sorted disjoint entries, they are sorted and disjoint too.
pub proof fn lemma_pieces_are<K: TotalOrder, V>(es: Seq<(Interval<K>, V)>, it: Interval<K>)
    ensures
        pieces(es, it) == es.filter(meets::<K, V>(it)).map_values(piece_of::<K, V>(it)),
        forall|i: int| 0 <= i < pieces(es, it).len() ==> exists|j: int|
            0 <= j < es.len() && #[trigger] pieces(es, it)[i] == (meet(es[j].0, it), es[j].1),
        sorted_disjoint(es) ==> sorted_disjoint(pieces(es, it)),
    decreases es.len(),
{
    if es.len() > 0 {
        let d = es.drop_last();
        lemma_pieces_are(d, it);
        let e = es.last();
        let r = pieces(d, it);
        reveal(Seq::filter);
        assert(es.filter(meets::<K, V>(it)) == if meets::<K, V>(it)(e) { d.filter(meets::<K, V>(it)).push(e) } else { d.filter(meets::<K, V>(it)) });
        if meets::<K, V>(it)(e) {
            assert(d.filter(meets::<K, V>(it)).push(e).map_values(piece_of::<K, V>(it)) =~= d.filter(meets::<K, V>(it)).map_values(piece_of::<K, V>(it)).push((meet(e.0, it), e.1)));
        }
        let p = pieces(es, it);
        assert forall|i: int| 0 <= i < p.len() implies exists|j: int| 0 <= j < es.len() && #[trigger] p[i] == (meet(es[j].0, it), es[j].1) by {
            if i < r.len() {
                assert(p[i] == r[i]);
                let j = choose|j: int| 0 <= j < d.len() && #[trigger] r[i] == (meet(d[j].0, it), d[j].1);
                assert(es[j] == d[j]);
            } else {
                assert(p[i] == (meet(es[es.len() - 1].0, it), es[es.len() - 1].1));
            }
        }
        if sorted_disjoint(es) {
            assert(sorted_disjoint(d)) by {
                assert forall|i: int, j: int| 0 <= i < j < d.len() implies before(#[trigger] d[i].0, #[trigger] d[j].0, 0) by {
                    assert(d[i] == es[i] && d[j] == es[j]);
                }
                assert forall|i: int| 0 <= i < d.len() implies !(#[trigger] d[i]).0.empty_spec() by {
                    assert(d[i] == es[i]);
                }
            }
            if meets::<K, V>(it)(e) {
                assert forall|i: int, j: int| 0 <= i < j < p.len() implies before(#[trigger] p[i].0, #[trigger] p[j].0, 0) by {
                    if j < r.len() {
                        assert(p[i] == r[i] && p[j] == r[j]);
                    } else {
                        assert(p[i] == r[i]);
                        let k = choose|k: int| 0 <= k < d.len() && #[trigger] r[i] == (meet(d[k].0, it), d[k].1);
                        assert(before(es[k].0, es[es.len() - 1].0, 0));
                        assert(d[k] == es[k]);
                    }
                }
            }
        }
    } else {
        reveal(Seq::filter);
        assert(es.filter(meets::<K, V>(it)) =~= Seq::<(Interval<K>, V)>::empty());
    }
}

/// The points of an intersection are those of both intervals.
pub proof fn lemma_meet_points<K: TotalOrder>(a: Interval<K>, b: Interval<K>, z: int)
    ensures
        meet(a, b).has_point(z) <==> a.has_point(z) && b.has_point(z),
{
}

/// The points of the part below and the part above.
proof fn lemma_parts<K: TotalOrder>(e: Interval<K>, it: Interval<K>, z: int)
    ensures
        (left_part(e, it) matches Some(l) && l.has_point(z)) <==> (e.has_point(z) && (lo(it.left) matches Some(a) && z < a)),
        (right_part(e, it) matches Some(r) && r.has_point(z)) <==> (e.has_point(z) && (hi(it.right) matches Some(b) && z > b)),
        left_part(e, it) matches Some(l) ==> l.left == e.left && right_le(l.right, e.right),
        right_part(e, it) matches Some(r) ==> r.right == e.right && left_le(e.left, r.left),
{
}

/// Entries that hold a common point are the same entry.
proof fn lemma_unique<K: TotalOrder, V>(es: Seq<(Interval<K>, V)>, i: int, j: int, z: int)
    requires
        sorted_disjoint(es),
        0 <= i < es.len(),
        0 <= j < es.len(),
        holds(es[i], z),
        holds(es[j], z),
    ensures
        i == j,
{
    if i < j {
        assert(before(es[i].0, es[j].0, 0));
    } else if j < i {
        assert(before(es[j].0, es[i].0, 0));
    }
}

/// The map gives each point the value of the entry that holds it.
pub proof fn lemma_value<K: TotalOrder, V>(es: Seq<(Interval<K>, V)>, i: int, z: int)
    requires
        sorted_disjoint(es),
        0 <= i < es.len(),
        holds(es[i], z),
    ensures
        map_of(es).dom().contains(z),
        map_of(es)[z] == es[i].1,
{
    assert(covered(es, z));
    let j = choose|j: int| 0 <= j < es.len() && #[trigger] holds(es[j], z);
    lemma_unique(es, i, j, z);
}

/// Pushing an entry that lies above the others keeps the order.
proof fn lemma_push<K: TotalOrder, V>(out: Seq<(Interval<K>, V)>, x: (Interval<K>, V))
    requires
        sorted_disjoint(out),
        coalesced(out),
        !x.0.empty_spec(),
        forall|j: int| 0 <= j < out.len() ==> before(#[trigger] out[j].0, x.0, 0),
        out.len() > 0 ==> out.last().1 != x.1 || before(out.last().0, x.0, 1),
    ensures
        sorted_disjoint(out.push(x)),
        coalesced(out.push(x)),
{
    let o = out.push(x);
    assert forall|i: int, j: int| 0 <= i < j < o.len() implies before(#[trigger] o[i].0, #[trigger] o[j].0, 0) by {
        if j == out.len() {
            assert(before(out[i].0, x.0, 0));
        } else {
            assert(o[i] == out[i] && o[j] == out[j]);
        }
    }
    assert forall|i: int, j: int| 0 <= i && j == i + 1 && j < o.len() implies (#[trigger] o[i]).1 != (#[trigger] o[j]).1 || before(o[i].0, o[j].0, 1) by {
        if j == out.len() {
            assert(o[i] == out.last());
        } else {
            assert(o[i] == out[i] && o[j] == out[j]);
        }
    }
}

fn max_left_exec<K: TotalOrder>(a: &Left<K>, b: &Left<K>) -> (r: Left<K>)
    ensures
        r == max_left(*a, *b),
{
    if left_le_exec(a, b) {
        b.clone()
    } else {
        a.clone()
    }
}

fn min_right_exec<K: TotalOrder>(a: &Right<K>, b: &Right<K>) -> (r: Right<K>)
    ensures
        r == min_right(*a, *b),
{
    if right_le_exec(a, b) {
        a.clone()
    } else {
        b.clone()
    }
}

fn meet_exec<K: TotalOrder>(a: &Interval<K>, b: &Interval<K>) -> (r: Interval<K>)
    ensures
        r == meet(*a, *b),
{
    Interval { left: max_left_exec(&a.left, &b.left), right: min_right_exec(&a.right, &b.right) }
}

fn left_part_exec<K: TotalOrder>(e: &Interval<K>, it: &Interval<K>) -> (r: Option<Interval<K>>)
    ensures
        r == left_part(*e, *it),
{
    let flipped = match &it.left {
        Left::NegInfinity => None,
        Left::Closed(x) => Some(Right::Open(*x)),
        Left::Open(x) => Some(Right::Closed(*x)),
    };
    match flipped {
        None => None,
        Some(r) => Some(Interval { left: e.left.clone(), right: min_right_exec(&e.right, &r) }),
    }
}

fn right_part_exec<K: TotalOrder>(e: &Interval<K>, it: &Interval<K>) -> (r: Option<Interval<K>>)
    ensures
        r == right_part(*e, *it),
{
    let flipped = match &it.right {
        Right::Open(x) => Some(Left::Closed(*x)),
        Right::Closed(x) => Some(Left::Open(*x)),
        Right::PosInfinity => None,
    };
    match flipped {
        None => None,
        Some(l) => Some(Interval { left: max_left_exec(&e.left, &l), right: e.right.clone() }),
    }
}

/// Whether every point of `a` lies below every point of `b`, with more
/// than `gap` points between them.
fn before_exec<K: TotalOrder>(a: &Interval<K>, b: &Interval<K>, gap: bool) -> (r: bool)
    ensures
        r == before(*a, *b, if gap { 1int } else { 0 }),
{
    !reaches_exec(&a.right, &b.left, gap)
}

/// Splits the entries at `it`: the entries with the points of `it` taken
/// out, and the parts inside `it`.
#[verifier::rlimit(60)]
fn cut<K: TotalOrder, V: TotalOrder>(es: &Vec<(Interval<K>, V)>, it: &Interval<K>) -> (r: (Vec<(Interval<K>, V)>, Vec<(Interval<K>, V)>))
    requires
        canonical(es@),
        !it.empty_spec(),
    ensures
        canonical(r.0@),
        map_of(r.0@) == map_of(es@).remove_keys(points(*it)),
        r.1@ == pieces(es@, *it),
{
    let n = es.len();
    let mut out: Vec<(Interval<K>, V)> = Vec::new();
    let mut removed: Vec<(Interval<K>, V)> = Vec::new();
    let ghost mut orig: Seq<int> = Seq::empty();
    let mut i: usize = 0;
    while i < n
        invariant
            n == es@.len(),
            i <= n,
            canonical(es@),
            !it.empty_spec(),
            sorted_disjoint(out@),
            coalesced(out@),
            removed@ == pieces(es@.take(i as int), *it),
            orig.len() == out@.len(),
            forall|j: int| 0 <= j < out@.len() ==> 0 <= #[trigger] orig[j] < i && out@[j].1 == es@[orig[j]].1,
            forall|j: int, z: int| 0 <= j < out@.len() && #[trigger] holds(out@[j], z) ==> holds(es@[orig[j]], z) && !it.has_point(z),
            forall|k: int, z: int| 0 <= k < i && #[trigger] holds(es@[k], z) && !it.has_point(z) ==> covered(out@, z),
            forall|j: int, k: int| 0 <= j < out@.len() && i <= k < n ==> before(#[trigger] out@[j].0, #[trigger] es@[k].0, 0),
            out@.len() > 0 ==> (i > 0 && out@.last().0.right == es@[i - 1].0.right && out@.last().1 == es@[i - 1].1)
                || (forall|k: int| i <= k < n ==> before(out@.last().0, #[trigger] es@[k].0, 1)),
        decreases n - i,
    {
        let e = &es[i];
        let m = meet_exec(&e.0, it);
        let ghost out0 = out@;
        proof {
            assert(es@.take(i + 1).drop_last() =~= es@.take(i as int));
            assert(es@.take(i + 1).last() == es@[i as int]);
        }
        if m.is_empty() {
            proof {
                assert forall|z: int| e.0.has_point(z) implies !it.has_point(z) by {
                    lemma_meet_points(e.0, *it, z);
                }
                if out@.len() > 0 && i > 0 && out@.last().0.right == es@[i - 1].0.right && out@.last().1 == es@[i - 1].1 {
                    assert(es@[i - 1].1 != es@[i as int].1 || before(es@[i - 1].0, es@[i as int].0, 1));
                }
                lemma_push(out@, (e.0, e.1));
            }
            out.push((e.0.clone(), e.1));
            proof {
                orig = orig.push(i as int);
                assert forall|k: int, z: int| 0 <= k < i + 1 && #[trigger] holds(es@[k], z) && !it.has_point(z) implies covered(out@, z) by {
                    if k == i {
                        assert(holds(out@[out@.len() - 1], z));
                    } else {
                        assert(covered(out0, z));
                        let j = choose|j: int| 0 <= j < out0.len() && #[trigger] holds(out0[j], z);
                        assert(out@[j] == out0[j]);
                    }
                }
            }
        } else {
            removed.push((m, e.1));
            let lp = left_part_exec(&e.0, it);
            let rp = right_part_exec(&e.0, it);
            // the part below `it`
            match lp {
                Some(l) => {
                    if !l.is_empty() {
                        proof {
                            if out@.len() > 0 && i > 0 && out@.last().0.right == es@[i - 1].0.right && out@.last().1 == es@[i - 1].1 {
                                assert(es@[i - 1].1 != es@[i as int].1 || before(es@[i - 1].0, es@[i as int].0, 1));
                            }
                            lemma_push(out@, (l, e.1));
                            assert forall|z: int| l.has_point(z) implies e.0.has_point(z) && !it.has_point(z) by {
                                lemma_parts(e.0, *it, z);
                            }
                        }
                        out.push((l, e.1));
                        proof {
                            orig = orig.push(i as int);
                        }
                    }
                },
                None => {},
            }
            let ghost out1 = out@;
            // the part above `it`
            match rp {
                Some(r) => {
                    if !r.is_empty() {
                        proof {
                            assert forall|z: int| r.has_point(z) implies e.0.has_point(z) && !it.has_point(z) by {
                                lemma_parts(e.0, *it, z);
                            }
                            assert forall|j: int| 0 <= j < out@.len() implies before(#[trigger] out@[j].0, r, 0) by {
                                if j < out0.len() {
                                    assert(before(out0[j].0, es@[i as int].0, 0));
                                }
                            }
                            if out@.len() > 0 {
                                if out@.len() > out0.len() {
                                    // the part below, then the part above: `it` lies between
                                    assert(before(out@.last().0, r, 1));
                                } else if i > 0 && out@.last().0.right == es@[i - 1].0.right && out@.last().1 == es@[i - 1].1 {
                                    assert(before(es@[i - 1].0, es@[i as int].0, 0));
                                    assert(before(out@.last().0, r, 1));
                                } else {
                                    assert(before(out@.last().0, es@[i as int].0, 1));
                                }
                            }
                            lemma_push(out@, (r, e.1));
                        }
                        out.push((r, e.1));
                        proof {
                            orig = orig.push(i as int);
                        }
                    }
                },
                None => {},
            }
            proof {
                assert forall|k: int, z: int| 0 <= k < i + 1 && #[trigger] holds(es@[k], z) && !it.has_point(z) implies covered(out@, z) by {
                    if k == i {
                        lemma_parts(e.0, *it, z);
                        lemma_meet_points(e.0, *it, z);
                        if left_part(e.0, *it) matches Some(l) && l.has_point(z) {
                            assert(holds(out@[out1.len() - 1], z));
                        } else {
                            assert(holds(out@[out@.len() - 1], z));
                        }
                    } else {
                        assert(covered(out0, z));
                        let j = choose|j: int| 0 <= j < out0.len() && #[trigger] holds(out0[j], z);
                        assert(out@[j] == out0[j]);
                    }
                }
            }
        }
        i += 1;
    }
    proof {
        assert(es@.take(n as int) =~= es@);
        let target = map_of(es@).remove_keys(points(*it));
        assert forall|z: int| #[trigger] map_of(out@).dom().contains(z) <==> target.dom().contains(z) by {
            if covered(out@, z) {
                let j = choose|j: int| 0 <= j < out@.len() && #[trigger] holds(out@[j], z);
                assert(holds(es@[orig[j]], z));
            }
        }
        assert forall|z: int| #[trigger] map_of(out@).dom().contains(z) implies map_of(out@)[z] == target[z] by {
            let j = choose|j: int| 0 <= j < out@.len() && #[trigger] holds(out@[j], z);
            lemma_value(out@, j, z);
            lemma_value(es@, orig[j], z);
        }
        assert(map_of(out@) =~= target);
    }
    (out, removed)
}

/// Non-empty intervals with no common point lie one below the other.
proof fn lemma_disjoint_order<K: TotalOrder>(a: Interval<K>, b: Interval<K>)
    requires
        !a.empty_spec(),
        !b.empty_spec(),
        forall|z: int| !(a.has_point(z) && b.has_point(z)),
    ensures
        before(a, b, 0) || before(b, a, 0),
{
    if !before(a, b, 0) && !before(b, a, 0) {
        let z = match (lo(a.left), lo(b.left)) {
            (Some(x), Some(y)) => if x < y { y } else { x },
            (Some(x), None) => x,
            (None, Some(y)) => y,
            (None, None) => match (hi(a.right), hi(b.right)) {
                (Some(x), Some(y)) => if x < y { x } else { y },
                (Some(x), None) => x,
                (None, Some(y)) => y,
                (None, None) => 0,
            },
        };
        assert(a.has_point(z) && b.has_point(z));
    }
}

/// Being below is transitive through a non-empty interval.
proof fn lemma_before_trans<K: TotalOrder>(a: Interval<K>, b: Interval<K>, c: Interval<K>, g: int, h: int)
    requires
        before(a, b, g),
        !b.empty_spec(),
        before(b, c, h),
        g >= 0,
        h >= 0,
    ensures
        before(a, c, g + h),
{
}

/// Joining two intervals with no point between them: the points of the
/// joined interval are those of either.
proof fn lemma_join_points<K: TotalOrder>(a: Interval<K>, b: Interval<K>, z: int)
    requires
        !a.empty_spec(),
        !b.empty_spec(),
        before(a, b, 0),
        !before(a, b, 1),
    ensures
        (Interval { left: a.left, right: b.right }).has_point(z) <==> a.has_point(z) || b.has_point(z),
        !(Interval { left: a.left, right: b.right }).empty_spec(),
{
}

/// A sequence of entries, one more entry above them, and entries above it.
proof fn lemma_join<K: TotalOrder, V>(a: Seq<(Interval<K>, V)>, x: (Interval<K>, V), b: Seq<(Interval<K>, V)>)
    requires
        canonical(a),
        canonical(b),
        !x.0.empty_spec(),
        forall|j: int| 0 <= j < a.len() ==> before(#[trigger] a[j].0, x.0, 0),
        forall|j: int| 0 <= j < b.len() ==> before(x.0, #[trigger] b[j].0, 0),
        a.len() > 0 ==> a.last().1 != x.1 || before(a.last().0, x.0, 1),
        b.len() > 0 ==> x.1 != b[0].1 || before(x.0, b[0].0, 1),
    ensures
        canonical(a.push(x) + b),
{
    lemma_push(a, x);
    let ax = a.push(x);
    let o = ax + b;
    assert forall|i: int| 0 <= i < o.len() implies !(#[trigger] o[i]).0.empty_spec() by {
        if i >= ax.len() {
            assert(o[i] == b[i - ax.len()]);
        } else {
            assert(o[i] == ax[i]);
        }
    }
    assert forall|i: int, j: int| 0 <= i < j < o.len() implies before(#[trigger] o[i].0, #[trigger] o[j].0, 0) by {
        if j < ax.len() {
            assert(o[i] == ax[i] && o[j] == ax[j]);
        } else if i >= ax.len() {
            assert(o[i] == b[i - ax.len()] && o[j] == b[j - ax.len()]);
        } else {
            assert(o[j] == b[j - ax.len()]);
            if i < a.len() {
                assert(o[i] == a[i]);
                lemma_before_trans(a[i].0, x.0, b[j - ax.len()].0, 0, 0);
            } else {
                assert(o[i] == x);
            }
        }
    }
    assert forall|i: int, j: int| 0 <= i && j == i + 1 && j < o.len() implies (#[trigger] o[i]).1 != (#[trigger] o[j]).1 || before(o[i].0, o[j].0, 1) by {
        if j < ax.len() {
            assert(o[i] == ax[i] && o[j] == ax[j]);
        } else if i >= ax.len() {
            assert(o[i] == b[i - ax.len()] && o[j] == b[j - ax.len()]);
        } else {
            assert(o[i] == x && o[j] == b[0]);
        }
    }
}

/// A stretch of canonical entries is canonical.
proof fn lemma_subrange<K: TotalOrder, V>(es: Seq<(Interval<K>, V)>, lo: int, hi: int)
    requires
        canonical(es),
        0 <= lo <= hi <= es.len(),
    ensures
        canonical(es.subrange(lo, hi)),
{
    let s = es.subrange(lo, hi);
    assert forall|i: int| 0 <= i < s.len() implies !(#[trigger] s[i]).0.empty_spec() by {
        assert(s[i] == es[lo + i]);
    }
    assert forall|i: int, j: int| 0 <= i < j < s.len() implies before(#[trigger] s[i].0, #[trigger] s[j].0, 0) by {
        assert(s[i] == es[lo + i] && s[j] == es[lo + j]);
    }
    assert forall|i: int, j: int| 0 <= i && j == i + 1 && j < s.len() implies (#[trigger] s[i]).1 != (#[trigger] s[j]).1 || before(s[i].0, s[j].0, 1) by {
        assert(s[i] == es[lo + i] && s[j] == es[lo + j]);
    }
}

/// Where `place` puts `it`: the entries below it, the joined entry, and
/// the entries above it.
pub open spec fn placed<K: TotalOrder, V>(
    rest: Seq<(Interval<K>, V)>,
    it: Interval<K>,
    v: V,
    p: int,
    left_merge: bool,
    right_merge: bool,
) -> Seq<(Interval<K>, V)> {
    let stop = if left_merge { p - 1 } else { p };
    let resume = if right_merge { p + 1 } else { p };
    let cur = Interval {
        left: if left_merge { rest[p - 1].0.left } else { it.left },
        right: if right_merge { rest[p].0.right } else { it.right },
    };
    rest.subrange(0, stop).push((cur, v)) + rest.subrange(resume, rest.len() as int)
}

/// What `place` knows when it builds its result.
pub open spec fn place_facts<K: TotalOrder, V>(
    rest: Seq<(Interval<K>, V)>,
    it: Interval<K>,
    v: V,
    p: int,
    left_merge: bool,
    right_merge: bool,
) -> bool {
    &&& canonical(rest)
    &&& !it.empty_spec()
    &&& forall|j: int, z: int| 0 <= j < rest.len() && #[trigger] holds(rest[j], z) ==> !it.has_point(z)
    &&& 0 <= p <= rest.len()
    &&& forall|j: int| 0 <= j < p ==> before(#[trigger] rest[j].0, it, 0)
    &&& forall|k: int| p <= k < rest.len() ==> before(it, #[trigger] rest[k].0, 0)
    &&& left_merge == (p > 0 && rest[p - 1].1 == v && !before(rest[p - 1].0, it, 1))
    &&& right_merge == (p < rest.len() && rest[p].1 == v && !before(it, rest[p].0, 1))
}

/// The joined entry holds the points of `it` and of the neighbours it
/// joins.
proof fn lemma_placed_cur<K: TotalOrder, V>(
    rest: Seq<(Interval<K>, V)>,
    it: Interval<K>,
    v: V,
    p: int,
    left_merge: bool,
    right_merge: bool,
)
    requires
        place_facts(rest, it, v, p, left_merge, right_merge),
    ensures
        ({
            let stop = if left_merge { p - 1 } else { p };
            let o = placed(rest, it, v, p, left_merge, right_merge);
            &&& !o[stop].0.empty_spec()
            &&& o[stop].1 == v
            &&& forall|z: int| #[trigger] o[stop].0.has_point(z) <==> it.has_point(z)
                || (left_merge && rest[p - 1].0.has_point(z)) || (right_merge && rest[p].0.has_point(z))
            &&& left_le(o[stop].0.left, it.left) && right_le(it.right, o[stop].0.right)
        }),
{
    let stop = if left_merge { p - 1 } else { p };
    let o = placed(rest, it, v, p, left_merge, right_merge);
    let cur = o[stop].0;
    let mid = Interval { left: cur.left, right: it.right };
    if left_merge {
        assert forall|z: int| mid.has_point(z) <==> rest[p - 1].0.has_point(z) || it.has_point(z) by {
            lemma_join_points(rest[p - 1].0, it, z);
        }
        lemma_join_points(rest[p - 1].0, it, 0);
    } else {
        assert(mid == it);
    }
    if right_merge {
        assert forall|z: int| cur.has_point(z) <==> mid.has_point(z) || rest[p].0.has_point(z) by {
            lemma_join_points(mid, rest[p].0, z);
        }
        lemma_join_points(mid, rest[p].0, 0);
    } else {
        assert(cur == mid);
    }
}

/// The result of `place` is canonical.
proof fn lemma_placed_canonical<K: TotalOrder, V>(
    rest: Seq<(Interval<K>, V)>,
    it: Interval<K>,
    v: V,
    p: int,
    left_merge: bool,
    right_merge: bool,
)
    requires
        place_facts(rest, it, v, p, left_merge, right_merge),
    ensures
        canonical(placed(rest, it, v, p, left_merge, right_merge)),
{
    let n = rest.len() as int;
    let stop = if left_merge { p - 1 } else { p };
    let resume = if right_merge { p + 1 } else { p };
    let o = placed(rest, it, v, p, left_merge, right_merge);
    lemma_placed_cur(rest, it, v, p, left_merge, right_merge);
    let a = rest.subrange(0, stop);
    let b = rest.subrange(resume, n);
    let x = o[stop];
    assert(o == a.push(x) + b);
    lemma_subrange(rest, 0, stop);
    lemma_subrange(rest, resume, n);
    assert forall|k: int| 0 <= k < a.len() implies before(#[trigger] a[k].0, x.0, 0) by {
        assert(a[k] == rest[k]);
        if left_merge {
            assert(before(rest[k].0, rest[p - 1].0, 0));
        }
    }
    assert forall|k: int| 0 <= k < b.len() implies before(x.0, #[trigger] b[k].0, 0) by {
        assert(b[k] == rest[resume + k]);
        if right_merge {
            assert(before(rest[p].0, rest[resume + k].0, 0));
        }
    }
    if a.len() > 0 {
        assert(a.last() == rest[stop - 1]);
        if left_merge {
            assert(rest[p - 2].1 != rest[p - 1].1 || before(rest[p - 2].0, rest[p - 1].0, 1));
        }
    }
    if b.len() > 0 {
        assert(b[0] == rest[resume]);
        if right_merge {
            assert(rest[p].1 != rest[p + 1].1 || before(rest[p].0, rest[p + 1].0, 1));
        }
    }
    lemma_join(a, x, b);
}

/// The result of `place` maps the points of `it` to `v` and the others as
/// before.
proof fn lemma_placed_map<K: TotalOrder, V>(
    rest: Seq<(Interval<K>, V)>,
    it: Interval<K>,
    v: V,
    p: int,
    left_merge: bool,
    right_merge: bool,
)
    requires
        place_facts(rest, it, v, p, left_merge, right_merge),
    ensures
        map_of(placed(rest, it, v, p, left_merge, right_merge)) == map_of(rest).union_prefer_right(constant_on(it, v)),
{
    let n = rest.len() as int;
    let stop = if left_merge { p - 1 } else { p };
    let resume = if right_merge { p + 1 } else { p };
    let o = placed(rest, it, v, p, left_merge, right_merge);
    lemma_placed_cur(rest, it, v, p, left_merge, right_merge);
    lemma_placed_canonical(rest, it, v, p, left_merge, right_merge);
    assert(o.len() == stop + 1 + n - resume);
    assert forall|k: int| 0 <= k < stop implies #[trigger] o[k] == rest[k] by {}
    assert forall|k: int| stop < k < o.len() implies #[trigger] o[k] == rest[resume + k - stop - 1] by {}
    let target = map_of(rest).union_prefer_right(constant_on(it, v));
    assert forall|z: int| #[trigger] map_of(o).dom().contains(z) <==> target.dom().contains(z) by {
        if covered(o, z) {
            let k = choose|k: int| 0 <= k < o.len() && #[trigger] holds(o[k], z);
            if k < stop {
                assert(holds(rest[k], z));
            } else if k == stop {
                if left_merge && rest[p - 1].0.has_point(z) {
                    assert(holds(rest[p - 1], z));
                } else if right_merge && rest[p].0.has_point(z) {
                    assert(holds(rest[p], z));
                }
            } else {
                assert(holds(rest[resume + k - stop - 1], z));
            }
        }
        if target.dom().contains(z) {
            if it.has_point(z) {
                assert(holds(o[stop], z));
            } else {
                let k = choose|k: int| 0 <= k < rest.len() && #[trigger] holds(rest[k], z);
                if k < stop {
                    assert(holds(o[k], z));
                } else if k >= resume {
                    assert(holds(o[stop + 1 + k - resume], z));
                } else {
                    assert(holds(o[stop], z));
                }
            }
        }
    }
    assert forall|z: int| #[trigger] map_of(o).dom().contains(z) implies map_of(o)[z] == target[z] by {
        let k = choose|k: int| 0 <= k < o.len() && #[trigger] holds(o[k], z);
        lemma_value(o, k, z);
        if k < stop {
            lemma_value(rest, k, z);
        } else if k == stop {
            if !it.has_point(z) {
                if left_merge && rest[p - 1].0.has_point(z) {
                    lemma_value(rest, p - 1, z);
                } else {
                    lemma_value(rest, p, z);
                }
            }
        } else {
            lemma_value(rest, resume + k - stop - 1, z);
        }
    }
    assert(map_of(o) =~= target);
}

/// Puts `it` with value `v` among entries that hold none of its points,
/// joined with each neighbour of the same value that leaves no point
/// between them.
fn place<K: TotalOrder, V: TotalOrder>(rest: &Vec<(Interval<K>, V)>, it: &Interval<K>, v: V) -> (r: Vec<(Interval<K>, V)>)
    requires
        canonical(rest@),
        !it.empty_spec(),
        forall|j: int, z: int| 0 <= j < rest@.len() && #[trigger] holds(rest@[j], z) ==> !it.has_point(z),
    ensures
        canonical(r@),
        map_of(r@) == map_of(rest@).union_prefer_right(constant_on(*it, v)),
{
    let n = rest.len();
    let mut p: usize = 0;
    while p < n && !before_exec(it, &rest[p].0, false)
        invariant
            p <= n,
            n == rest@.len(),
            canonical(rest@),
            !it.empty_spec(),
            forall|j: int, z: int| 0 <= j < rest@.len() && #[trigger] holds(rest@[j], z) ==> !it.has_point(z),
            forall|j: int| 0 <= j < p ==> before(#[trigger] rest@[j].0, *it, 0),
        decreases n - p,
    {
        proof {
            assert forall|z: int| !(rest@[p as int].0.has_point(z) && it.has_point(z)) by {
                if rest@[p as int].0.has_point(z) {
                    assert(holds(rest@[p as int], z));
                }
            }
            lemma_disjoint_order(rest@[p as int].0, *it);
        }
        p += 1;
    }
    proof {
        assert forall|k: int| p <= k < n implies before(*it, #[trigger] rest@[k].0, 0) by {
            if k > p {
                lemma_before_trans(*it, rest@[p as int].0, rest@[k].0, 0, 0);
            }
        }
    }
    let left_merge = p > 0 && rest[p - 1].1.same(&v) && !before_exec(&rest[p - 1].0, it, true);
    let right_merge = p < n && rest[p].1.same(&v) && !before_exec(it, &rest[p].0, true);
    proof {
        if p > 0 && rest@[p - 1].1.rank() == v.rank() {
            V::rank_injective(rest@[p - 1].1, v);
        }
        if p < n && rest@[p as int].1.rank() == v.rank() {
            V::rank_injective(rest@[p as int].1, v);
        }
        assert(place_facts(rest@, *it, v, p as int, left_merge, right_merge));
        lemma_placed_canonical(rest@, *it, v, p as int, left_merge, right_merge);
        lemma_placed_map(rest@, *it, v, p as int, left_merge, right_merge);
    }
    let stop = if left_merge { p - 1 } else { p };
    let resume = if right_merge { p + 1 } else { p };
    let left = if left_merge { rest[p - 1].0.left.clone() } else { it.left.clone() };
    let right = if right_merge { rest[p].0.right.clone() } else { it.right.clone() };
    let cur = Interval { left, right };
    let mut out: Vec<(Interval<K>, V)> = Vec::new();
    let mut j: usize = 0;
    while j < stop
        invariant
            stop <= n,
            n == rest@.len(),
            j <= stop,
            out@ == rest@.subrange(0, j as int),
        decreases stop - j,
    {
        out.push((rest[j].0.clone(), rest[j].1));
        proof {
            assert(out@ =~= rest@.subrange(0, j + 1));
        }
        j += 1;
    }
    out.push((cur, v));
    let ghost a = out@;
    j = resume;
    while j < n
        invariant
            resume <= n,
            n == rest@.len(),
            resume <= j <= n,
            out@ == a + rest@.subrange(resume as int, j as int),
        decreases n - j,
    {
        out.push((rest[j].0.clone(), rest[j].1));
        proof {
            assert(out@ =~= a + rest@.subrange(resume as int, j + 1));
        }
        j += 1;
    }
    proof {
        assert(out@ =~= placed(rest@, *it, v, p as int, left_merge, right_merge));
    }
    out
}

/// A non-empty interval has a point.
pub proof fn lemma_some_point<K: TotalOrder>(a: Interval<K>)
    requires
        !a.empty_spec(),
    ensures
        exists|z: int| a.has_point(z),
{
    match (lo(a.left), hi(a.right)) {
        (Some(x), _) => assert(a.has_point(x)),
        (None, Some(y)) => assert(a.has_point(y)),
        (None, None) => assert(a.has_point(0)),
    }
}

/// An empty interval has no pieces in any entries.
proof fn lemma_pieces_empty<K: TotalOrder, V>(es: Seq<(Interval<K>, V)>, it: Interval<K>)
    requires
        forall|z: int| !it.has_point(z),
    ensures
        pieces(es, it) == Seq::<(Interval<K>, V)>::empty(),
    decreases es.len(),
{
    if es.len() > 0 {
        lemma_pieces_empty(es.drop_last(), it);
        let m = meet(es.last().0, it);
        if !m.empty_spec() {
            lemma_some_point(m);
            let z = choose|z: int| m.has_point(z);
            lemma_meet_points(es.last().0, it, z);
        }
    }
}

/// A map from the points of intervals to values, kept as its canonical
/// decomposition into maximal intervals of equal value.
pub struct IntervalMap<K, V> {
    entries: Vec<(Interval<K>, V)>,
}

impl<K: TotalOrder, V: TotalOrder> View for IntervalMap<K, V> {
    type V = Map<int, V>;

    open spec fn view(&self) -> Map<int, V> {
        map_of(self.entries())
    }
}

impl<K: TotalOrder, V: TotalOrder> IntervalMap<K, V> {
    /// The intervals with their values, in order.
    pub closed spec fn entries(&self) -> Seq<(Interval<K>, V)> {
        self.entries@
    }

    /// The entries are the canonical decomposition of the map.
    pub open spec fn wf(&self) -> bool {
        canonical(self.entries())
    }

    /// The empty map.
    pub fn new() -> (r: Self)
        ensures
            r.wf(),
            r.entries() == Seq::<(Interval<K>, V)>::empty(),
            r@ == Map::<int, V>::empty(),
    {
        let r = IntervalMap { entries: Vec::new() };
        proof {
            assert(r@ =~= Map::<int, V>::empty());
        }
        r
    }

    /// Whether no point has a value.
    pub fn is_empty(&self) -> (r: bool)
        requires
            self.wf(),
        ensures
            r == (self.entries().len() == 0),
            r == (self@ == Map::<int, V>::empty()),
    {
        proof {
            if self.entries().len() == 0 {
                assert(self@ =~= Map::<int, V>::empty());
            } else {
                lemma_some_point(self.entries()[0].0);
                let z = choose|z: int| self.entries()[0].0.has_point(z);
                assert(holds(self.entries()[0], z));
                assert(self@.dom().contains(z));
            }
        }
        self.entries.len() == 0
    }

    /// Gives every point of the interval between `start` and `end` the
    /// value `v`.
    pub fn insert(&mut self, start: Bound<K>, end: Bound<K>, v: V)
        requires
            old(self).wf(),
        ensures
            final(self).wf(),
            final(self)@ == old(self)@.union_prefer_right(constant_on(interval_of(start, end), v)),
    {
        let it = Interval::from_bounds(start, end);
        if it.is_empty() {
            proof {
                assert(self@.union_prefer_right(constant_on(it, v)) =~= self@);
            }
            return;
        }
        let (rest, _) = cut(&self.entries, &it);
        proof {
            assert forall|j: int, z: int| 0 <= j < rest@.len() && #[trigger] holds(rest@[j], z) implies !it.has_point(z) by {
                assert(covered(rest@, z));
                assert(map_of(rest@).dom().contains(z));
            }
        }
        let placed = place(&rest, &it, v);
        proof {
            assert(map_of(rest@).union_prefer_right(constant_on(it, v)) =~= map_of(self.entries@).union_prefer_right(constant_on(it, v)));
        }
        self.entries = placed;
    }

    /// Takes the points of the interval between `start` and `end` out of
    /// the map, and returns the parts of the entries inside it, in order.
    pub fn remove(&mut self, start: Bound<K>, end: Bound<K>) -> (r: Vec<(Interval<K>, V)>)
        requires
            old(self).wf(),
        ensures
            final(self).wf(),
            final(self)@ == old(self)@.remove_keys(points(interval_of(start, end))),
            r@ == pieces(old(self).entries(), interval_of(start, end)),
    {
        let it = Interval::from_bounds(start, end);
        if it.is_empty() {
            proof {
                lemma_pieces_empty(self.entries@, it);
                assert(self@.remove_keys(points(it)) =~= self@);
            }
            return Vec::new();
        }
        let (rest, removed) = cut(&self.entries, &it);
        self.entries = rest;
        removed
    }

    /// The entry whose interval holds the whole non-empty interval between
    /// `start` and `end`, if there is one.
    pub fn superset_of(&self, start: Bound<K>, end: Bound<K>) -> (r: Option<(Interval<K>, V)>)
        requires
            self.wf(),
        ensures
            r is None <==> (interval_of(start, end).empty_spec()
                || forall|i: int| 0 <= i < self.entries().len() ==> !interval_of(start, end).subset_spec(#[trigger] self.entries()[i].0)),
            r matches Some(x) ==> interval_of(start, end).subset_spec(x.0)
                && exists|i: int| 0 <= i < self.entries().len() && #[trigger] self.entries()[i] == x,
    {
        let it = Interval::from_bounds(start, end);
        if self.entries.len() == 0 || it.is_empty() {
            return None;
        }
        let n = self.entries.len();
        let mut i: usize = 0;
        while i < n
            invariant
                n == self.entries@.len(),
                i <= n,
                it == interval_of(start, end),
                !it.empty_spec(),
                forall|k: int| 0 <= k < i ==> !it.subset_spec(#[trigger] self.entries@[k].0),
            decreases n - i,
        {
            let e = &self.entries[i];
            if it.is_subset_of(&e.0) {
                let x = (e.0.clone(), e.1);
                proof {
                    assert(self.entries@[i as int] == x);
                    assert(it.subset_spec(self.entries()[i as int].0));
                }
                return Some(x);
            }
            i += 1;
        }
        None
    }

    /// The entries, in order.
    pub fn iter(&self) -> (r: Vec<(Interval<K>, V)>)
        ensures
            r@ == self.entries(),
    {
        let n = self.entries.len();
        let mut r: Vec<(Interval<K>, V)> = Vec::new();
        let mut i: usize = 0;
        while i < n
            invariant
                n == self.entries@.len(),
                i <= n,
                r@ == self.entries@.subrange(0, i as int),
            decreases n - i,
        {
            r.push((self.entries[i].0.clone(), self.entries[i].1));
            proof {
                assert(r@ =~= self.entries@.subrange(0, i + 1));
            }
            i += 1;
        }
        proof {
            assert(r@ =~= self.entries@);
        }
        r
    }
}

} // verus!
