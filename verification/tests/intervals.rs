use nekolib::bound::Bound::{self, Excluded, Included, Unbounded};
use nekolib::interval::{Interval, Left, Right};
use nekolib::interval_map::IntervalMap;
use nekolib::interval_set::IntervalSet;

fn iv(start: Bound<i32>, end: Bound<i32>) -> Interval<i32> {
    Interval::from_bounds(start, end)
}

#[test]
fn interval_set_mex_doc_example() {
    let mut s = IntervalSet::new();
    s.insert(Included(1), Excluded(5));
    s.insert(Included(7), Included(10));
    s.insert(Included(15), Unbounded);

    assert_eq!(s.mex(0), Included(0));
    assert_eq!(s.mex(1), Included(5));
    assert_eq!(s.mex(6), Included(6));
    assert_eq!(s.mex(7), Excluded(10));
    assert_eq!(s.mex(15), Unbounded);
}

#[test]
fn interval_set_insert_remove() {
    let mut s = IntervalSet::<i32>::new();
    assert!(s.is_empty());
    s.insert(Included(1), Included(1));
    s.insert(Included(2), Excluded(4));
    s.insert(Included(5), Excluded(7));
    assert_eq!(
        s.iter(),
        vec![(Included(1), Included(1)), (Included(2), Excluded(4)), (Included(5), Excluded(7))]
    );
    // [4, 6) closes the gap between [2, 4) and [5, 7)
    s.insert(Included(4), Excluded(6));
    assert_eq!(s.iter(), vec![(Included(1), Included(1)), (Included(2), Excluded(7))]);

    s.insert(Included(10), Excluded(20));
    s.insert(Excluded(20), Included(30));
    // the point 20 is still missing
    assert_eq!(s.iter().len(), 4);
    s.insert(Included(20), Excluded(20));
    assert_eq!(s.iter().len(), 4);
    s.insert(Included(20), Included(20));
    assert_eq!(s.iter()[2], (Included(10), Included(30)));

    s.remove(Unbounded, Included(100));
    assert!(s.is_empty());

    s.insert(Included(10), Excluded(25));
    s.remove(Included(11), Excluded(12));
    s.remove(Included(13), Included(13));
    assert_eq!(
        s.iter(),
        vec![
            (Included(10), Excluded(11)),
            (Included(12), Excluded(13)),
            (Excluded(13), Excluded(25)),
        ]
    );
    assert_eq!(s.mex(9), Included(9));
    assert_eq!(s.mex(10), Included(11));
    assert_eq!(s.mex(12), Included(13));
    assert_eq!(s.mex(14), Included(25));
    assert_eq!(s.mex(25), Included(25));

    s.clear();
    assert!(s.is_empty());
}

#[test]
fn interval_set_covering() {
    let mut s = IntervalSet::<i32>::new();
    assert_eq!(s.covering(Included(0), Included(1)), None);
    s.insert(Included(1), Excluded(5));
    s.insert(Included(7), Included(10));
    assert_eq!(s.covering(Included(2), Included(3)), Some((Included(1), Excluded(5))));
    assert_eq!(s.covering(Included(7), Included(10)), Some((Included(7), Included(10))));
    assert_eq!(s.covering(Included(4), Included(7)), None);
    assert_eq!(s.covering(Included(4), Included(5)), None);
    // an empty range is covered by the first interval
    assert_eq!(s.covering(Included(3), Excluded(3)), Some((Included(1), Excluded(5))));
    assert!(s.has_range(Included(8), Excluded(10)));
    assert!(!s.has_range(Included(8), Excluded(11)));
}

#[test]
fn interval_map_insert_joins_equal_values() {
    let mut m = IntervalMap::<i32, u8>::new();
    assert!(m.is_empty());
    m.insert(Included(0), Included(2), 1);
    m.insert(Included(1), Included(1), 2);
    assert_eq!(
        m.iter(),
        vec![
            (iv(Included(0), Excluded(1)), 1),
            (iv(Included(1), Included(1)), 2),
            (iv(Excluded(1), Included(2)), 1),
        ]
    );
    m.insert(Included(1), Included(1), 1);
    assert_eq!(m.iter(), vec![(iv(Included(0), Included(2)), 1)]);
    m.insert(Excluded(2), Excluded(5), 1);
    assert_eq!(m.iter(), vec![(iv(Included(0), Excluded(5)), 1)]);
    m.insert(Included(6), Unbounded, 3);
    assert_eq!(m.iter().len(), 2);
}

#[test]
fn interval_map_remove_returns_pieces() {
    let mut m = IntervalMap::<i32, u8>::new();
    m.insert(Included(0), Excluded(10), 1);
    m.insert(Included(10), Excluded(20), 2);
    m.insert(Included(30), Excluded(40), 3);
    let removed = m.remove(Included(5), Included(35));
    assert_eq!(
        removed,
        vec![
            (iv(Included(5), Excluded(10)), 1),
            (iv(Included(10), Excluded(20)), 2),
            (iv(Included(30), Included(35)), 3),
        ]
    );
    assert_eq!(
        m.iter(),
        vec![(iv(Included(0), Excluded(5)), 1), (iv(Excluded(35), Excluded(40)), 3)]
    );
    assert_eq!(m.remove(Included(7), Excluded(7)), vec![]);
}

#[test]
fn interval_map_superset_of() {
    let mut m = IntervalMap::<i32, u8>::new();
    assert_eq!(m.superset_of(Included(0), Included(1)), None);
    m.insert(Included(0), Excluded(10), 1);
    m.insert(Included(10), Unbounded, 2);
    assert_eq!(m.superset_of(Included(2), Included(3)), Some((iv(Included(0), Excluded(10)), 1)));
    assert_eq!(m.superset_of(Included(9), Included(10)), None);
    assert_eq!(m.superset_of(Included(100), Unbounded), Some((iv(Included(10), Unbounded), 2)));
    assert_eq!(m.superset_of(Included(3), Excluded(3)), None);
    let it = iv(Unbounded, Included(3));
    assert_eq!(it.left, Left::NegInfinity);
    assert_eq!(it.right, Right::Closed(3));
}

#[test]
fn interval_connection_is_symmetric() {
    let cases = [
        (iv(Included(0), Excluded(3)), iv(Included(3), Included(5)), true),
        (iv(Included(0), Excluded(3)), iv(Excluded(3), Included(5)), false),
        (iv(Included(0), Included(1)), iv(Included(3), Included(4)), false),
        (iv(Included(0), Included(10)), iv(Included(2), Included(3)), true),
        (iv(Unbounded, Excluded(0)), iv(Included(0), Unbounded), true),
    ];
    for (a, b, want) in cases.iter() {
        assert_eq!(a.is_connected_with(b), *want);
        assert_eq!(b.is_connected_with(a), *want);
    }
}
