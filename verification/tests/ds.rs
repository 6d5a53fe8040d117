use std::collections::BTreeSet;

use nekolib::bit_set::BitSet;
use nekolib::bound::Bound;
use nekolib::btree_bimap::BTreeBimap;
use nekolib::btree_multiset::BTreeMultiset;
use nekolib::functional_graph::FunctionalGraph;
use nekolib::removable_heap::RemovableHeap;
use nekolib::union_find::UnionFind;

#[test]
fn test_count() {
    let cap = 313;
    let it = std::iter::successors(Some(1_usize), |x| Some(15 * x % cap));
    let len = 40;
    let naive: BTreeSet<_> = it.take(len).collect();

    let mut bs = BitSet::new(cap);
    for &i in naive.iter() {
        bs.insert(i);
    }

    for start in 0..=cap {
        for end in start..=cap {
            let expected = naive.range(start..end).count();
            let actual = bs.count(start, end);
            assert_eq!(actual, expected);
        }
    }
}

#[test]
fn test_iter() {
    let cap = 46337;
    let it = std::iter::successors(Some(1_usize), |x| Some(3 * x % cap));
    let len = 2400;
    let naive: BTreeSet<_> = it.take(len).collect();

    let mut bs = BitSet::new(cap);
    for &i in naive.iter() {
        bs.insert(i);
    }

    for i in 0..cap {
        assert_eq!(bs.max_lt(i), naive.range(..i).next_back().copied());
        assert_eq!(bs.max_le(i), naive.range(..=i).next_back().copied());
        assert_eq!(bs.min_ge(i), naive.range(i..).next().copied());
        assert_eq!(bs.min_gt(i), naive.range(i + 1..).next().copied());
    }
    assert_eq!(bs.iter(), naive.iter().copied().collect::<Vec<_>>());
    assert_eq!(bs.len(), naive.len());
}

#[test]
fn bit_set_doc_examples() {
    let mut bs = BitSet::new(10);
    bs.insert(3);
    bs.insert(5);
    assert!(!bs.contains(0));
    assert!(bs.contains(3));
    assert_eq!(bs.count(0, 5), 1);
    assert_eq!(bs.count(0, 10), 2);
    assert_eq!(bs.iter(), vec![3, 5]);
    assert_eq!(bs.max_lt(2), None);
    assert_eq!(bs.max_lt(3), None);
    assert_eq!(bs.max_lt(4), Some(3));
    assert_eq!(bs.max_lt(6), Some(5));
    assert_eq!(bs.max_le(3), Some(3));
    assert_eq!(bs.min_gt(3), Some(5));
    assert_eq!(bs.min_gt(5), None);
    assert_eq!(bs.min_ge(4), Some(5));
    assert_eq!(bs.min_ge(6), None);
    bs.remove(3);
    assert!(!bs.contains(3));
    assert_eq!(bs.len(), 1);
    assert!(!bs.is_empty());
    bs.remove(5);
    assert!(bs.is_empty());
}

#[test]
fn bit_set_ranges() {
    let mut bs = BitSet::new(200);
    for i in [0, 5, 63, 64, 100, 130, 199] {
        bs.insert(i);
    }
    let mut it = bs.range_index(5, 131);
    assert_eq!(it.next(), Some(5));
    assert_eq!(it.next_back(), Some(130));
    assert_eq!(it.next(), Some(63));
    assert_eq!(it.next_back(), Some(100));
    assert_eq!(it.next(), Some(64));
    assert_eq!(it.next(), None);
    assert_eq!(it.next_back(), None);

    let mut w = bs.range_word(60, 130);
    assert_eq!(w.next(), Some(1u64 << 63));
    assert_eq!(w.next(), Some(1u64 | (1u64 << 36)));
    assert_eq!(w.next(), Some(0));
    assert_eq!(w.next(), None);
    let mut w = bs.range_word(0, 200);
    assert_eq!(w.next_back(), Some(1u64 << 7));
    assert_eq!(w.next_back(), Some(1u64 << 2));
}

#[test]
fn test_eq() {
    let mut b = BTreeBimap::new();
    b.insert(2, 20);
    b.insert(2, 20);
    assert_eq!(b.len(), 1);
}

#[test]
fn bimap_doc_example() {
    let mut bimap = BTreeBimap::new();
    bimap.insert(1, 'a');
    bimap.insert(2, 'b');
    bimap.insert(3, 'c');
    bimap.insert(1, 'b');
    assert_eq!(bimap.len(), 2);
    assert_eq!(bimap.range_left(Bound::Unbounded, Bound::Unbounded), vec![(1, 'b'), (3, 'c')]);
    assert_eq!(bimap.range_right(Bound::Included('b'), Bound::Excluded('c')), vec![('b', 1)]);
    bimap.remove_left(&1);
    bimap.remove_right(&'c');
    assert!(bimap.is_empty());
}

#[test]
fn test_debug_fmt() {
    let mut ms = BTreeMultiset::new();
    ms.insert(5);
    ms.insert(5);
    ms.insert(7);
    ms.insert_n(4, 0);
    ms.remove_n(&3, 0);
    let body: Vec<String> = ms.counts().iter().map(|(k, c)| format!("{}: {}", k, c)).collect();
    assert_eq!(format!("{{{}}}", body.join(", ")), "{5: 2, 7: 1}");
}

#[test]
fn lib_test_iter() {
    let mut ms = BTreeMultiset::new();
    ms.insert(5);
    ms.insert(5);
    ms.insert(6);
    ms.insert(6);
    ms.insert(6);
    ms.insert(7);
    ms.insert_n(4, 0);
    ms.remove_n(&3, 0);
    let mut it = ms.iter();
    let mut v = vec![];
    while let Some(&x) = it.next() {
        v.push(x);
    }
    assert_eq!(v, [5, 5, 6, 6, 6, 7]);
    assert_eq!(ms.min(), Some(&5));
    assert_eq!(ms.max(), Some(&7));
}

#[test]
fn lib_test_count() {
    let mut ms = BTreeMultiset::new();
    assert_eq!(ms.len(), 0);

    ms.insert_n(5, 2);
    assert_eq!(ms.len(), 2);

    ms.remove_n(&5, 3);
    assert_eq!(ms.len(), 0);
    assert!(ms.is_empty());
    assert_eq!(ms.min(), None);
}

#[test]
fn lib_test() {
    let mut heap = RemovableHeap::new();
    assert_eq!(heap.pop(), None);
    heap.push(1);
    assert_eq!(heap.peek(), Some(&1));
    assert_eq!(heap.len(), 1);
    heap.push(2);
    assert_eq!(heap.peek(), Some(&2));
    assert_eq!(heap.len(), 2);
    heap.remove(1);
    assert_eq!(heap.len(), 1);
    assert_eq!(heap.pop(), Some(2));
    assert_eq!(heap.len(), 0);
    assert_eq!(heap.pop(), None);
    assert_eq!(heap.len(), 0);

    heap.push(2);
    heap.push(1);
    assert_eq!(heap.len(), 2);
    heap.remove(2);
    assert_eq!(heap.len(), 1);
    assert_eq!(heap.pop(), Some(1));
    assert_eq!(heap.len(), 0);
}

#[test]
fn removable_heap_doc_example() {
    let mut heap = RemovableHeap::new();
    heap.push(2);
    heap.push(1);
    heap.push(3);
    heap.push(0);
    assert_eq!(heap.peek(), Some(&3));
    heap.remove(2);
    assert_eq!(heap.pop(), Some(3));
    assert_eq!(heap.peek(), Some(&1));
    heap.remove(1);
    assert_eq!(heap.peek(), Some(&0));
    assert_eq!(heap.pop(), Some(0));
    assert!(heap.is_empty());
}

#[test]
fn functional_graph_doc_example() {
    let f = vec![1, 2, 3, 4, 0, 6, 2, 2, 9, 10, 9, 3, 12];
    let n = f.len();
    let g = FunctionalGraph::from(f);
    let mu = vec![0, 0, 0, 0, 0, 2, 1, 1, 1, 0, 0, 1, 0];
    let lambda = vec![5, 5, 5, 5, 5, 5, 5, 5, 2, 2, 2, 5, 1];
    for i in 0..n {
        assert_eq!(g.mu_lambda(i), (mu[i], lambda[i]));
    }
}

#[test]
fn functional_graph_edges() {
    let g = FunctionalGraph::from(vec![]);
    let _ = g;
    let g = FunctionalGraph::from(vec![0]);
    assert_eq!(g.mu_lambda(0), (0, 1));
    let g = FunctionalGraph::from(vec![1, 2, 3, 3]);
    assert_eq!(g.mu_lambda(0), (3, 1));
    assert_eq!(g.mu_lambda(3), (0, 1));
}

#[test]
fn union_find_joins() {
    let mut uf = UnionFind::new(5);
    assert_eq!(uf.len(), 5);
    assert!(uf.unite(0, 1));
    assert!(!uf.unite(1, 0));
    assert_eq!(uf.repr(0), uf.repr(1));
    assert_eq!(uf.count(0), 2);
    assert!(uf.unite(2, 3));
    assert!(uf.unite(1, 3));
    assert_eq!(uf.count(2), 4);
    assert_eq!(uf.count(4), 1);
    assert_eq!(uf.repr(4), 4);
    let r = uf.repr(0);
    for i in 0..4 {
        assert_eq!(uf.repr(i), r);
    }
}

#[test]
fn union_find_smaller_under_larger() {
    let mut uf = UnionFind::new(4);
    uf.unite(0, 1);
    // the set of 2 has one element, the set of 0 two: 0's root stays
    let r = uf.repr(0);
    uf.unite(2, 0);
    assert_eq!(uf.repr(2), r);
    // equal sizes: the root of the first argument's set stays
    uf.unite(3, 3);
    let mut uf = UnionFind::new(2);
    uf.unite(1, 0);
    assert_eq!(uf.repr(0), 1);
}
