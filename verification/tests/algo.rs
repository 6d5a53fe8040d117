use std::cell::Cell;
use std::cmp::Ordering;

use nekolib::bisect::{bisect, bisect_slice};
use nekolib::minmax::{minmax, minmax_by, minmax_by_key};
use nekolib::permutation::{next_permutation, prev_permutation, Backward, Forward, Permutations};
use nekolib::rle;
use nekolib::run_length::{Rle, RleBy, RleByKey};
use nekolib::extremum::extremum;
use nekolib::inversion::Inversion;
use nekolib::karatsuba::multiply;
use nekolib::tortoise_hare::tortoise_hare;
use nekolib::exact_cover::ExactCover;

#[test]
fn bisect_count() {
    for n in 0..=128usize {
        for k in 0..=n {
            let count = Cell::new(0u32);
            let f = |i: usize| {
                count.set(count.get() + 1);
                i < k
            };
            let res = bisect(0, n, f);
            assert!(count.get() <= (n + 1).next_power_of_two().trailing_zeros());
            assert_eq!(res, k);
        }
    }
}

#[test]
fn bisect_doc_examples() {
    assert_eq!(bisect_slice(&[2, 4, 7], |&x: &i32| x < 4), 1);
    assert_eq!(bisect_slice(&[2, 4, 7], |&x: &i32| x <= 4), 2);
    assert_eq!(bisect_slice(&[2, 4, 7], |_: &i32| false), 0);
    assert_eq!(bisect_slice(&[2, 4, 7], |_: &i32| true), 3);
    let floor_sqrt = |i: usize| {
        if i <= 1 {
            i
        } else {
            bisect(0, i, |j: usize| match (j + 1).overflowing_pow(2) {
                (x, false) if x <= i => true,
                _ => false,
            })
        }
    };
    assert_eq!(floor_sqrt(8), 2);
    assert_eq!(floor_sqrt(9), 3);
    assert_eq!(floor_sqrt(10), 3);
    assert_eq!(floor_sqrt(1 << 60), 1 << 30);
    assert_eq!(bisect(5, 5, |_: usize| true), 5);
}

#[test]
fn minmax_doc_examples() {
    assert_eq!(minmax(&[3, 2, 4, 1, 2, 0, 6]), Some((&0, &6)));
    assert_eq!(minmax::<i32>(&[]), None);

    let buf: Vec<(usize, i32)> = vec![3, 5, 0, 1, 2, 0, 5].into_iter().enumerate().collect();
    assert_eq!(minmax_by_key(&buf, |&(_, x): &(usize, i32)| x), Some((&(2, 0), &(6, 5))));
    let empty: Vec<i32> = vec![];
    assert_eq!(minmax_by_key(&empty, |&x: &i32| x), None);

    let buf: Vec<(usize, i32)> = vec![3, 9, 0, 1, 2, 0, 9].into_iter().enumerate().collect();
    let rev = |&(_, x): &(usize, i32), &(_, y): &(usize, i32)| y.cmp(&x);
    assert_eq!(minmax_by(&buf, rev), Some((&(1, 9), &(5, 0))));
    let empty: Vec<(usize, i32)> = vec![];
    assert_eq!(minmax_by(&empty, rev), None);

    // equal elements: leftmost minimum, rightmost maximum
    let buf: Vec<(usize, i32)> = vec![5, 5, 1, 1].into_iter().enumerate().collect();
    let by_value = |a: &(usize, i32), b: &(usize, i32)| -> Ordering { a.1.cmp(&b.1) };
    assert_eq!(minmax_by(&buf, by_value), Some((&(2, 1), &(1, 5))));
}

#[test]
fn next_permutation_doc_examples() {
    let mut a = vec![1, 3, 2];
    assert!(next_permutation(&mut a));
    assert_eq!(a, [2, 1, 3]);

    let mut a = vec![3, 2];
    assert!(!next_permutation(&mut a));
    assert_eq!(a, [2, 3]);

    let mut a = Vec::<i32>::new();
    assert!(!next_permutation(&mut a));

    let mut a = vec![1, 3, 2, 2, 3];
    next_permutation(&mut a);
    assert_eq!(a, [1, 3, 2, 3, 2]);

    let mut a = vec![1, 3, 2, 3, 2];
    assert!(prev_permutation(&mut a));
    assert_eq!(a, [1, 3, 2, 2, 3]);

    let mut a = vec![1, 2, 3];
    assert!(!prev_permutation(&mut a));
    assert_eq!(a, [3, 2, 1]);
}

#[test]
fn prev_undoes_next() {
    let mut a = vec![0, 1, 1, 2, 3];
    loop {
        let before = a.clone();
        if !next_permutation(&mut a) {
            break;
        }
        let mut b = a.clone();
        assert!(prev_permutation(&mut b));
        assert_eq!(b, before);
    }
}

fn collect_forward<T: nekolib::order::TotalOrder>(mut it: Forward<T>) -> Vec<Vec<T>> {
    let mut res = vec![];
    while let Some(p) = it.next() {
        res.push(p);
    }
    res
}

fn collect_backward<T: nekolib::order::TotalOrder>(mut it: Backward<T>) -> Vec<Vec<T>> {
    let mut res = vec![];
    while let Some(p) = it.next() {
        res.push(p);
    }
    res
}

#[test]
fn iter() {
    let expected = vec![
        vec![0, 1, 1, 2, 2],
        vec![0, 1, 2, 1, 2],
        vec![0, 1, 2, 2, 1],
        vec![0, 2, 1, 1, 2],
        vec![0, 2, 1, 2, 1],
        vec![0, 2, 2, 1, 1],
        vec![1, 0, 1, 2, 2],
        vec![1, 0, 2, 1, 2],
        vec![1, 0, 2, 2, 1],
        vec![1, 1, 0, 2, 2],
        vec![1, 1, 2, 0, 2],
        vec![1, 1, 2, 2, 0],
        vec![1, 2, 0, 1, 2],
        vec![1, 2, 0, 2, 1],
        vec![1, 2, 1, 0, 2],
        vec![1, 2, 1, 2, 0],
        vec![1, 2, 2, 0, 1],
        vec![1, 2, 2, 1, 0],
        vec![2, 0, 1, 1, 2],
        vec![2, 0, 1, 2, 1],
        vec![2, 0, 2, 1, 1],
        vec![2, 1, 0, 1, 2],
        vec![2, 1, 0, 2, 1],
        vec![2, 1, 1, 0, 2],
        vec![2, 1, 1, 2, 0],
        vec![2, 1, 2, 0, 1],
        vec![2, 1, 2, 1, 0],
        vec![2, 2, 0, 1, 1],
        vec![2, 2, 1, 0, 1],
        vec![2, 2, 1, 1, 0],
    ];

    let fwd = collect_forward(Permutations::from(expected[0].clone()).forward(5));
    assert_eq!(fwd, expected);

    let fwd_1 = collect_forward(Permutations::from(expected[1].clone()).forward(5));
    assert_eq!(fwd_1, expected[1..].to_vec());

    let fwd_28 = collect_forward(Permutations::from(expected[28].clone()).forward(5));
    assert_eq!(fwd_28, expected[28..].to_vec());

    let fwd_29 = collect_forward(Permutations::from(expected[29].clone()).forward(5));
    assert_eq!(fwd_29, expected[29..].to_vec());

    let rev = |v: &[Vec<i32>]| v.iter().rev().cloned().collect::<Vec<_>>();

    let bwd = collect_backward(Permutations::from(expected[0].clone()).backward(5));
    assert_eq!(bwd, rev(&expected[..=0]));

    let bwd_1 = collect_backward(Permutations::from(expected[1].clone()).backward(5));
    assert_eq!(bwd_1, rev(&expected[..=1]));

    let bwd_28 = collect_backward(Permutations::from(expected[28].clone()).backward(5));
    assert_eq!(bwd_28, rev(&expected[..=28]));

    let bwd_29 = collect_backward(Permutations::from(expected[29].clone()).backward(5));
    assert_eq!(bwd_29, rev(&expected[..=29]));
}

#[test]
fn lib_empty() {
    let empty: Vec<u8> = vec![];
    let fwd = collect_forward(Permutations::from(empty.clone()).forward(0));
    assert_eq!(fwd, vec![Vec::<u8>::new()]);
    let bwd = collect_backward(Permutations::from(empty.clone()).backward(0));
    assert_eq!(bwd, vec![Vec::<u8>::new()]);
}

#[test]
fn single() {
    let one = vec![0u8];
    let fwd = collect_forward(Permutations::from(one.clone()).forward(1));
    assert_eq!(fwd, vec![vec![0u8]]);
    let bwd = collect_backward(Permutations::from(one.clone()).backward(1));
    assert_eq!(bwd, vec![vec![0u8]]);
}

fn is_sorted<T: Ord>(a: &[T]) -> bool {
    a.windows(2).all(|w| w[0] <= w[1])
}

#[test]
fn partial_fwd() {
    for n in 1..=8usize {
        for k in 1..=n {
            let a: Vec<usize> = (0..n).collect();
            let expected: Vec<Vec<usize>> = collect_forward(Permutations::from(a.clone()).forward(n))
                .into_iter()
                .filter(|p| is_sorted(&p[k..]))
                .map(|p| p[..k].to_vec())
                .collect();
            assert_eq!(collect_forward(Permutations::from(a).forward(k)), expected);
        }
    }
}

#[test]
fn partial_bwd() {
    for n in 1..=8usize {
        for k in 1..=n {
            let a: Vec<usize> = (0..n).collect();
            let expected: Vec<Vec<usize>> = collect_forward(Permutations::from(a.clone()).forward(n))
                .into_iter()
                .filter(|p| is_sorted(&p[k..]))
                .map(|p| p[..k].to_vec())
                .collect();
            let expected: Vec<Vec<usize>> = expected.into_iter().rev().collect();
            let a_rev: Vec<usize> = a.into_iter().rev().collect();
            assert_eq!(collect_backward(Permutations::from(a_rev).backward(k)), expected);
        }
    }
}

#[test]
fn partial_dup() {
    let a = vec![0, 1, 1, 2, 2, 3, 3, 3];
    for n in 1..=8usize {
        for k in 1..=n {
            let a: Vec<i32> = a[..n].to_vec();
            let expected: Vec<Vec<i32>> = collect_forward(Permutations::from(a.clone()).forward(n))
                .into_iter()
                .filter(|p| is_sorted(&p[k..]))
                .map(|p| p[..k].to_vec())
                .collect();
            assert_eq!(collect_forward(Permutations::from(a).forward(k)), expected);
        }
    }
}

#[test]
fn permutations_peek_next_prev() {
    let mut p = Permutations::from(vec![1, 2, 3]);
    assert_eq!(p.peek(), &[1, 2, 3]);
    assert!(p.next());
    assert_eq!(p.peek(), &[1, 3, 2]);
    assert!(p.prev());
    assert_eq!(p.peek(), &[1, 2, 3]);
    assert!(!p.prev());
    assert_eq!(p.peek(), &[3, 2, 1]);
}

fn collect_rle<T: nekolib::order::TotalOrder>(mut it: rle::Rle<T>) -> Vec<(usize, T)> {
    let mut res = vec![];
    while let Some(x) = it.next() {
        res.push(x);
    }
    res
}

#[test]
fn lib_sanity_check() {
    let a = vec![1, 1, 3, 1, 2, 5, 5, 5, 5, 3];
    let rle = collect_rle(a.rle());
    assert_eq!(rle, [(2, 1), (1, 3), (1, 1), (1, 2), (4, 5), (1, 3)]);
}

#[test]
fn empty() {
    assert!(Vec::<u8>::new().rle().next().is_none());
}

#[test]
fn by_key() {
    let a = vec![1, 1, 3, 1, 2, 5, 5, 5, 5, 3];
    let a: Vec<(usize, i32)> = a.into_iter().enumerate().collect();
    let mut it = a.rle_by_key(|&(_i, x): &(usize, i32)| x);
    let mut rle = vec![];
    while let Some(x) = it.next() {
        rle.push(x);
    }
    assert_eq!(rle, [(2, (0, 1)), (1, (2, 3)), (1, (3, 1)), (1, (4, 2)), (4, (5, 5)), (1, (9, 3))]);
}

#[test]
fn rle_by_compare() {
    let a = vec![1, 2, 3, 10, 11, 20];
    let mut it = a.rle_by(|x: &i32, y: &i32| y - x < 5);
    let mut rle = vec![];
    while let Some(x) = it.next() {
        rle.push(x);
    }
    assert_eq!(rle, [(3, 1), (2, 10), (1, 20)]);
}

#[test]
fn extremum_doc_example() {
    let buf = [1, 3, 4, 6, 5, 2, 0, 1, 3];
    let f = |i: usize| buf[i] * buf[i];
    assert_eq!(extremum(0, 6, f), (3_usize, 36));
    let g = |i: usize| -buf[i];
    assert_eq!(extremum(3, 8, g), (6_usize, 0));
}

#[test]
fn extremum_edges() {
    let f = |i: usize| i as u64;
    assert_eq!(extremum(5, 6, f), (5, 5));
    assert_eq!(extremum(0, 100, f), (99, 99));
    let g = |i: usize| 1000 - i as i64;
    assert_eq!(extremum(10, 20, g), (10, 990));
    let h = |i: usize| -((i as i64 - 37) * (i as i64 - 37));
    assert_eq!(extremum(0, 1000, h), (37, 0));
}

fn naive_rho(x: u64, f: impl Fn(u64) -> u64) -> (usize, usize) {
    let mut seen = std::collections::HashMap::new();
    let mut y = x;
    let mut k = 0;
    loop {
        if let Some(&first) = seen.get(&y) {
            return (first, k - first);
        }
        seen.insert(y, k);
        y = f(y);
        k += 1;
    }
}

#[test]
fn tortoise_hare_matches_naive() {
    let f = |x: u64| (x * x + 1) % 255;
    for x in 0..255 {
        assert_eq!(tortoise_hare(x, f), naive_rho(x, f));
    }
    let g = |x: u64| if x < 10 { x + 1 } else { 3 };
    assert_eq!(tortoise_hare(0, g), (3, 8));
    let h = |x: u64| x;
    assert_eq!(tortoise_hare(7, h), (0, 1));
}

#[test]
fn sanity_check() {
    assert_eq!([1, 5, 4, 2, 3].inversion(), 5);
    assert_eq!([1, 2, 3, 4, 5].inversion(), 0);
    assert_eq!([5, 4, 3, 2, 1].inversion(), 10);
    assert_eq!([1, 1, 1, 1, 1].inversion(), 0);

    let empty: [u8; 0] = [];
    assert_eq!(empty.inversion(), 0);
}

#[test]
fn inversion_on_vec() {
    let v: Vec<u32> = vec![3, 1, 2, 3, 0];
    assert_eq!(v.inversion(), 6);
    assert_eq!(v[..2].inversion(), 1);
}

#[test]
fn test() {
    let mut it = std::iter::successors(Some(14025256_i64), |&i| Some(i * i % 20300713)).map(|i| i % 10);
    let n = 1024;
    let a: Vec<_> = (0..n).map(|_| it.next().unwrap()).collect();
    let b: Vec<_> = (0..n).map(|_| it.next().unwrap()).collect();

    let mut expected = vec![0; n + n - 1];
    for (i, &ai) in a.iter().enumerate() {
        for (j, &bj) in b.iter().enumerate() {
            expected[i + j] += ai * bj;
        }
    }

    let actual = multiply(&a, &b);
    assert_eq!(actual, expected);
}

#[test]
fn multiply_doc_example() {
    let a = vec![0_i64, 1, 2, 3, 4];
    let b = vec![0, 1, 2, 4, 8];
    assert_eq!(multiply(&a, &b), [0, 0, 1, 4, 11, 26, 36, 40, 32]);
}

#[test]
fn multiply_uneven_and_wrapping() {
    let a: Vec<i64> = (1..=70).collect();
    let b: Vec<i64> = vec![3, -1, 2];
    let mut expected = vec![0_i64; a.len() + b.len() - 1];
    for (i, &ai) in a.iter().enumerate() {
        for (j, &bj) in b.iter().enumerate() {
            expected[i + j] += ai * bj;
        }
    }
    assert_eq!(multiply(&a, &b), expected);
    assert_eq!(multiply(&[], &[1, 2, 3]), [0, 0]);
    assert_eq!(multiply(&[i64::MAX], &[2]), [i64::MAX.wrapping_mul(2)]);
}

fn doc_matrix() -> Vec<Vec<usize>> {
    vec![
        vec![0, 0, 1, 0, 1, 1, 0],
        vec![1, 0, 0, 1, 0, 0, 1],
        vec![0, 1, 1, 0, 0, 1, 0],
        vec![1, 0, 0, 1, 0, 0, 0],
        vec![0, 1, 0, 0, 0, 0, 1],
        vec![0, 0, 0, 1, 1, 0, 1],
    ]
}

#[test]
fn exact_cover_doc_example() {
    let a = doc_matrix();
    let ec = ExactCover::from_matrix(&a);
    assert_eq!(ec.any(), Some(vec![3, 0, 4]));
    let ec = ExactCover::from_matrix(&a);
    assert_eq!(ec.all(), vec![vec![3, 0, 4]]);
}

#[test]
fn exact_cover_several() {
    let a = vec![vec![1, 0], vec![0, 1], vec![1, 1]];
    assert_eq!(ExactCover::from_matrix(&a).all(), vec![vec![0, 1], vec![2]]);
    assert_eq!(ExactCover::from_matrix(&a).any(), Some(vec![0, 1]));
    // a row may repeat another; both give a cover
    let b = vec![vec![1, 1], vec![1, 1]];
    assert_eq!(ExactCover::from_matrix(&b).all(), vec![vec![0], vec![1]]);
}

#[test]
fn exact_cover_none() {
    // column 1 has no 1
    let a = vec![vec![1, 0], vec![1, 0]];
    assert_eq!(ExactCover::from_matrix(&a).all(), Vec::<Vec<usize>>::new());
    assert_eq!(ExactCover::from_matrix(&a).any(), None);
    // every column has a 1, but no rows fit together
    let b = vec![vec![1, 1, 0], vec![0, 1, 1]];
    assert_eq!(ExactCover::from_matrix(&b).any(), None);
    // no rows at all
    let e: Vec<Vec<usize>> = vec![];
    assert_eq!(ExactCover::from_matrix(&e).any(), None);
    assert_eq!(ExactCover::from_matrix(&e).all(), Vec::<Vec<usize>>::new());
}

#[test]
fn exact_cover_lists_each_cover_once() {
    // rows: {0}, {1}, {0, 1}, {0}, {1}
    let a = vec![vec![1, 0], vec![0, 1], vec![1, 1], vec![1, 0], vec![0, 1]];
    let mut all = ExactCover::from_matrix(&a).all();
    for c in all.iter_mut() {
        c.sort();
    }
    all.sort();
    assert_eq!(all, vec![vec![0, 1], vec![0, 4], vec![1, 3], vec![2], vec![3, 4]]);
}
