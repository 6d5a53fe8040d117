use nekolib::wavelet_matrix::{Count3wayResult, WaveletMatrix, WmInt};

#[test]
fn wavelet_test_count() {
    let n = 8;
    let c3 = |lt, eq, gt| Count3wayResult::new(lt, eq, gt);

    let zero: WaveletMatrix<u8> = WaveletMatrix::from(vec![0; n]);
    assert_eq!(zero.count_3way(0, n, 0), c3(0, n, 0));
    assert_eq!(zero.count_3way_range(0, n, 0, 0), c3(0, n, 0));
    assert_eq!(zero.count_3way(0, n, 1), c3(n, 0, 0));
    assert_eq!(zero.count_3way_range(0, n, 1, 1), c3(n, 0, 0));
    assert_eq!(zero.count_3way(0, n, 254), c3(n, 0, 0));
    assert_eq!(zero.count_3way_range(0, n, 254, 254), c3(n, 0, 0));
    assert_eq!(zero.count_3way(0, n, 255), c3(n, 0, 0));
    assert_eq!(zero.count_3way_range(0, n, 255, 255), c3(n, 0, 0));

    let full: WaveletMatrix<u8> = WaveletMatrix::from(vec![!0; n]);
    assert_eq!(full.count_3way(0, n, 0), c3(0, 0, n));
    assert_eq!(full.count_3way_range(0, n, 0, 0), c3(0, 0, n));
    assert_eq!(full.count_3way(0, n, 1), c3(0, 0, n));
    assert_eq!(full.count_3way_range(0, n, 1, 1), c3(0, 0, n));
    assert_eq!(full.count_3way(0, n, 254), c3(0, 0, n));
    assert_eq!(full.count_3way_range(0, n, 254, 254), c3(0, 0, n));
    assert_eq!(full.count_3way(0, n, 255), c3(0, n, 0));
    assert_eq!(full.count_3way_range(0, n, 255, 255), c3(0, n, 0));
}

#[test]
fn wavelet_doc_example() {
    let wm: WaveletMatrix<u32> = WaveletMatrix::from(vec![1, 8, 4, 9, 2, 7, 5, 2]);
    assert_eq!(wm.count_3way(2, 8, 5).lt(), 3); // [4, _, 2, _, _, _, 2]

    let c3 = wm.count_3way_range(0, 6, 2, 7); // [1, 8, 4, 9, 2, 7]
    assert_eq!(c3.lt(), 1);
    assert_eq!(c3.eq(), 3);
    assert_eq!(c3.gt(), 2);
    assert_eq!(c3.le(), 4);
    assert_eq!(c3.ge(), 5);

    assert_eq!(wm.quantile(2, 5, 0), Some(2)); // [_, _, 2]
    assert_eq!(wm.quantile(2, 5, 1), Some(4)); // [4, _, _]
    assert_eq!(wm.quantile(2, 5, 2), Some(9)); // [_, 9, _]
    assert_eq!(wm.quantile(2, 5, 3), None);

    assert_eq!(wm.len(), 8);
    assert!(!wm.is_empty());
    assert_eq!(wm.rank(8, 2), 2);
    assert_eq!(wm.rank(4, 2), 0);
}

#[test]
fn wavelet_matches_naive() {
    let n = 300;
    let f = std::iter::successors(Some(296u32), |&x| Some((x * 258 + 185) % 397)).map(|x| x & 7);
    let buf: Vec<u32> = f.take(n).collect();
    let wm: WaveletMatrix<u32> = WaveletMatrix::from(buf.clone());
    for start in (0..n).step_by(7) {
        for end in start..=n {
            for x in 0..=8u32 {
                let lt = buf[start..end].iter().filter(|&&y| y < x).count();
                let eq = buf[start..end].iter().filter(|&&y| y == x).count();
                let gt = buf[start..end].iter().filter(|&&y| y > x).count();
                assert_eq!(wm.count_3way(start, end, x), Count3wayResult::new(lt, eq, gt));
                assert_eq!(wm.count(start, end, x), eq);
            }
            for xl in 0..=7u32 {
                for xr in xl..=7u32 {
                    let within = buf[start..end].iter().filter(|&&y| xl <= y && y <= xr).count();
                    assert_eq!(wm.count_range(start, end, xl, xr), within);
                }
            }
            let mut tmp = buf[start..end].to_vec();
            tmp.sort_unstable();
            for i in 0..tmp.len() {
                assert_eq!(wm.quantile(start, end, i), Some(tmp[i]));
            }
            assert_eq!(wm.quantile(start, end, tmp.len()), None);
        }
    }
}

#[test]
fn wm_int_bits() {
    assert_eq!(0u8.bitlen(), 0);
    assert_eq!(1u16.bitlen(), 1);
    assert_eq!(255u32.bitlen(), 8);
    assert_eq!(256u64.bitlen(), 9);
    assert_eq!(u64::MAX.bitlen(), 64);
    assert_eq!(usize::MAX.bitlen() as u32, usize::BITS);
    assert!(5u8.test(2));
    assert!(!5u8.test(1));
    let mut x = 5u32;
    x.set(1);
    assert_eq!(x, 7);
    x.set(0);
    assert_eq!(x, 7);
    assert_eq!(<u64 as WmInt>::zero(), 0);
}

#[test]
fn wavelet_empty() {
    let wm: WaveletMatrix<u64> = WaveletMatrix::from(vec![]);
    assert!(wm.is_empty());
    assert_eq!(wm.count_3way(0, 0, 3), Count3wayResult::new(0, 0, 0));
    assert_eq!(wm.quantile(0, 0, 0), None);
}

#[test]
fn lib_test_simple() {
    let n = 300;
    let f = std::iter::successors(Some(296u32), |&x| Some((x * 258 + 185) % 397)).map(|x| x & 7);
    let buf: Vec<u32> = f.take(n).collect();
    let wm: WaveletMatrix<u32> = WaveletMatrix::from(buf.clone());
    for start in 0..n {
        let mut count = vec![0; 8];
        for end in start..=n {
            for xl in 0..=7u32 {
                for xr in xl..=7u32 {
                    let lt: usize = count[..xl as usize].iter().sum();
                    let gt: usize = count[xr as usize + 1..].iter().sum();
                    let eq = (end - start) - (lt + gt);
                    let c3 = Count3wayResult::new(lt, eq, gt);
                    assert_eq!(wm.count_3way_range(start, end, xl, xr), c3);
                }

                let lt: usize = count[..xl as usize].iter().sum();
                let gt: usize = count[xl as usize + 1..].iter().sum();
                let eq = (end - start) - (lt + gt);
                let c3 = Count3wayResult::new(lt, eq, gt);
                assert_eq!(wm.count(start, end, xl), eq);
                assert_eq!(wm.count_range(start, end, xl, xl), eq);
                assert_eq!(wm.count_3way(start, end, xl), c3);
                assert_eq!(wm.count_3way_range(start, end, xl, xl), c3);
            }

            if end < n {
                count[buf[end] as usize] += 1;
            }
        }
    }

    for start in 0..n {
        let mut count = vec![0; 8];
        for end in start..n {
            let x = buf[end];
            assert_eq!(wm.find_nth(start, x, count[x as usize]), Some(end));
            count[x as usize] += 1;
        }
        for x in 0..8 {
            assert_eq!(wm.find_nth(start, x, count[x as usize]), None);
        }
    }

    for start in 0..n {
        for end in start..n {
            let mut tmp = buf[start..end].to_vec();
            tmp.sort_unstable();
            for i in 0..tmp.len() {
                assert_eq!(wm.quantile(start, end, i), Some(tmp[i]));
            }
            assert_eq!(wm.quantile(start, end, tmp.len()), None);
        }
    }

    for start in 0..n {
        for end in start..n {
            for x in 0..8 {
                let mut tmp: Vec<_> = buf[start..end].iter().map(|&y| x ^ y).collect();
                tmp.sort_unstable();
                for i in 0..tmp.len() {
                    assert_eq!(wm.xored_quantile(start, end, i, x), Some(tmp[i]));
                }
                assert_eq!(wm.xored_quantile(start, end, tmp.len(), x), None);
            }
        }
    }
}

#[test]
fn wavelet_find_nth_doc_example() {
    let wm: WaveletMatrix<u32> = WaveletMatrix::from(vec![1, 8, 4, 9, 2, 7, 5, 2]);
    assert_eq!(wm.find_nth(3, 2, 0), Some(4));
    assert_eq!(wm.find_nth(3, 2, 1), Some(7));
    assert_eq!(wm.find_nth(4, 2, 0), Some(4));
    assert_eq!(wm.find_nth(5, 2, 0), Some(7));
    assert_eq!(wm.find_nth(5, 2, 1), None);
    assert_eq!(wm.find_nth(0, 3, 0), None);
}

#[test]
fn wavelet_select() {
    let wm: WaveletMatrix<u32> = WaveletMatrix::from(vec![1, 8, 4, 9, 2, 7, 5, 2]);
    assert_eq!(wm.select(2, 0), Some(0));
    assert_eq!(wm.select(2, 1), Some(5));
    assert_eq!(wm.select(2, 2), Some(8));
    assert_eq!(wm.select(2, 3), None);
    assert_eq!(wm.select(9, 1), Some(4));
    assert_eq!(wm.select(100, 1), None);
}

#[test]
fn wavelet_xored_quantile() {
    let wm: WaveletMatrix<u8> = WaveletMatrix::from(vec![5, 1, 6, 3]);
    // 5 ^ 3 = 6, 1 ^ 3 = 2, 6 ^ 3 = 5, 3 ^ 3 = 0
    assert_eq!(wm.xored_quantile(0, 4, 0, 3), Some(0));
    assert_eq!(wm.xored_quantile(0, 4, 1, 3), Some(2));
    assert_eq!(wm.xored_quantile(0, 4, 2, 3), Some(5));
    assert_eq!(wm.xored_quantile(0, 4, 3, 3), Some(6));
    assert_eq!(wm.xored_quantile(0, 4, 4, 3), None);
    // only the bits below the width count: 11 acts as 3
    assert_eq!(wm.xored_quantile(0, 4, 3, 11), Some(6));
    assert_eq!(wm.xored_quantile(1, 3, 0, 0), Some(1));
}
