use nekolib::rs_dict::{find_nth_small, RsDict};

#[test]
fn select_internal() {
    assert_eq!(find_nth_small(0x00000000_00000001_u64, 1, 0), 0);
    assert_eq!(find_nth_small(0x00000000_00000003_u64, 1, 1), 1);
    assert_eq!(find_nth_small(0x00000000_00000010_u64, 1, 0), 4);
    assert_eq!(find_nth_small(0xffffffff_ffffffff_u64, 1, 63), 63);
}

#[test]
fn test_rs() {
    let n = 65536 + 4096;
    let buf: Vec<_> = (0..n).map(|i| i % 1024 != 0).collect();

    let rs = RsDict::from(buf.clone());
    let mut zero = 0;
    let mut one = 0;
    for i in 0..n {
        assert_eq!(rs.count(0, i, 0), zero);
        assert_eq!(rs.count(0, i, 1), one);
        if buf[i] {
            one += 1;
        } else {
            zero += 1;
        }
    }
    assert_eq!(rs.count(0, n, 0), zero);
    assert_eq!(rs.count(0, n, 1), one);

    let zeros: Vec<_> = (0..n).filter(|&i| !buf[i]).collect();
    let ones: Vec<_> = (0..n).filter(|&i| buf[i]).collect();

    for i in 0..zeros.len() {
        let s0 = rs.find_nth(0, n, 0, i);
        assert_eq!(s0, Some(zeros[i]));
        assert_eq!(rs.count(0, s0.unwrap() + 1, 0), i + 1);
    }
    for i in 0..ones.len() {
        let s1 = rs.find_nth(0, n, 1, i);
        assert_eq!(s1, Some(ones[i]));
        assert_eq!(rs.count(0, s1.unwrap() + 1, 1), i + 1);
    }
    assert_eq!(rs.find_nth(0, n, 0, zeros.len()), None);
    assert_eq!(rs.find_nth(0, n, 1, ones.len()), None);
}

#[test]
fn rank_and_select_small() {
    let rs = RsDict::from(vec![true, false, true, true]);
    assert_eq!(rs.rank(4, 1), 3);
    assert_eq!(rs.rank(4, 0), 1);
    // any value other than 0 counts the 1s
    assert_eq!(rs.rank(2, 5), 1);
    assert_eq!(rs.select(1, 0), Some(0));
    assert_eq!(rs.select(1, 1), Some(1));
    assert_eq!(rs.select(1, 2), Some(3));
    assert_eq!(rs.select(1, 3), Some(4));
    assert_eq!(rs.select(1, 4), None);
    assert_eq!(rs.select(0, 1), Some(2));
    assert_eq!(rs.select(0, 2), None);
    assert_eq!(rs.find_nth(1, 4, 1, 0), Some(2));
    assert_eq!(rs.find_nth(1, 2, 1, 0), None);
    assert_eq!(rs.count(1, 3, 0), 1);
}

#[test]
fn find_nth_small_zeros() {
    // the zeros of 0b1011 are at 2 and from 4 on
    assert_eq!(find_nth_small(0b1011, 0, 0), 2);
    assert_eq!(find_nth_small(0b1011, 0, 1), 4);
    assert_eq!(find_nth_small(0, 0, 63), 63);
}

#[test]
fn dense_and_sparse_blocks() {
    // ones close together, zeros far apart, and the reverse
    let n = 10000;
    let a: Vec<bool> = (0..n).map(|i| i % 3 != 0).collect();
    let b: Vec<bool> = (0..n).map(|i| i % 5000 == 7).collect();
    for buf in [a, b] {
        let rs = RsDict::from(buf.clone());
        for x in 0..2u64 {
            let pos: Vec<usize> = (0..n).filter(|&i| buf[i] == (x == 1)).collect();
            for (k, &p) in pos.iter().enumerate() {
                assert_eq!(rs.find_nth(0, n, x, k), Some(p));
                assert_eq!(rs.select(x, k + 1), Some(p + 1));
            }
            assert_eq!(rs.find_nth(0, n, x, pos.len()), None);
            assert_eq!(rs.select(x, pos.len() + 1), None);
        }
    }
}
