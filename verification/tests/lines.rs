use nekolib::incremental_line_set::IncrementalLineSet;

#[test]
fn line_set_doc_example() {
    let mut ls = IncrementalLineSet::new();
    assert_eq!(ls.min(0), None);

    ls.push((2, 2));
    assert_eq!(ls.min(0), Some(2));
    assert_eq!(ls.min(2), Some(6));

    ls.push((1, 3));
    assert_eq!(ls.min(0), Some(2));
    assert_eq!(ls.min(2), Some(5));
    assert_eq!(ls.min(5), Some(8));

    ls.push((-1, 10));
    assert_eq!(ls.min(2), Some(5));
    assert_eq!(ls.min(5), Some(5));
    assert_eq!(ls.inner_len(), 3);
}

#[test]
fn test_simple() {
    let mut ls = IncrementalLineSet::new();
    assert_eq!(ls.min(1), None);

    let mut f = std::iter::successors(Some(185_i32), |&x| Some((x * 291 + 748) % 93739))
        .map(|x| x % 300 - 150);

    let mut naive = vec![];
    for _ in 0..5000 {
        let a = f.next().unwrap();
        let b = f.next().unwrap();
        ls.push((a, b));
        naive.push((a, b));
        for x in -100..=100 {
            let expected = naive.iter().map(|&(a, b)| a * x + b).min();
            let got = ls.min(x);
            assert_eq!(got, expected);
        }
    }
}

#[test]
fn test_cross() {
    let mut ls = IncrementalLineSet::new();
    ls.push((0, 0));
    for a in 1..1000 {
        ls.push((a, 0));
        assert_eq!(ls.inner_len(), 2);
    }
    for a in 1..1000 {
        ls.push((-a, 0));
        assert_eq!(ls.inner_len(), 2);
    }
}

#[test]
fn test_many() {
    let mut ls = IncrementalLineSet::new();
    let mut y = 0;
    let x_max = 1000;
    for x in 0..=x_max {
        let a = -x;
        y += a;
        ls.push((a, -a * x + y));
        ls.push((-a, -a * x + y - a));
        assert_eq!(ls.inner_len(), (2 * x + 1) as usize);
    }
    for x in -x_max..=x_max {
        let y = -x * (x + 1) / 2;
        assert_eq!(ls.min(x), Some(y));
    }
}

#[test]
fn test_frac() {
    let mut ls = IncrementalLineSet::new();
    ls.push((2, 1));
    ls.push((-5, 6));
    ls.push((0, 3));
    assert_eq!(ls.inner_len(), 2);
}

#[test]
fn test_below() {
    let mut ls = IncrementalLineSet::new();
    ls.push((0, 2));
    assert_eq!(ls.min(10), Some(2));
    ls.push((0, 4));
    assert_eq!(ls.min(10), Some(2));
    ls.push((0, 1));
    assert_eq!(ls.min(10), Some(1));
    assert_eq!(ls.inner_len(), 1);
}

fn test_cf660_f_internal(a: &[i64], expected: i64) {
    let n = a.len();
    let sigma = {
        let mut sigma = vec![0; n + 1];
        for i in 0..n {
            sigma[i + 1] = sigma[i] + a[i];
        }
        sigma
    };
    let tau = {
        let mut tau = vec![0; n + 1];
        for i in 0..n {
            tau[i + 1] = tau[i] + a[i] * (i + 1) as i64;
        }
        tau
    };
    let p = |j: usize| tau[j] - j as i64 * sigma[j];
    let q = |j: usize| j as i64;
    let r = |i: usize| sigma[i];
    let s = |i: usize| tau[i];

    let mut ls = IncrementalLineSet::new();
    let mut dp = vec![0; n + 1];
    ls.push((q(0), p(0)));
    for i in 1..=n {
        dp[i] = -ls.min(r(i)).unwrap() + s(i);
        ls.push((q(i), p(i)));
    }
    let actual = *dp.iter().max().unwrap();
    assert_eq!(actual, expected);
}

#[test]
fn test_cf660_f() {
    test_cf660_f_internal(&[5, -1000, 1, -3, 7, -8], 16);
    test_cf660_f_internal(&[1000, 1000, 1001, 1000, 1000], 15003);
    test_cf660_f_internal(&[-60, -70, -80], 0);
    test_cf660_f_internal(&[-4], 0);
    test_cf660_f_internal(&[-3, 6], 9);
    test_cf660_f_internal(&[8, 1, -6], 10);
    test_cf660_f_internal(&[9, 2, -5, 1], 13);
    test_cf660_f_internal(&[10, -3, -3, 8, 2], 37);
    test_cf660_f_internal(&[3, 1, -9, 1, 2, -10], 5);
    test_cf660_f_internal(&[-3, -7, -7, -9, -3, 7, -9], 11);
    test_cf660_f_internal(&[-2, 1, -5, -2, 1, -9, 0, 2], 4);
    test_cf660_f_internal(&[-1, 10, -8, -9, -7, 8, 6, -6, 7], 38);
    test_cf660_f_internal(&[-9, -10, -9, 4, 6, 8, 3, -8, 0, 10], 100);
    test_cf660_f_internal(
        &[
            349, -152, -35, -353, -647, -702, 64, 299, -431, -11, -185, 437, 237, -103, 1, 448,
            23, -308, -689, 329, -409, 309, 424, -93, -192, 0, 257, -90, -394, -512, -148, 376,
            -394, -528, 212, -215, -255, -684, -321, 503, -72, -227, -583, -537, -65, 444, -332,
            465, -547, 291, -663, -235, 542, -89, -450, -212, 438, 12, 139, -558, -87, 433, -462,
            79, 35,
        ],
        6676,
    );
    test_cf660_f_internal(&[7, -5, 3, -9, 8], 10);
    test_cf660_f_internal(&[-7, 0, 10, 1, -1, -5, 6], 34);
    test_cf660_f_internal(&[3, -10, -2, 5, 2, -7, 7], 21);
    test_cf660_f_internal(&[0, -7, 1, -9], 1);
    test_cf660_f_internal(&[4, -6, 3, 3], 13);
    test_cf660_f_internal(&[-9, 8, 0, -4, -4, -3, -5, 9, -6, -9], 14);
    test_cf660_f_internal(&[3, -5, -5, 1, -6, -2], 3);
    test_cf660_f_internal(&[8, -2, -8, 4, -8, 8, -3, -8, 0], 12);
    test_cf660_f_internal(&[3, 3, 0, -7, 6, -6], 11);
    test_cf660_f_internal(&[5, -6, -2, 6, -2, -4, -3], 11);
}
