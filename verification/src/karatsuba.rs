//! Multiplying polynomials by Karatsuba's method, with the coefficients
//! taken as 64-bit integers that wrap around.
use vstd::prelude::*;

use vstd::arithmetic::div_mod::{lemma_fundamental_div_mod, lemma_mod_bound, lemma_mod_multiples_basic};

verus! {

/// Coefficient `i` of `a`; zero outside it.
pub open spec fn coef(a: Seq<i64>, i: int) -> int {
    if 0 <= i < a.len() {
        a[i] as int
    } else {
        0
    }
}

/// The sum of `f(i)` over `lo <= i < hi`.
pub open spec fn sum(f: spec_fn(int) -> int, lo: int, hi: int) -> int
    decreases hi - lo,
{
    if hi <= lo {
        0
    } else {
        sum(f, lo, hi - 1) + f(hi - 1)
    }
}

/// Coefficient `k` of the product: the sum of `a[i] * b[k - i]`.
pub open spec fn conv_at(a: Seq<i64>, b: Seq<i64>, k: int) -> int {
    sum(|i: int| coef(a, i) * coef(b, k - i), 0, k + 1)
}

/// The number of values of a 64-bit integer.
pub open spec fn modulus() -> int {
    0x1_0000_0000_0000_0000
}

/// `x` and `y` agree modulo `2^64`.
pub open spec fn congruent(x: int, y: int) -> bool {
    (x - y) % modulus() == 0
}

/// The 64-bit integer that agrees with `x` modulo `2^64`.
pub open spec fn wrap(x: int) -> int {
    let m = x % modulus();
    if m > i64::MAX {
        m - modulus()
    } else {
        m
    }
}

/// Differing by a multiple of `2^64` is agreeing modulo `2^64`.
proof fn lemma_cong_multiple(x: int, y: int, q: int)
    requires
        x - y == q * modulus(),
    ensures
        congruent(x, y),
{
    lemma_mod_multiples_basic(q, modulus());
}

/// Agreeing modulo `2^64` is differing by a multiple of it.
proof fn lemma_cong_quotient(x: int, y: int)
    requires
        congruent(x, y),
    ensures
        x - y == ((x - y) / modulus()) * modulus(),
{
    lemma_fundamental_div_mod(x - y, modulus());
}

proof fn lemma_cong_refl(x: int)
    ensures
        congruent(x, x),
{
    lemma_cong_multiple(x, x, 0);
}

proof fn lemma_cong_trans(x: int, y: int, z: int)
    requires
        congruent(x, y),
        congruent(y, z),
    ensures
        congruent(x, z),
{
    lemma_cong_quotient(x, y);
    lemma_cong_quotient(y, z);
    let q = (x - y) / modulus() + (y - z) / modulus();
    assert(x - z == q * modulus()) by (nonlinear_arith)
        requires
            x - y == ((x - y) / modulus()) * modulus(),
            y - z == ((y - z) / modulus()) * modulus(),
            q == (x - y) / modulus() + (y - z) / modulus(),
    ;
    lemma_cong_multiple(x, z, q);
}

proof fn lemma_cong_add(x: int, y: int, x2: int, y2: int)
    requires
        congruent(x, x2),
        congruent(y, y2),
    ensures
        congruent(x + y, x2 + y2),
        congruent(x - y, x2 - y2),
{
    lemma_cong_quotient(x, x2);
    lemma_cong_quotient(y, y2);
    let p = (x - x2) / modulus();
    let q = (y - y2) / modulus();
    assert((x + y) - (x2 + y2) == (p + q) * modulus()) by (nonlinear_arith)
        requires
            x - x2 == p * modulus(),
            y - y2 == q * modulus(),
    ;
    assert((x - y) - (x2 - y2) == (p - q) * modulus()) by (nonlinear_arith)
        requires
            x - x2 == p * modulus(),
            y - y2 == q * modulus(),
    ;
    lemma_cong_multiple(x + y, x2 + y2, p + q);
    lemma_cong_multiple(x - y, x2 - y2, p - q);
}

proof fn lemma_cong_mul(x: int, y: int, x2: int, y2: int)
    requires
        congruent(x, x2),
        congruent(y, y2),
    ensures
        congruent(x * y, x2 * y2),
{
    lemma_cong_quotient(x, x2);
    lemma_cong_quotient(y, y2);
    let p = (x - x2) / modulus();
    let q = (y - y2) / modulus();
    let r = p * y + x2 * q;
    assert(x * y - x2 * y2 == r * modulus()) by (nonlinear_arith)
        requires
            x - x2 == p * modulus(),
            y - y2 == q * modulus(),
            r == p * y + x2 * q,
    ;
    lemma_cong_multiple(x * y, x2 * y2, r);
}

/// A 64-bit integer that agrees with `x` is `wrap(x)`.
proof fn lemma_wrap(r: i64, x: int)
    requires
        congruent(r as int, x),
    ensures
        r == wrap(x),
        i64::MIN <= x <= i64::MAX ==> r == x,
{
    let m = modulus();
    lemma_cong_quotient(r as int, x);
    let q = (r - x) / m;
    lemma_fundamental_div_mod(x, m);
    lemma_mod_bound(x, m);
    let xm = x % m;
    let xq = x / m;
    // `r` and `x % m` differ by a multiple of `m`, and both are within `m`
    let d = q + xq;
    assert(r - xm == d * m) by (nonlinear_arith)
        requires
            r - x == q * m,
            x == m * xq + xm,
            d == q + xq,
    ;
    if xm > i64::MAX {
        assert(d == -1) by (nonlinear_arith)
            requires
                r - xm == d * m,
                i64::MIN <= r <= i64::MAX,
                i64::MAX < xm < m,
                m == 0x1_0000_0000_0000_0000,
        ;
    } else {
        assert(d == 0) by (nonlinear_arith)
            requires
                r - xm == d * m,
                i64::MIN <= r <= i64::MAX,
                0 <= xm <= i64::MAX,
                m == 0x1_0000_0000_0000_0000,
        ;
    }
    if i64::MIN <= x <= i64::MAX {
        assert(q == 0) by (nonlinear_arith)
            requires
                r - x == q * m,
                i64::MIN <= r <= i64::MAX,
                i64::MIN <= x <= i64::MAX,
                m == 0x1_0000_0000_0000_0000,
        ;
    }
}

fn add_wrap(x: i64, y: i64) -> (r: i64)
    ensures
        congruent(r as int, x + y),
{
    let r = x.wrapping_add(y);
    proof {
        if x + y > i64::MAX {
            lemma_cong_multiple(r as int, x + y, -1);
        } else if x + y < i64::MIN {
            lemma_cong_multiple(r as int, x + y, 1);
        } else {
            lemma_cong_refl(x + y);
        }
    }
    r
}

fn sub_wrap(x: i64, y: i64) -> (r: i64)
    ensures
        congruent(r as int, x - y),
{
    let r = x.wrapping_sub(y);
    proof {
        if x - y > i64::MAX {
            lemma_cong_multiple(r as int, x - y, -1);
        } else if x - y < i64::MIN {
            lemma_cong_multiple(r as int, x - y, 1);
        } else {
            lemma_cong_refl(x - y);
        }
    }
    r
}

fn mul_wrap(x: i64, y: i64) -> (r: i64)
    ensures
        congruent(r as int, x * y),
{
    let r = x.wrapping_mul(y);
    proof {
        let p = x * y;
        let m = modulus();
        lemma_fundamental_div_mod(p, m);
        lemma_mod_bound(p, m);
        if p % m > i64::MAX {
            assert(r - p == (-1 - p / m) * m) by (nonlinear_arith)
                requires
                    r == p % m - m,
                    p == m * (p / m) + p % m,
            ;
            lemma_cong_multiple(r as int, p, -1 - p / m);
        } else {
            assert(r - p == (-(p / m)) * m) by (nonlinear_arith)
                requires
                    r == p % m,
                    p == m * (p / m) + p % m,
            ;
            lemma_cong_multiple(r as int, p, -(p / m));
        }
    }
    r
}

proof fn lemma_sum_ext(f: spec_fn(int) -> int, g: spec_fn(int) -> int, lo: int, hi: int)
    requires
        forall|i: int| lo <= i < hi ==> #[trigger] f(i) == g(i),
    ensures
        sum(f, lo, hi) == sum(g, lo, hi),
    decreases hi - lo,
{
    if hi > lo {
        lemma_sum_ext(f, g, lo, hi - 1);
    }
}

proof fn lemma_sum_linear(f: spec_fn(int) -> int, g: spec_fn(int) -> int, h: spec_fn(int) -> int, lo: int, hi: int)
    requires
        forall|i: int| lo <= i < hi ==> #[trigger] h(i) == f(i) + g(i),
    ensures
        sum(h, lo, hi) == sum(f, lo, hi) + sum(g, lo, hi),
    decreases hi - lo,
{
    if hi > lo {
        lemma_sum_linear(f, g, h, lo, hi - 1);
    }
}

proof fn lemma_sum_split(f: spec_fn(int) -> int, lo: int, mid: int, hi: int)
    requires
        lo <= mid <= hi,
    ensures
        sum(f, lo, hi) == sum(f, lo, mid) + sum(f, mid, hi),
    decreases hi - lo,
{
    if hi > mid {
        lemma_sum_split(f, lo, mid, hi - 1);
    }
}

proof fn lemma_sum_zero(f: spec_fn(int) -> int, lo: int, hi: int)
    requires
        forall|i: int| lo <= i < hi ==> #[trigger] f(i) == 0,
    ensures
        sum(f, lo, hi) == 0,
    decreases hi - lo,
{
    if hi > lo {
        lemma_sum_zero(f, lo, hi - 1);
    }
}

proof fn lemma_sum_shift(f: spec_fn(int) -> int, g: spec_fn(int) -> int, s: int, lo: int, hi: int)
    requires
        forall|i: int| lo <= i < hi ==> #[trigger] g(i + s) == f(i),
    ensures
        sum(g, lo + s, hi + s) == sum(f, lo, hi),
    decreases hi - lo,
{
    if hi > lo {
        lemma_sum_shift(f, g, s, lo, hi - 1);
        assert(g(hi - 1 + s) == f(hi - 1));
    }
}

/// Coefficients that add up give products that add up.
proof fn lemma_conv_add_left(a: Seq<i64>, a1: Seq<i64>, a2: Seq<i64>, b: Seq<i64>, k: int)
    requires
        forall|i: int| #[trigger] coef(a, i) == coef(a1, i) + coef(a2, i),
    ensures
        conv_at(a, b, k) == conv_at(a1, b, k) + conv_at(a2, b, k),
{
    let f = |i: int| coef(a, i) * coef(b, k - i);
    let f1 = |i: int| coef(a1, i) * coef(b, k - i);
    let f2 = |i: int| coef(a2, i) * coef(b, k - i);
    assert forall|i: int| 0 <= i < k + 1 implies #[trigger] f(i) == f1(i) + f2(i) by {
        let x = coef(a1, i);
        let y = coef(a2, i);
        let z = coef(b, k - i);
        assert(coef(a, i) == x + y);
        assert((x + y) * z == x * z + y * z) by (nonlinear_arith);
    }
    lemma_sum_linear(f1, f2, f, 0, k + 1);
}

proof fn lemma_conv_add_right(a: Seq<i64>, b: Seq<i64>, b1: Seq<i64>, b2: Seq<i64>, k: int)
    requires
        forall|i: int| #[trigger] coef(b, i) == coef(b1, i) + coef(b2, i),
    ensures
        conv_at(a, b, k) == conv_at(a, b1, k) + conv_at(a, b2, k),
{
    let f = |i: int| coef(a, i) * coef(b, k - i);
    let f1 = |i: int| coef(a, i) * coef(b1, k - i);
    let f2 = |i: int| coef(a, i) * coef(b2, k - i);
    assert forall|i: int| 0 <= i < k + 1 implies #[trigger] f(i) == f1(i) + f2(i) by {
        let x = coef(a, i);
        let y = coef(b1, k - i);
        let z = coef(b2, k - i);
        assert(coef(b, k - i) == y + z);
        assert(x * (y + z) == x * y + x * z) by (nonlinear_arith);
    }
    lemma_sum_linear(f1, f2, f, 0, k + 1);
}

/// Coefficients moved up by `s` move the product up by `s`.
proof fn lemma_conv_shift_left(a: Seq<i64>, a1: Seq<i64>, s: int, b: Seq<i64>, k: int)
    requires
        s >= 0,
        forall|i: int| #[trigger] coef(a, i) == coef(a1, i - s),
    ensures
        conv_at(a, b, k) == conv_at(a1, b, k - s),
{
    let g = |i: int| coef(a, i) * coef(b, k - i);
    let f = |i: int| coef(a1, i) * coef(b, k - s - i);
    if k + 1 <= s {
        assert forall|i: int| 0 <= i < k + 1 implies #[trigger] g(i) == 0 by {
            assert(coef(a, i) == coef(a1, i - s));
        }
        lemma_sum_zero(g, 0, k + 1);
    } else {
        lemma_sum_split(g, 0, s, k + 1);
        assert forall|i: int| 0 <= i < s implies #[trigger] g(i) == 0 by {
            assert(coef(a, i) == coef(a1, i - s));
        }
        lemma_sum_zero(g, 0, s);
        assert forall|i: int| 0 <= i < k - s + 1 implies #[trigger] g(i + s) == f(i) by {
            assert(coef(a, i + s) == coef(a1, i));
        }
        lemma_sum_shift(f, g, s, 0, k - s + 1);
    }
}

proof fn lemma_conv_shift_right(a: Seq<i64>, b: Seq<i64>, b1: Seq<i64>, s: int, k: int)
    requires
        s >= 0,
        forall|i: int| #[trigger] coef(b, i) == coef(b1, i - s),
    ensures
        conv_at(a, b, k) == conv_at(a, b1, k - s),
{
    let g = |i: int| coef(a, i) * coef(b, k - i);
    let f = |i: int| coef(a, i) * coef(b1, k - s - i);
    if k + 1 <= s {
        assert forall|i: int| 0 <= i < k + 1 implies #[trigger] g(i) == 0 by {
            assert(coef(b, k - i) == coef(b1, k - i - s));
        }
        lemma_sum_zero(g, 0, k + 1);
    } else {
        lemma_sum_split(g, 0, k - s + 1, k + 1);
        assert forall|i: int| k - s + 1 <= i < k + 1 implies #[trigger] g(i) == 0 by {
            assert(coef(b, k - i) == coef(b1, k - i - s));
        }
        lemma_sum_zero(g, k - s + 1, k + 1);
        assert forall|i: int| 0 <= i < k - s + 1 implies #[trigger] g(i) == f(i) by {
            assert(coef(b, k - i) == coef(b1, k - s - i));
        }
        lemma_sum_ext(g, f, 0, k - s + 1);
    }
}

/// Sequences with the same coefficients have the same products.
proof fn lemma_conv_same(a: Seq<i64>, a1: Seq<i64>, b: Seq<i64>, b1: Seq<i64>, k: int)
    requires
        forall|i: int| #[trigger] coef(a, i) == coef(a1, i),
        forall|i: int| #[trigger] coef(b, i) == coef(b1, i),
    ensures
        conv_at(a, b, k) == conv_at(a1, b1, k),
{
    let g = |i: int| coef(a, i) * coef(b, k - i);
    let f = |i: int| coef(a1, i) * coef(b1, k - i);
    assert forall|i: int| 0 <= i < k + 1 implies #[trigger] g(i) == f(i) by {
        assert(coef(a, i) == coef(a1, i));
        assert(coef(b, k - i) == coef(b1, k - i));
    }
    lemma_sum_ext(g, f, 0, k + 1);
}

/// Past the last coefficient of the product, and before the first, there is
/// nothing.
proof fn lemma_conv_outside(a: Seq<i64>, b: Seq<i64>, k: int)
    requires
        k < 0 || k >= a.len() + b.len() - 1,
    ensures
        conv_at(a, b, k) == 0,
{
    let g = |i: int| coef(a, i) * coef(b, k - i);
    assert forall|i: int| 0 <= i < k + 1 implies #[trigger] g(i) == 0 by {
        if i < a.len() {
            assert(k - i >= b.len());
        }
    }
    lemma_sum_zero(g, 0, k + 1);
}

/// The product by rows: the sum over the coefficients of `a`.
proof fn lemma_conv_rows(a: Seq<i64>, b: Seq<i64>, k: int)
    requires
        k >= 0,
    ensures
        conv_at(a, b, k) == sum(|i: int| coef(a, i) * coef(b, k - i), 0, a.len() as int),
{
    let g = |i: int| coef(a, i) * coef(b, k - i);
    let n = a.len() as int;
    if n <= k + 1 {
        lemma_sum_split(g, 0, n, k + 1);
        assert forall|i: int| n <= i < k + 1 implies #[trigger] g(i) == 0 by {}
        lemma_sum_zero(g, n, k + 1);
    } else {
        lemma_sum_split(g, 0, k + 1, n);
        assert forall|i: int| k + 1 <= i < n implies #[trigger] g(i) == 0 by {}
        lemma_sum_zero(g, k + 1, n);
    }
}

/// Karatsuba's identity: with `a` split into a lower part `al` and an upper
/// part `ah` at `h`, and `b` likewise, the product is the product of the
/// lower parts, the cross products moved up by `h`, and the product of the
/// upper parts moved up by `2 * h`.
pub proof fn lemma_split_product(a: Seq<i64>, b: Seq<i64>, h: int, k: int)
    requires
        0 <= h <= a.len(),
        h <= b.len(),
    ensures
        conv_at(a, b, k) == conv_at(a.subrange(0, h), b.subrange(0, h), k)
            + conv_at(a.subrange(0, h), b.subrange(h, b.len() as int), k - h)
            + conv_at(a.subrange(h, a.len() as int), b.subrange(0, h), k - h)
            + conv_at(a.subrange(h, a.len() as int), b.subrange(h, b.len() as int), k - 2 * h),
{
    let al = a.subrange(0, h);
    let ah = a.subrange(h, a.len() as int);
    let bl = b.subrange(0, h);
    let bh = b.subrange(h, b.len() as int);
    let za = Seq::new(h as nat, |i: int| 0i64) + ah;
    let zb = Seq::new(h as nat, |i: int| 0i64) + bh;
    assert forall|i: int| #[trigger] coef(a, i) == coef(al, i) + coef(za, i) by {
        if 0 <= i < h {
            assert(za[i] == 0);
            assert(al[i] == a[i]);
        } else if h <= i < a.len() {
            assert(za[i] == ah[i - h]);
            assert(ah[i - h] == a[i]);
        }
    }
    assert forall|i: int| #[trigger] coef(b, i) == coef(bl, i) + coef(zb, i) by {
        if 0 <= i < h {
            assert(zb[i] == 0);
            assert(bl[i] == b[i]);
        } else if h <= i < b.len() {
            assert(zb[i] == bh[i - h]);
            assert(bh[i - h] == b[i]);
        }
    }
    assert forall|i: int| #[trigger] coef(za, i) == coef(ah, i - h) by {
        if 0 <= i < h {
            assert(za[i] == 0);
        } else if h <= i < za.len() {
            assert(za[i] == ah[i - h]);
        }
    }
    assert forall|i: int| #[trigger] coef(zb, i) == coef(bh, i - h) by {
        if 0 <= i < h {
            assert(zb[i] == 0);
        } else if h <= i < zb.len() {
            assert(zb[i] == bh[i - h]);
        }
    }
    lemma_conv_add_left(a, al, za, b, k);
    lemma_conv_add_right(al, b, bl, zb, k);
    lemma_conv_shift_right(al, zb, bh, h, k);
    lemma_conv_shift_left(za, ah, h, b, k);
    lemma_conv_add_right(ah, b, bl, zb, k - h);
    lemma_conv_shift_right(ah, zb, bh, h, k - h);
}

/// Wrapped coefficients give a wrapped product.
proof fn lemma_conv_cong_sum(a: Seq<i64>, b: Seq<i64>, fa: spec_fn(int) -> int, fb: spec_fn(int) -> int, k: int, m: int)
    requires
        forall|i: int| 0 <= i < a.len() ==> congruent(#[trigger] a[i] as int, fa(i)),
        forall|i: int| 0 <= i < b.len() ==> congruent(#[trigger] b[i] as int, fb(i)),
        forall|i: int| !(0 <= i < a.len()) ==> #[trigger] fa(i) == 0,
        forall|i: int| !(0 <= i < b.len()) ==> #[trigger] fb(i) == 0,
        0 <= m,
    ensures
        congruent(sum(|i: int| coef(a, i) * coef(b, k - i), 0, m), sum(|i: int| fa(i) * fb(k - i), 0, m)),
    decreases m,
{
    if m == 0 {
        lemma_cong_refl(0);
    } else {
        lemma_conv_cong_sum(a, b, fa, fb, k, m - 1);
        let i = m - 1;
        assert(congruent(coef(a, i), fa(i))) by {
            if !(0 <= i < a.len()) {
                lemma_cong_refl(0);
            }
        }
        assert(congruent(coef(b, k - i), fb(k - i))) by {
            if !(0 <= k - i < b.len()) {
                lemma_cong_refl(0);
            }
        }
        lemma_cong_mul(coef(a, i), coef(b, k - i), fa(i), fb(k - i));
        lemma_cong_add(
            sum(|i: int| coef(a, i) * coef(b, k - i), 0, m - 1),
            coef(a, i) * coef(b, k - i),
            sum(|i: int| fa(i) * fb(k - i), 0, m - 1),
            fa(i) * fb(k - i),
        );
    }
}

/// The product of the wrapped sums agrees with the sum of the four products
/// of the halves.
proof fn lemma_conv_cong(alh: Seq<i64>, blh: Seq<i64>, al: Seq<i64>, ah: Seq<i64>, bl: Seq<i64>, bh: Seq<i64>, j: int)
    requires
        alh.len() == ah.len(),
        blh.len() == bh.len(),
        al.len() <= ah.len(),
        bl.len() <= bh.len(),
        forall|k: int| 0 <= k < alh.len() ==> congruent(#[trigger] alh[k] as int, coef(ah, k) + coef(al, k)),
        forall|k: int| 0 <= k < blh.len() ==> congruent(#[trigger] blh[k] as int, coef(bh, k) + coef(bl, k)),
    ensures
        congruent(conv_at(alh, blh, j), sum(|i: int| (coef(ah, i) + coef(al, i)) * (coef(bh, j - i) + coef(bl, j - i)), 0, j + 1)),
{
    let fa = |i: int| coef(ah, i) + coef(al, i);
    let fb = |i: int| coef(bh, i) + coef(bl, i);
    if j + 1 >= 0 {
        lemma_conv_cong_sum(alh, blh, fa, fb, j, j + 1);
    } else {
        lemma_cong_refl(0);
    }
    let g1 = |i: int| fa(i) * fb(j - i);
    let g2 = |i: int| (coef(ah, i) + coef(al, i)) * (coef(bh, j - i) + coef(bl, j - i));
    assert forall|i: int| 0 <= i < j + 1 implies #[trigger] g1(i) == g2(i) by {}
    lemma_sum_ext(g1, g2, 0, j + 1);
}

/// The sum of the products of sums is the sum of the four products.
proof fn lemma_sum_product_exact(al: Seq<i64>, ah: Seq<i64>, bl: Seq<i64>, bh: Seq<i64>, j: int)
    ensures
        sum(|i: int| (coef(ah, i) + coef(al, i)) * (coef(bh, j - i) + coef(bl, j - i)), 0, j + 1)
            == conv_at(ah, bh, j) + conv_at(ah, bl, j) + conv_at(al, bh, j) + conv_at(al, bl, j),
{
    let g = |i: int| (coef(ah, i) + coef(al, i)) * (coef(bh, j - i) + coef(bl, j - i));
    let f1 = |i: int| coef(ah, i) * coef(bh, j - i);
    let f2 = |i: int| coef(ah, i) * coef(bl, j - i);
    let f3 = |i: int| coef(al, i) * coef(bh, j - i);
    let f4 = |i: int| coef(al, i) * coef(bl, j - i);
    let f12 = |i: int| f1(i) + f2(i);
    let f34 = |i: int| f3(i) + f4(i);
    assert forall|i: int| 0 <= i < j + 1 implies #[trigger] g(i) == f12(i) + f34(i) by {
        let x = coef(ah, i);
        let y = coef(al, i);
        let z = coef(bh, j - i);
        let w = coef(bl, j - i);
        assert((x + y) * (z + w) == x * z + x * w + (y * z + y * w)) by (nonlinear_arith);
    }
    lemma_sum_linear(f12, f34, g, 0, j + 1);
    assert forall|i: int| 0 <= i < j + 1 implies #[trigger] f12(i) == f1(i) + f2(i) by {}
    lemma_sum_linear(f1, f2, f12, 0, j + 1);
    assert forall|i: int| 0 <= i < j + 1 implies #[trigger] f34(i) == f3(i) + f4(i) by {}
    lemma_sum_linear(f3, f4, f34, 0, j + 1);
}


/// The elements `lo..hi` of `a`, in a vector of their own.
fn copy_range(a: &Vec<i64>, lo: usize, hi: usize) -> (r: Vec<i64>)
    requires
        lo <= hi <= a@.len(),
    ensures
        r@ == a@.subrange(lo as int, hi as int),
{
    let mut r: Vec<i64> = Vec::new();
    let mut i = lo;
    while i < hi
        invariant
            lo <= i <= hi,
            hi <= a@.len(),
            r@ == a@.subrange(lo as int, i as int),
        decreases hi - i,
    {
        r.push(a[i]);
        proof {
            assert(r@ =~= a@.subrange(lo as int, i + 1));
        }
        i += 1;
    }
    r
}

/// `len` zeros.
fn zeros(len: usize) -> (r: Vec<i64>)
    ensures
        r@.len() == len,
        forall|i: int| 0 <= i < len ==> #[trigger] r@[i] == 0,
{
    let mut r: Vec<i64> = Vec::new();
    let mut i: usize = 0;
    while i < len
        invariant
            i <= len,
            r@.len() == i,
            forall|k: int| 0 <= k < i ==> #[trigger] r@[k] == 0,
        decreases len - i,
    {
        r.push(0);
        i += 1;
    }
    r
}

/// The product of two sequences of one length, term by term.
fn mul_naive(a: &Vec<i64>, b: &Vec<i64>) -> (r: Vec<i64>)
    requires
        a@.len() == b@.len(),
        1 <= a@.len() <= usize::MAX / 2,
    ensures
        r@.len() == 2 * a@.len() - 1,
        forall|k: int| 0 <= k < r@.len() ==> congruent(#[trigger] r@[k] as int, conv_at(a@, b@, k)),
{
    let n = a.len();
    let mut res = zeros(n + n - 1);
    let mut i: usize = 0;
    while i < n
        invariant
            n == a@.len(),
            n == b@.len(),
            1 <= n <= usize::MAX / 2,
            i <= n,
            res@.len() == 2 * n - 1,
            forall|k: int| 0 <= k < res@.len() ==> congruent(#[trigger] res@[k] as int, sum(|t: int| coef(a@, t) * coef(b@, k - t), 0, i as int)),
        decreases n - i,
    {
        let mut j: usize = 0;
        while j < n
            invariant
                n == a@.len(),
                n == b@.len(),
                1 <= n <= usize::MAX / 2,
                i < n,
                j <= n,
                res@.len() == 2 * n - 1,
                forall|k: int| 0 <= k < res@.len() ==> congruent(#[trigger] res@[k] as int,
                    sum(|t: int| coef(a@, t) * coef(b@, k - t), 0, i as int) + if i <= k < i + j { coef(a@, i as int) * coef(b@, k - i) } else { 0 }),
            decreases n - j,
        {
            let p = mul_wrap(a[i], b[j]);
            let old = res[i + j];
            let nv = add_wrap(old, p);
            let ghost before = res@;
            res.set(i + j, nv);
            proof {
                let k0 = (i + j) as int;
                let s0 = sum(|t: int| coef(a@, t) * coef(b@, k0 - t), 0, i as int);
                assert(congruent(old as int, s0));
                lemma_cong_refl(p as int);
                lemma_cong_add(old as int, p as int, s0, p as int);
                lemma_cong_trans(nv as int, old + p, s0 + p);
                lemma_cong_refl(s0);
                lemma_cong_add(s0, p as int, s0, a@[i as int] * b@[j as int]);
                lemma_cong_trans(nv as int, s0 + p, s0 + a@[i as int] * b@[j as int]);
                assert(coef(a@, i as int) * coef(b@, k0 - i) == a@[i as int] * b@[j as int]);
                assert forall|k: int| 0 <= k < res@.len() implies congruent(#[trigger] res@[k] as int,
                    sum(|t: int| coef(a@, t) * coef(b@, k - t), 0, i as int) + if i <= k < i + j + 1 { coef(a@, i as int) * coef(b@, k - i) } else { 0 }) by {
                    if k != k0 {
                        assert(res@[k] == before[k]);
                    }
                }
            }
            j += 1;
        }
        proof {
            assert forall|k: int| 0 <= k < res@.len() implies congruent(#[trigger] res@[k] as int, sum(|t: int| coef(a@, t) * coef(b@, k - t), 0, i + 1)) by {
                let s0 = sum(|t: int| coef(a@, t) * coef(b@, k - t), 0, i as int);
                assert(sum(|t: int| coef(a@, t) * coef(b@, k - t), 0, i + 1) == s0 + coef(a@, i as int) * coef(b@, k - i));
                if !(i <= k < i + n) {
                    assert(coef(b@, k - i) == 0);
                    assert(coef(a@, i as int) * coef(b@, k - i) == 0);
                }
            }
        }
        i += 1;
    }
    proof {
        assert forall|k: int| 0 <= k < res@.len() implies congruent(#[trigger] res@[k] as int, conv_at(a@, b@, k)) by {
            lemma_conv_rows(a@, b@, k);
        }
    }
    res
}

/// Sequences of this length or shorter are multiplied term by term.
pub const NAIVE_THRESHOLD: usize = 32;

/// The product of two sequences of one length: split each in a lower and
/// an upper half, and multiply three pairs of halves instead of four.
fn mul(a: &Vec<i64>, b: &Vec<i64>) -> (r: Vec<i64>)
    requires
        a@.len() == b@.len(),
        1 <= a@.len() <= usize::MAX / 2,
    ensures
        r@.len() == 2 * a@.len() - 1,
        forall|k: int| 0 <= k < r@.len() ==> congruent(#[trigger] r@[k] as int, conv_at(a@, b@, k)),
    decreases a@.len(),
{
    let n = a.len();
    if n <= NAIVE_THRESHOLD {
        return mul_naive(a, b);
    }
    let nl = n / 2;
    let nh = n - nl;
    let al = copy_range(a, 0, nl);
    let ah = copy_range(a, nl, n);
    let bl = copy_range(b, 0, nl);
    let bh = copy_range(b, nl, n);
    let t = self::mul(&al, &bl);
    let u = self::mul(&ah, &bh);
    let mut alh = copy_range(&ah, 0, nh);
    let mut blh = copy_range(&bh, 0, nh);
    let mut i: usize = 0;
    while i < nl
        invariant
            nl <= nh <= nl + 1,
            al@.len() == nl,
            bl@.len() == nl,
            ah@.len() == nh,
            bh@.len() == nh,
            alh@.len() == nh,
            blh@.len() == nh,
            i <= nl,
            forall|k: int| 0 <= k < nh ==> congruent(#[trigger] alh@[k] as int, coef(ah@, k) + if k < i { coef(al@, k) } else { 0 }),
            forall|k: int| 0 <= k < nh ==> congruent(#[trigger] blh@[k] as int, coef(bh@, k) + if k < i { coef(bl@, k) } else { 0 }),
        decreases nl - i,
    {
        let x = add_wrap(alh[i], al[i]);
        let y = add_wrap(blh[i], bl[i]);
        let ghost a0 = alh@;
        let ghost b0 = blh@;
        alh.set(i, x);
        blh.set(i, y);
        proof {
            assert forall|k: int| 0 <= k < nh implies congruent(#[trigger] alh@[k] as int, coef(ah@, k) + if k < i + 1 { coef(al@, k) } else { 0 }) by {
                if k == i {
                    lemma_cong_refl(al@[k] as int);
                    lemma_cong_add(a0[k] as int, al@[k] as int, coef(ah@, k), al@[k] as int);
                    lemma_cong_trans(x as int, a0[k] + al@[k], coef(ah@, k) + al@[k]);
                } else {
                    assert(alh@[k] == a0[k]);
                }
            }
            assert forall|k: int| 0 <= k < nh implies congruent(#[trigger] blh@[k] as int, coef(bh@, k) + if k < i + 1 { coef(bl@, k) } else { 0 }) by {
                if k == i {
                    lemma_cong_refl(bl@[k] as int);
                    lemma_cong_add(b0[k] as int, bl@[k] as int, coef(bh@, k), bl@[k] as int);
                    lemma_cong_trans(y as int, b0[k] + bl@[k], coef(bh@, k) + bl@[k]);
                } else {
                    assert(blh@[k] == b0[k]);
                }
            }
        }
        i += 1;
    }
    // the exact sums, of which `alh` and `blh` are the wrapped values
    let ghost sa = Seq::new(nh as nat, |k: int| coef(ah@, k) + coef(al@, k));
    let ghost sb = Seq::new(nh as nat, |k: int| coef(bh@, k) + coef(bl@, k));
    let v0 = self::mul(&alh, &blh);
    let ghost ct = |j: int| conv_at(al@, bl@, j);
    let ghost cu = |j: int| conv_at(ah@, bh@, j);
    let ghost cm = |j: int| conv_at(al@, bh@, j) + conv_at(ah@, bl@, j);
    proof {
        assert forall|j: int| 0 <= j < v0@.len() implies congruent(#[trigger] v0@[j] as int, ct(j) + cu(j) + cm(j)) by {
            // the product of the wrapped sums agrees with that of the sums
            lemma_conv_cong(alh@, blh@, al@, ah@, bl@, bh@, j);
            lemma_sum_product_exact(al@, ah@, bl@, bh@, j);
        }
    }
    let mut v = v0;
    let lt = t.len();
    let lu = u.len();
    i = 0;
    while i < lt
        invariant
            lt == t@.len(),
            lt == 2 * nl - 1,
            v@.len() == 2 * nh - 1,
            lu == u@.len(),
            lu == 2 * nh - 1,
            nl <= nh <= nl + 1,
            i <= lt,
            forall|j: int| 0 <= j < t@.len() ==> congruent(#[trigger] t@[j] as int, ct(j)),
            forall|j: int| 0 <= j < v@.len() ==> congruent(#[trigger] v@[j] as int, ct(j) + cu(j) + cm(j) - if j < i { ct(j) } else { 0 }),
        decreases lt - i,
    {
        let x = sub_wrap(v[i], t[i]);
        let ghost v1 = v@;
        v.set(i, x);
        proof {
            assert forall|j: int| 0 <= j < v@.len() implies congruent(#[trigger] v@[j] as int, ct(j) + cu(j) + cm(j) - if j < i + 1 { ct(j) } else { 0 }) by {
                if j == i {
                    lemma_cong_add(v1[j] as int, t@[j] as int, ct(j) + cu(j) + cm(j), ct(j));
                    lemma_cong_trans(x as int, v1[j] - t@[j], ct(j) + cu(j) + cm(j) - ct(j));
                } else {
                    assert(v@[j] == v1[j]);
                }
            }
        }
        i += 1;
    }
    i = 0;
    while i < lu
        invariant
            lt == 2 * nl - 1,
            v@.len() == 2 * nh - 1,
            lu == u@.len(),
            lu == 2 * nh - 1,
            nl <= nh <= nl + 1,
            i <= lu,
            forall|j: int| 0 <= j < u@.len() ==> congruent(#[trigger] u@[j] as int, cu(j)),
            forall|j: int| 0 <= j < v@.len() ==> congruent(#[trigger] v@[j] as int, ct(j) + cu(j) + cm(j) - (if j < lt { ct(j) } else { 0 }) - if j < i { cu(j) } else { 0 }),
        decreases lu - i,
    {
        let x = sub_wrap(v[i], u[i]);
        let ghost v1 = v@;
        v.set(i, x);
        proof {
            assert forall|j: int| 0 <= j < v@.len() implies congruent(#[trigger] v@[j] as int, ct(j) + cu(j) + cm(j) - (if j < lt { ct(j) } else { 0 }) - if j < i + 1 { cu(j) } else { 0 }) by {
                if j == i {
                    let e = ct(j) + cu(j) + cm(j) - (if j < lt { ct(j) } else { 0 });
                    lemma_cong_add(v1[j] as int, u@[j] as int, e, cu(j));
                    lemma_cong_trans(x as int, v1[j] - u@[j], e - cu(j));
                } else {
                    assert(v@[j] == v1[j]);
                }
            }
        }
        i += 1;
    }
    proof {
        assert forall|j: int| 0 <= j < v@.len() implies congruent(#[trigger] v@[j] as int, cm(j)) by {
            if j >= lt {
                lemma_conv_outside(al@, bl@, j);
            }
            assert(ct(j) + cu(j) + cm(j) - (if j < lt { ct(j) } else { 0 }) - cu(j) == cm(j));
        }
    }
    let mut res = zeros(n + n - 1);
    i = 0;
    while i < lt
        invariant
            lt == t@.len(),
            lt == 2 * nl - 1,
            res@.len() == 2 * n - 1,
            n == nl + nh,
            i <= lt,
            forall|j: int| 0 <= j < t@.len() ==> congruent(#[trigger] t@[j] as int, ct(j)),
            forall|k: int| 0 <= k < res@.len() ==> congruent(#[trigger] res@[k] as int, if k < i { ct(k) } else { 0 }),
        decreases lt - i,
    {
        let x = add_wrap(res[i], t[i]);
        let ghost r1 = res@;
        res.set(i, x);
        proof {
            assert forall|k: int| 0 <= k < res@.len() implies congruent(#[trigger] res@[k] as int, if k < i + 1 { ct(k) } else { 0 }) by {
                if k == i {
                    lemma_cong_add(r1[k] as int, t@[k] as int, 0, ct(k));
                    lemma_cong_trans(x as int, r1[k] + t@[k], ct(k));
                } else {
                    assert(res@[k] == r1[k]);
                }
            }
        }
        i += 1;
    }
    proof {
        assert forall|k: int| 0 <= k < res@.len() implies congruent(#[trigger] res@[k] as int, ct(k)) by {
            if k >= lt {
                lemma_conv_outside(al@, bl@, k);
            }
        }
    }
    i = 0;
    while i < lu
        invariant
            lu == u@.len(),
            lu == 2 * nh - 1,
            res@.len() == 2 * n - 1,
            n == nl + nh,
            nl <= nh,
            n <= usize::MAX / 2,
            i <= lu,
            forall|j: int| 0 <= j < u@.len() ==> congruent(#[trigger] u@[j] as int, cu(j)),
            forall|k: int| 0 <= k < res@.len() ==> congruent(#[trigger] res@[k] as int, ct(k) + if 2 * nl <= k < 2 * nl + i { cu(k - 2 * nl) } else { 0 }),
        decreases lu - i,
    {
        let x = add_wrap(res[2 * nl + i], u[i]);
        let ghost r1 = res@;
        res.set(2 * nl + i, x);
        proof {
            assert forall|k: int| 0 <= k < res@.len() implies congruent(#[trigger] res@[k] as int, ct(k) + if 2 * nl <= k < 2 * nl + i + 1 { cu(k - 2 * nl) } else { 0 }) by {
                if k == 2 * nl + i {
                    lemma_cong_add(r1[k] as int, u@[i as int] as int, ct(k), cu(k - 2 * nl));
                    lemma_cong_trans(x as int, r1[k] + u@[i as int], ct(k) + cu(k - 2 * nl));
                } else {
                    assert(res@[k] == r1[k]);
                }
            }
        }
        i += 1;
    }
    if nl != nh {
        v.pop();
    }
    let lv = v.len();
    proof {
        assert forall|k: int| 0 <= k < res@.len() implies congruent(#[trigger] res@[k] as int, ct(k) + cu(k - 2 * nl)) by {
            if k < 2 * nl {
                lemma_conv_outside(ah@, bh@, k - 2 * nl);
            }
        }
    }
    i = 0;
    while i < lv
        invariant
            lv == v@.len(),
            lv <= 2 * nh - 1,
            nl + lv <= 2 * n - 1,
            res@.len() == 2 * n - 1,
            n == nl + nh,
            n <= usize::MAX / 2,
            i <= lv,
            forall|j: int| 0 <= j < v@.len() ==> congruent(#[trigger] v@[j] as int, cm(j)),
            forall|k: int| 0 <= k < res@.len() ==> congruent(#[trigger] res@[k] as int, ct(k) + cu(k - 2 * nl) + if nl <= k < nl + i { cm(k - nl) } else { 0 }),
        decreases lv - i,
    {
        let x = add_wrap(res[nl + i], v[i]);
        let ghost r1 = res@;
        res.set(nl + i, x);
        proof {
            assert forall|k: int| 0 <= k < res@.len() implies congruent(#[trigger] res@[k] as int, ct(k) + cu(k - 2 * nl) + if nl <= k < nl + i + 1 { cm(k - nl) } else { 0 }) by {
                if k == nl + i {
                    lemma_cong_add(r1[k] as int, v@[i as int] as int, ct(k) + cu(k - 2 * nl), cm(k - nl));
                    lemma_cong_trans(x as int, r1[k] + v@[i as int], ct(k) + cu(k - 2 * nl) + cm(k - nl));
                } else {
                    assert(res@[k] == r1[k]);
                }
            }
        }
        i += 1;
    }
    proof {
        assert(al@ == a@.subrange(0, nl as int));
        assert(ah@ == a@.subrange(nl as int, n as int));
        assert(bl@ == b@.subrange(0, nl as int));
        assert(bh@ == b@.subrange(nl as int, n as int));
        assert forall|k: int| 0 <= k < res@.len() implies congruent(#[trigger] res@[k] as int, conv_at(a@, b@, k)) by {
            lemma_split_product(a@, b@, nl as int, k);
            if !(nl <= k < nl + lv) {
                let j = k - nl;
                if j >= 0 {
                    // only the term dropped from an odd split, or none, is left out
                    lemma_conv_outside(al@, bh@, j);
                    lemma_conv_outside(ah@, bl@, j);
                } else {
                    lemma_conv_outside(al@, bh@, j);
                    lemma_conv_outside(ah@, bl@, j);
                }
            }
        }
    }
    res
}

/// `a` followed by zeros, to length `len`.
fn pad(a: &[i64], len: usize) -> (r: Vec<i64>)
    requires
        a@.len() <= len,
    ensures
        r@.len() == len,
        forall|i: int| #[trigger] coef(r@, i) == coef(a@, i),
{
    let mut r: Vec<i64> = Vec::new();
    let mut i: usize = 0;
    while i < len
        invariant
            a@.len() <= len,
            i <= len,
            r@.len() == i,
            forall|k: int| 0 <= k < i ==> #[trigger] r@[k] == if k < a@.len() { a@[k] } else { 0 },
        decreases len - i,
    {
        if i < a.len() {
            r.push(a[i]);
        } else {
            r.push(0);
        }
        i += 1;
    }
    r
}

/// The product of the polynomials with coefficients `a` and `b`:
/// coefficient `k` is the sum of `a[i] * b[k - i]`, wrapped to 64 bits, and
/// that sum itself wherever it fits.
pub fn multiply(a: &[i64], b: &[i64]) -> (r: Vec<i64>)
    requires
        a@.len() + b@.len() >= 1,
        a@.len() <= usize::MAX / 2,
        b@.len() <= usize::MAX / 2,
    ensures
        r@.len() == a@.len() + b@.len() - 1,
        forall|k: int| 0 <= k < r@.len() ==> #[trigger] r@[k] == wrap(conv_at(a@, b@, k)),
        forall|k: int| 0 <= k < r@.len() && i64::MIN <= conv_at(a@, b@, k) <= i64::MAX ==> #[trigger] r@[k] == conv_at(a@, b@, k),
{
    let n = a.len();
    let m = b.len();
    let nm = if n < m { m } else { n };
    let pa = pad(a, nm);
    let pb = pad(b, nm);
    let ab = self::mul(&pa, &pb);
    let len = n + m - 1;
    let mut r: Vec<i64> = Vec::new();
    let mut i: usize = 0;
    while i < len
        invariant
            len == n + m - 1,
            n == a@.len(),
            m == b@.len(),
            len <= ab@.len(),
            forall|k: int| 0 <= k < ab@.len() ==> congruent(#[trigger] ab@[k] as int, conv_at(pa@, pb@, k)),
            forall|i: int| #[trigger] coef(pa@, i) == coef(a@, i),
            forall|i: int| #[trigger] coef(pb@, i) == coef(b@, i),
            i <= len,
            r@.len() == i,
            forall|k: int| 0 <= k < i ==> #[trigger] r@[k] == wrap(conv_at(a@, b@, k)),
            forall|k: int| 0 <= k < i && i64::MIN <= conv_at(a@, b@, k) <= i64::MAX ==> #[trigger] r@[k] == conv_at(a@, b@, k),
        decreases len - i,
    {
        proof {
            lemma_conv_same(pa@, a@, pb@, b@, i as int);
            lemma_wrap(ab@[i as int], conv_at(a@, b@, i as int));
        }
        r.push(ab[i]);
        i += 1;
    }
    r
}

} // verus!
