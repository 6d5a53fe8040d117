//! A rank/select dictionary over a sequence of bits: how many `0`s or `1`s
//! lie in a prefix, and where the `n`-th of them stands.
use vstd::prelude::*;

use crate::bit_set::bit;
use crate::counting::{count_of, lemma_count_bound, lemma_count_same, lemma_count_split};

verus! {

/// The bits packed in one word.
pub const WORD_SIZE: usize = 64;

/// `b` is the bit value that `x` stands for: `0` for `x == 0`, `1` for any
/// other `x`.
pub open spec fn is_x(b: bool, x: u64) -> bool {
    if x == 0 {
        !b
    } else {
        b
    }
}

/// The number of positions in `lo..hi` of `bits` that hold `x`.
pub open spec fn count_x(bits: Seq<bool>, x: u64, lo: int, hi: int) -> nat {
    count_of(|i: int| is_x(bits[i], x), lo, hi)
}

/// The number of bits of `w` below `t` that hold `x`.
pub open spec fn word_count(w: u64, x: u64, t: int) -> nat {
    count_of(|j: int| is_x(bit(w, j), x), 0, t)
}

/// Position `p` holds the `k`-th `x` (counting from `0`).
pub open spec fn is_occ(bits: Seq<bool>, x: u64, p: int, k: int) -> bool {
    &&& 0 <= p < bits.len()
    &&& is_x(bits[p], x)
    &&& count_x(bits, x, 0, p) == k
}

/// `p == 64 * q + j` with `j < 64` splits `p` into word and bit.
proof fn lemma_split(p: int, q: int, j: int)
    requires
        0 <= j < 64,
        p == 64 * q + j,
    ensures
        p / 64 == q,
        p % 64 == j,
{
    vstd::arithmetic::div_mod::lemma_fundamental_div_mod_converse(p, 64, q, j);
}

/// Counting over a shifted range.
proof fn lemma_count_shift(f: spec_fn(int) -> bool, g: spec_fn(int) -> bool, d: int, lo: int, hi: int)
    requires
        forall|j: int| lo <= j < hi ==> #[trigger] g(j) == f(j + d),
    ensures
        count_of(g, lo, hi) == count_of(f, lo + d, hi + d),
    decreases hi - lo,
{
    if hi > lo {
        lemma_count_shift(f, g, d, lo, hi - 1);
    }
}

/// Counting can only grow with the range.
proof fn lemma_count_mono(f: spec_fn(int) -> bool, lo: int, a: int, b: int)
    requires
        lo <= a <= b,
    ensures
        count_of(f, lo, a) <= count_of(f, lo, b),
{
    lemma_count_split(f, lo, a, b);
}

/// The `0`s and the `1`s of a range make up the whole range.
proof fn lemma_count_both(bits: spec_fn(int) -> bool, lo: int, hi: int)
    requires
        lo <= hi,
    ensures
        count_of(|i: int| !bits(i), lo, hi) + count_of(bits, lo, hi) == hi - lo,
    decreases hi - lo,
{
    if hi > lo {
        lemma_count_both(bits, lo, hi - 1);
    }
}

/// Bit `j` of `!w` is the opposite of bit `j` of `w`.
proof fn lemma_bit_not(w: u64, j: u64)
    by (bit_vector)
    requires
        j < 64,
    ensures
        ((!w) >> j) & 1u64 == 1u64 <==> !((w >> j) & 1u64 == 1u64),
{
}

/// Setting bit `s` of `w`.
proof fn lemma_bit_set(w: u64, s: u64, j: u64)
    by (bit_vector)
    requires
        s < 64,
        j < 64,
    ensures
        ((w | (1u64 << s)) >> j) & 1u64 == 1u64 <==> ((w >> j) & 1u64 == 1u64 || j == s),
{
}

/// Bits of a shifted word.
proof fn lemma_bit_shift(w: u64, s: u64, j: u64)
    by (bit_vector)
    requires
        j + s < 64,
    ensures
        ((w >> s) >> j) & 1u64 == (w >> ((j + s) as u64)) & 1u64,
{
}

/// No bit of `0` is set.
proof fn lemma_bit_zero(j: u64)
    by (bit_vector)
    ensures
        (0u64 >> j) & 1u64 != 1u64,
{
}

/// The number of set bits of `w`: std's `u64::count_ones`, documented to
/// return the number of ones in the binary representation of `w`; the
/// contract states that number, bit by bit, unproved.
#[verifier::external_body]
fn count_ones(w: u64) -> (c: u32)
    ensures
        c == word_count(w, 1, 64),
{
    w.count_ones()
}

/// Bits of `w` kept by the mask of the `t` lowest bits.
proof fn lemma_bit_mask(w: u64, t: u64, j: u64)
    by (bit_vector)
    requires
        t < 64,
        j < 64,
    ensures
        (((w & !(!0u64 << t)) >> j) & 1u64 == 1u64) == (j < t && (w >> j) & 1u64 == 1u64),
{
}

/// The number of bits of `w` below `t` that hold `x`.
fn count_low(w: u64, x: u64, t: u64) -> (c: u64)
    requires
        t <= 64,
    ensures
        c == word_count(w, x, t as int),
        c <= t,
{
    let ghost f = |j: int| is_x(bit(w, j), 1);
    let ones: u64 = if t == 64 {
        count_ones(w) as u64
    } else {
        let masked = w & !(!0u64 << t);
        proof {
            let g = |j: int| is_x(bit(masked, j), 1);
            assert forall|j: int| 0 <= j < 64 implies #[trigger] g(j) == (j < t && f(j)) by {
                lemma_bit_mask(w, t, j as u64);
            }
            lemma_count_split(g, 0, t as int, 64);
            lemma_count_same(f, g, 0, t as int);
            lemma_count_same(|j: int| false, g, t as int, 64);
            crate::counting::lemma_count_zero(t as int, 64);
        }
        count_ones(masked) as u64
    };
    proof {
        lemma_count_bound(f, 0, t as int);
        lemma_count_both(f, 0, t as int);
        lemma_count_same(|i: int| !f(i), |j: int| is_x(bit(w, j), 0), 0, t as int);
        if x != 0 {
            lemma_count_same(f, |j: int| is_x(bit(w, j), x), 0, t as int);
        }
    }
    if x == 0 {
        t - ones
    } else {
        ones
    }
}

/// Bit `j` of the word that has a `1` wherever `word` holds `x`.
proof fn lemma_flip_bit(word: u64, x: u64, j: int)
    requires
        0 <= j < 64,
    ensures
        bit(if x == 0 { !word } else { word }, j) == is_x(bit(word, j), x),
{
    if x == 0 {
        lemma_bit_not(word, j as u64);
    }
}

/// The position of the `n`-th bit (counting from `0`) of `word` that holds
/// `x`, found by halving the window six times.
pub fn find_nth_small(word: u64, x: u64, n: usize) -> (r: usize)
    requires
        n < word_count(word, x, 64),
    ensures
        r < 64,
        is_x(bit(word, r as int), x),
        word_count(word, x, r as int) == n,
{
    let ghost f = |p: int| is_x(bit(word, p), x);
    let w0: u64 = if x == 0 { !word } else { word };
    let ghost n0 = n as int;
    proof {
        lemma_count_bound(f, 0, 64);
        assert forall|j: int| 0 <= j < 64 implies bit(w0, j) == #[trigger] f(j) by {
            lemma_flip_bit(word, x, j);
        }
    }
    let mut w: u64 = w0;
    let mut k: u64 = n as u64;
    let mut res: u64 = 0;
    let mut mid: u64 = 32;
    let ghost mut win: int = 64;
    while mid > 0
        invariant
            mid == 32 || mid == 16 || mid == 8 || mid == 4 || mid == 2 || mid == 1 || mid == 0,
            mid > 0 ==> win == 2 * mid,
            mid == 0 ==> win == 1,
            res + win <= 64,
            count_of(f, 0, res as int) <= n0 < count_of(f, 0, res + win),
            k == n0 - count_of(f, 0, res as int),
            forall|j: int| 0 <= j < 64 - res ==> bit(w, j) == bit(w0, j + res),
            forall|j: int| 0 <= j < 64 ==> bit(w0, j) == #[trigger] f(j),
        decreases mid,
    {
        let c = count_low(w, 1, mid);
        proof {
            let g = |j: int| is_x(bit(w, j), 1);
            assert forall|j: int| 0 <= j < mid implies #[trigger] g(j) == f(j + res) by {
                assert(bit(w, j) == bit(w0, j + res));
            }
            lemma_count_shift(f, g, res as int, 0, mid as int);
            lemma_count_split(f, 0, res as int, (res + mid) as int);
        }
        if c <= k {
            k -= c;
            proof {
                assert forall|j: int| 0 <= j < 64 - (res + mid) implies bit(w >> mid, j) == bit(w0, j + res + mid) by {
                    lemma_bit_shift(w, mid, j as u64);
                    assert(bit(w, j + mid) == bit(w0, j + mid + res));
                }
            }
            w = w >> mid;
            res += mid;
        }
        proof {
            win = mid as int;
        }
        mid = mid / 2;
    }
    proof {
        reveal_with_fuel(count_of, 2);
    }
    res as usize
}

/// Bit `p` of a sequence of words, word by word from the lowest bit.
spec fn wbit(buf: Seq<u64>, p: int) -> bool {
    bit(buf[p / 64], p % 64)
}

/// The number of positions in `lo..hi` whose bit in `buf` holds `x`.
spec fn wcount(buf: Seq<u64>, x: u64, lo: int, hi: int) -> nat {
    count_of(|p: int| is_x(wbit(buf, p), x), lo, hi)
}

/// The first `n` bits of `buf`.
spec fn bits_of(buf: Seq<u64>, n: int) -> Seq<bool> {
    Seq::new(n as nat, |p: int| wbit(buf, p))
}

/// A shifted bit is a bit of the word: `(w >> s) & 1` is `0` or `1`.
proof fn lemma_low_bit(w: u64, s: u64)
    by (bit_vector)
    ensures
        (w >> s) & 1u64 == 0u64 || (w >> s) & 1u64 == 1u64,
{
}

/// Counting `x` over the bits of `buf` agrees with counting `x` over its
/// first `n` bits, within them.
proof fn lemma_wcount_bits(buf: Seq<u64>, n: int, x: u64, lo: int, hi: int)
    requires
        0 <= lo <= hi <= n,
    ensures
        wcount(buf, x, lo, hi) == count_x(bits_of(buf, n), x, lo, hi),
{
    let bits = bits_of(buf, n);
    lemma_count_same(|p: int| is_x(wbit(buf, p), x), |i: int| is_x(bits[i], x), lo, hi);
}

/// Counting any `x` other than `0` is counting `1`.
proof fn lemma_count_one(bits: Seq<bool>, x: u64, lo: int, hi: int)
    requires
        x != 0,
    ensures
        count_x(bits, x, lo, hi) == count_x(bits, 1, lo, hi),
{
    lemma_count_same(|i: int| is_x(bits[i], 1), |i: int| is_x(bits[i], x), lo, hi);
}

/// Counting `0` is counting what is not `1`.
proof fn lemma_count_zero_one(bits: Seq<bool>, lo: int, hi: int)
    requires
        lo <= hi,
    ensures
        count_x(bits, 0, lo, hi) + count_x(bits, 1, lo, hi) == hi - lo,
{
    let one = |i: int| bits[i];
    lemma_count_both(one, lo, hi);
    lemma_count_same(|i: int| !one(i), |i: int| is_x(bits[i], 0), lo, hi);
    lemma_count_same(one, |i: int| is_x(bits[i], 1), lo, hi);
}

/// The same for the bits of words.
proof fn lemma_wcount_zero_one(buf: Seq<u64>, lo: int, hi: int)
    requires
        lo <= hi,
    ensures
        wcount(buf, 0, lo, hi) + wcount(buf, 1, lo, hi) == hi - lo,
{
    let one = |p: int| wbit(buf, p);
    lemma_count_both(one, lo, hi);
    lemma_count_same(|p: int| !one(p), |p: int| is_x(wbit(buf, p), 0), lo, hi);
    lemma_count_same(one, |p: int| is_x(wbit(buf, p), 1), lo, hi);
}

/// The bits of word `q` are the positions `64 * q..64 * q + 64`.
proof fn lemma_word_bits(buf: Seq<u64>, x: u64, q: int, t: int)
    requires
        0 <= q,
        0 <= t <= 64,
    ensures
        word_count(buf[q], x, t) == wcount(buf, x, 64 * q, 64 * q + t),
{
    let f = |p: int| is_x(wbit(buf, p), x);
    let g = |j: int| is_x(bit(buf[q], j), x);
    assert forall|j: int| 0 <= j < t implies #[trigger] g(j) == f(j + 64 * q) by {
        lemma_split(j + 64 * q, q, j);
    }
    lemma_count_shift(f, g, 64 * q, 0, t);
}

/// Packs bits into words, with one word of room past the last bit.
fn compress(buf: &Vec<bool>) -> (res: Vec<u64>)
    requires
        buf@.len() + 128 <= usize::MAX,
    ensures
        buf@.len() == 0 ==> res@.len() == 0,
        buf@.len() > 0 ==> res@.len() == (buf@.len() - 1) / 64 + 2,
        forall|p: int| 0 <= p < 64 * res@.len() ==> #[trigger] wbit(res@, p) == (p < buf@.len() && buf@[p]),
{
    let n = buf.len();
    if n == 0 {
        return Vec::new();
    }
    let nc = 1 + (n - 1) / WORD_SIZE;
    let mut res: Vec<u64> = Vec::new();
    let mut k: usize = 0;
    while k < nc + 1
        invariant
            1 <= n,
            n + 128 <= usize::MAX,
            nc == 1 + (n - 1) / 64,
            k <= nc + 1,
            res@.len() == k,
            forall|q: int| 0 <= q < k ==> res@[q] == 0u64,
        decreases nc + 1 - k,
    {
        res.push(0);
        k += 1;
    }
    proof {
        assert forall|p: int| 0 <= p < 64 * res@.len() implies #[trigger] wbit(res@, p) == (p < 0 && buf@[p]) by {
            lemma_bit_zero((p % 64) as u64);
        }
    }
    let mut i: usize = 0;
    while i < n
        invariant
            n == buf@.len(),
            n + 128 <= usize::MAX,
            nc == 1 + (n - 1) / 64,
            res@.len() == nc + 1,
            i <= n,
            forall|p: int| 0 <= p < 64 * res@.len() ==> #[trigger] wbit(res@, p) == (p < i && buf@[p]),
        decreases n - i,
    {
        if buf[i] {
            let q = i / WORD_SIZE;
            let s = (i % WORD_SIZE) as u64;
            let ghost old_res = res@;
            let nw = res[q] | (1u64 << s);
            res.set(q, nw);
            proof {
                assert forall|p: int| 0 <= p < 64 * res@.len() implies #[trigger] wbit(res@, p) == (p < i + 1 && buf@[p]) by {
                    assert(wbit(old_res, p) == (p < i && buf@[p]));
                    if p / 64 == q {
                        lemma_bit_set(old_res[q as int], s, (p % 64) as u64);
                    }
                }
            }
        } else {
            proof {
                assert forall|p: int| 0 <= p < 64 * res@.len() implies #[trigger] wbit(res@, p) == (p < i + 1 && buf@[p]) by {
                    assert(wbit(res@, p) == (p < i && buf@[p]));
                }
            }
        }
        i += 1;
    }
    res
}

/// The number of `1`s before each word.
fn preprocess_rank(buf: &Vec<u64>) -> (res: Vec<usize>)
    requires
        64 * buf@.len() <= usize::MAX,
    ensures
        res@.len() == buf@.len(),
        forall|i: int| 0 <= i < res@.len() ==> #[trigger] res@[i] == wcount(buf@, 1, 0, 64 * i),
{
    let n = buf.len();
    let mut res: Vec<usize> = Vec::new();
    if n == 0 {
        return res;
    }
    res.push(0);
    let mut i: usize = 1;
    while i < n
        invariant
            n == buf@.len(),
            64 * n <= usize::MAX,
            1 <= i <= n,
            res@.len() == i,
            forall|k: int| 0 <= k < i ==> #[trigger] res@[k] == wcount(buf@, 1, 0, 64 * k),
        decreases n - i,
    {
        let c = count_low(buf[i - 1], 1, 64);
        proof {
            let f = |p: int| is_x(wbit(buf@, p), 1);
            lemma_word_bits(buf@, 1, i - 1, 64);
            lemma_count_split(f, 0, 64 * (i - 1), 64 * i);
            lemma_count_bound(f, 0, 64 * i);
        }
        let r = res[i - 1] + c as usize;
        res.push(r);
        i += 1;
    }
    res
}

/// Where the occurrences `64 * k..64 * k + 64` of a bit value stand: one by
/// one where they are spread out, or as a range of positions to search
/// where they are close together.
#[derive(Clone, Debug)]
enum SelectPreprocess {
    Sparse(Vec<usize>),
    Dense(usize, usize),
}

/// Block `k` of the occurrences of `x`, a full one, is described by `b`:
/// its positions one by one, or a range that starts at or before the first
/// of them and ends at the first of the next block.
spec fn block_full(bits: Seq<bool>, x: u64, k: int, b: SelectPreprocess) -> bool {
    match b {
        SelectPreprocess::Sparse(dir) => {
            &&& dir@.len() == 64
            &&& forall|j: int| 0 <= j < 64 ==> is_occ(bits, x, #[trigger] dir@[j] as int, 64 * k + j)
        },
        SelectPreprocess::Dense(a, e) => {
            &&& a <= e
            &&& count_x(bits, x, 0, a as int) <= 64 * k
            &&& is_occ(bits, x, e as int, 64 * (k + 1))
        },
    }
}

/// The last block `k` of the occurrences of `x`: all the occurrences from
/// `64 * k` on, one by one.
spec fn block_last(bits: Seq<bool>, x: u64, k: int, b: SelectPreprocess) -> bool {
    match b {
        SelectPreprocess::Sparse(dir) => {
            &&& dir@.len() == count_x(bits, x, 0, bits.len() as int) - 64 * k
            &&& forall|j: int| 0 <= j < dir@.len() ==> is_occ(bits, x, #[trigger] dir@[j] as int, 64 * k + j)
        },
        SelectPreprocess::Dense(a, e) => false,
    }
}

/// `sel` describes every occurrence of `x`, block by block.
spec fn sel_ok(bits: Seq<bool>, x: u64, sel: Seq<SelectPreprocess>) -> bool {
    &&& sel.len() == (count_x(bits, x, 0, bits.len() as int) + 63) / 64
    &&& forall|k: int| 0 <= k < sel.len() - 1 ==> block_full(bits, x, k, #[trigger] sel[k])
    &&& sel.len() > 0 ==> block_last(bits, x, sel.len() - 1, sel[sel.len() - 1])
}

/// Counting one more position.
proof fn lemma_count_next(bits: Seq<bool>, x: u64, i: int)
    requires
        0 <= i,
    ensures
        count_x(bits, x, 0, i + 1) == count_x(bits, x, 0, i) + if is_x(bits[i], x) { 1int } else { 0 },
{
}

/// The blocks of the occurrences of `x` among the first `n` bits of `buf`.
fn preprocess_select(buf: &Vec<u64>, n: usize, x: u64) -> (sel: Vec<SelectPreprocess>)
    requires
        x == 0 || x == 1,
        n <= 64 * buf@.len(),
        n + 128 <= usize::MAX,
    ensures
        sel_ok(bits_of(buf@, n as int), x, sel@),
{
    let ghost bits = bits_of(buf@, n as int);
    let mut sel: Vec<SelectPreprocess> = Vec::new();
    let mut tmp: Vec<usize> = Vec::new();
    let mut last: usize = 0;
    let mut i: usize = 0;
    while i < n
        invariant
            bits == bits_of(buf@, n as int),
            x == 0 || x == 1,
            n <= 64 * buf@.len(),
            i <= n,
            64 * sel@.len() + tmp@.len() == count_x(bits, x, 0, i as int),
            tmp@.len() <= 64,
            tmp@.len() == 0 ==> sel@.len() == 0,
            forall|k: int| 0 <= k < sel@.len() ==> block_full(bits, x, k, #[trigger] sel@[k]),
            forall|j: int| 0 <= j < tmp@.len() ==> is_occ(bits, x, #[trigger] tmp@[j] as int, 64 * sel@.len() + j),
            last <= i,
            count_x(bits, x, 0, last as int) <= 64 * sel@.len(),
        decreases n - i,
    {
        let v: u64 = (buf[i / WORD_SIZE] >> ((i % WORD_SIZE) as u64)) & 1;
        proof {
            lemma_low_bit(buf@[(i / 64) as int], (i % 64) as u64);
            assert(bits[i as int] == wbit(buf@, i as int));
            lemma_count_next(bits, x, i as int);
        }
        if v == x {
            if tmp.len() == WORD_SIZE {
                let ghost s = sel@.len();
                let len = i - last;
                if len < WORD_SIZE * WORD_SIZE {
                    sel.push(SelectPreprocess::Dense(last, i));
                } else {
                    sel.push(SelectPreprocess::Sparse(tmp));
                }
                proof {
                    assert(block_full(bits, x, s as int, sel@[s as int]));
                }
                tmp = Vec::new();
                last = i;
            }
            tmp.push(i);
        }
        i += 1;
    }
    let ghost total = count_x(bits, x, 0, n as int);
    if tmp.len() > 0 {
        let ghost s = sel@.len();
        let ghost before = sel@;
        sel.push(SelectPreprocess::Sparse(tmp));
        proof {
            assert(block_last(bits, x, s as int, sel@[s as int]));
            assert forall|k: int| 0 <= k < sel@.len() - 1 implies block_full(bits, x, k, #[trigger] sel@[k]) by {
                assert(sel@[k] == before[k]);
            }
        }
    }
    sel
}

/// A rank/select dictionary: a sequence of bits, packed in words, with the
/// number of `1`s before each word and, for each bit value, where every
/// 64th occurrence of it stands.
#[derive(Clone, Debug)]
pub struct RsDict {
    len: usize,
    buf: Vec<u64>,
    rank: Vec<usize>,
    sel0: Vec<SelectPreprocess>,
    sel1: Vec<SelectPreprocess>,
}

impl View for RsDict {
    type V = Seq<bool>;

    /// The bits.
    open spec fn view(&self) -> Seq<bool> {
        self.bits()
    }
}

impl RsDict {
    /// The bits held.
    pub closed spec fn bits(&self) -> Seq<bool> {
        bits_of(self.buf@, self.len as int)
    }

    pub closed spec fn wf(&self) -> bool {
        &&& self.len + 128 <= usize::MAX
        &&& self.len == 0 ==> self.buf@.len() == 0
        &&& self.len > 0 ==> self.buf@.len() == (self.len - 1) / 64 + 2
        &&& forall|p: int| self.len <= p < 64 * self.buf@.len() ==> !#[trigger] wbit(self.buf@, p)
        &&& self.rank@.len() == self.buf@.len()
        &&& forall|i: int| 0 <= i < self.rank@.len() ==> #[trigger] self.rank@[i] == wcount(self.buf@, 1, 0, 64 * i)
        &&& sel_ok(self.bits(), 0, self.sel0@)
        &&& sel_ok(self.bits(), 1, self.sel1@)
    }

    /// The dictionary of the bits `buf`.
    pub fn from(buf: Vec<bool>) -> (r: Self)
        requires
            buf@.len() + 128 <= usize::MAX,
        ensures
            r.wf(),
            r@ == buf@,
    {
        let len = buf.len();
        let words = compress(&buf);
        let rank = preprocess_rank(&words);
        let sel0 = preprocess_select(&words, len, 0);
        let sel1 = preprocess_select(&words, len, 1);
        let r = RsDict { len, buf: words, rank, sel0, sel1 };
        proof {
            assert(r.bits() =~= buf@);
        }
        r
    }

    /// The number of positions before `end` that hold `x` (`0`, or `1` for
    /// any other `x`).
    pub fn rank(&self, end: usize, x: u64) -> (r: usize)
        requires
            self.wf(),
            0 < self@.len(),
            end <= self@.len(),
        ensures
            r == count_x(self@, x, 0, end as int),
    {
        let il = end / WORD_SIZE;
        let is = end % WORD_SIZE;
        let c = count_low(self.buf[il], 1, is as u64);
        proof {
            let f = |p: int| is_x(wbit(self.buf@, p), 1);
            lemma_word_bits(self.buf@, 1, il as int, is as int);
            lemma_count_split(f, 0, 64 * il, end as int);
            lemma_count_bound(f, 0, end as int);
            lemma_wcount_bits(self.buf@, self.len as int, 1, 0, end as int);
            lemma_count_zero_one(self@, 0, end as int);
            if x != 0 {
                lemma_count_one(self@, x, 0, end as int);
            }
        }
        let rank1 = self.rank[il] + c as usize;
        let rank = if x == 0 { end - rank1 } else { rank1 };
        rank
    }

    /// The number of positions before word `n` whose bit, padding
    /// included, holds `x`.
    fn rank_rough(&self, n: usize, x: u64) -> (r: usize)
        requires
            self.wf(),
            n < self.rank@.len(),
        ensures
            r == wcount(self.buf@, if x == 0 { 0 } else { 1 }, 0, 64 * n),
    {
        proof {
            lemma_wcount_zero_one(self.buf@, 0, 64 * n);
        }
        let rank1 = self.rank[n];
        let rank = if x == 0 { n * WORD_SIZE - rank1 } else { rank1 };
        rank
    }
}

impl RsDict {
    /// The position of the `n`-th occurrence of `x` (counting from `0`):
    /// read off where its block lists it, else searched for word by word
    /// in its block's range.
    fn find_nth_internal(&self, x: u64, n: usize) -> (r: usize)
        requires
            self.wf(),
            n < count_x(self@, x, 0, self@.len() as int),
        ensures
            is_occ(self@, x, r as int, n as int),
    {
        let ghost xs: u64 = if x == 0 { 0 } else { 1 };
        let ghost bits = self@;
        let ghost len = self.len as int;
        let ghost total = count_x(bits, xs, 0, len);
        proof {
            if x != 0 {
                lemma_count_one(bits, x, 0, len);
            }
            lemma_count_bound(|i: int| is_x(bits[i], x), 0, len);
        }
        let sel = if x == 0 { &self.sel0 } else { &self.sel1 };
        let il = n / WORD_SIZE;
        let is = n % WORD_SIZE;
        let r = match &sel[il] {
            SelectPreprocess::Sparse(dir) => {
                proof {
                    if il < sel@.len() - 1 {
                        assert(block_full(bits, xs, il as int, sel@[il as int]));
                    } else {
                        assert(block_last(bits, xs, il as int, sel@[il as int]));
                    }
                    assert(is_occ(bits, xs, dir@[is as int] as int, n as int));
                }
                dir[is]
            },
            SelectPreprocess::Dense(a, e) => {
                proof {
                    assert(il < sel@.len() - 1);
                    assert(block_full(bits, xs, il as int, sel@[il as int]));
                }
                self.search_dense(x, n, *a, *e)
            },
        };
        proof {
            if x != 0 {
                lemma_count_one(bits, x, 0, r as int);
            }
        }
        r
    }

    /// The position of the `n`-th occurrence of `x`, known to stand in
    /// `a..=e`: the word holding it is found by bisection on the counts
    /// before each word, then the bit within the word.
    fn search_dense(&self, x: u64, n: usize, a: usize, e: usize) -> (r: usize)
        requires
            self.wf(),
            n < count_x(self@, if x == 0 { 0 } else { 1 }, 0, self@.len() as int),
            a <= e,
            count_x(self@, if x == 0 { 0 } else { 1 }, 0, a as int) <= n,
            n < count_x(self@, if x == 0 { 0 } else { 1 }, 0, e as int),
            e < self@.len(),
        ensures
            is_occ(self@, if x == 0 { 0 } else { 1 }, r as int, n as int),
    {
        let ghost xs: u64 = if x == 0 { 0 } else { 1 };
        let ghost buf = self.buf@;
        let ghost len = self.len as int;
        let ghost f = |p: int| is_x(wbit(buf, p), xs);
        let mut lo = a / WORD_SIZE;
        let mut hi = 1 + (e - 1) / WORD_SIZE;
        proof {
            lemma_wcount_bits(buf, len, xs, 0, a as int);
            lemma_wcount_bits(buf, len, xs, 0, e as int);
            lemma_count_mono(f, 0, 64 * lo, a as int);
            lemma_count_mono(f, 0, e as int, 64 * hi);
        }
        while hi - lo > 1
            invariant
                self.wf(),
                buf == self.buf@,
                len == self.len,
                f == (|p: int| is_x(wbit(buf, p), xs)),
                xs == if x == 0 { 0u64 } else { 1u64 },
                lo < hi < self.rank@.len(),
                count_of(f, 0, 64 * lo) <= n < count_of(f, 0, 64 * hi),
            decreases hi - lo,
        {
            let mid = lo + (hi - lo) / 2;
            let rank = self.rank_rough(mid, x);
            if rank <= n {
                lo = mid;
            } else {
                hi = mid;
            }
        }
        proof {
            if lo >= hi {
                lemma_count_mono(f, 0, 64 * hi, 64 * lo);
            }
        }
        let rank_frac = n - self.rank_rough(lo, x);
        let word = self.buf[lo];
        proof {
            lemma_word_bits(buf, xs, lo as int, 64);
            lemma_count_split(f, 0, 64 * lo, 64 * lo + 64);
            lemma_count_same(|j: int| is_x(bit(word, j), xs), |j: int| is_x(bit(word, j), x), 0, 64);
        }
        let j = find_nth_small(word, x, rank_frac);
        let r = lo * WORD_SIZE + j;
        proof {
            lemma_count_same(|j: int| is_x(bit(word, j), xs), |j: int| is_x(bit(word, j), x), 0, j as int);
            lemma_word_bits(buf, xs, lo as int, j as int);
            lemma_count_split(f, 0, 64 * lo, r as int);
            lemma_split(r as int, lo as int, j as int);
            if r >= len {
                lemma_count_mono(f, 0, len, r as int);
                lemma_wcount_bits(buf, len, xs, 0, len);
            }
            lemma_wcount_bits(buf, len, xs, 0, r as int);
        }
        r
    }

    /// Where the prefix with `k` occurrences of `x` ends: `0` for `k == 0`,
    /// else just past the `k - 1`-th occurrence; `None` where there are
    /// fewer than `k`.
    pub fn select(&self, x: u64, k: usize) -> (r: Option<usize>)
        requires
            self.wf(),
            0 < self@.len(),
        ensures
            r is None <==> count_x(self@, x, 0, self@.len() as int) < k,
            r matches Some(p) ==> p <= self@.len() && count_x(self@, x, 0, p as int) == k,
            r matches Some(p) ==> (k == 0 ==> p == 0) && (k > 0 ==> is_x(self@[p - 1], x)),
    {
        if self.rank(self.len, x) < k {
            None
        } else if k == 0 {
            Some(0)
        } else {
            let p = self.find_nth_internal(x, k - 1);
            proof {
                lemma_count_next(self@, x, p as int);
            }
            Some(p + 1)
        }
    }

    /// The number of positions in `start..end` that hold `x`.
    pub fn count(&self, start: usize, end: usize, x: u64) -> (r: usize)
        requires
            self.wf(),
            0 < self@.len(),
            start <= end <= self@.len(),
        ensures
            r == count_x(self@, x, start as int, end as int),
    {
        proof {
            lemma_count_split(|i: int| is_x(self@[i], x), 0, start as int, end as int);
        }
        if start > 0 {
            self.rank(end, x) - self.rank(start, x)
        } else {
            self.rank(end, x)
        }
    }

    /// The position of the `n`-th occurrence of `x` (counting from `0`)
    /// in `start..end`; `None` where there are no more than `n`.
    pub fn find_nth(&self, start: usize, end: usize, x: u64, n: usize) -> (r: Option<usize>)
        requires
            self.wf(),
            0 < self@.len(),
            start <= end <= self@.len(),
        ensures
            r is None <==> count_x(self@, x, start as int, end as int) <= n,
            r matches Some(p) ==> start <= p < end && is_x(self@[p as int], x) && count_x(self@, x, start as int, p as int) == n,
    {
        let ghost f = |i: int| is_x(self@[i], x);
        if self.count(start, end, x) <= n {
            None
        } else {
            let offset = self.rank(start, x);
            proof {
                lemma_count_split(f, 0, start as int, end as int);
                lemma_count_mono(f, 0, end as int, self.len as int);
                lemma_count_bound(f, 0, end as int);
            }
            let p = self.find_nth_internal(x, offset + n);
            proof {
                if p < start {
                    lemma_count_next(self@, x, p as int);
                    lemma_count_mono(f, 0, p + 1, start as int);
                }
                if p >= end {
                    lemma_count_mono(f, 0, end as int, p as int);
                }
                lemma_count_split(f, 0, start as int, p as int);
            }
            Some(p)
        }
    }
}

} // verus!
