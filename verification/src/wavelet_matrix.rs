//! A wavelet matrix: a sequence of integers, kept bit by bit from the most
//! significant, that counts how many in a range are less than, equal to or
//! greater than a value.
use vstd::prelude::*;
use vstd::arithmetic::power2::{pow2, lemma_pow2_pos, lemma_pow2_unfold, lemma2_to64};
use vstd::multiset::Multiset;

use crate::rs_dict::{count_x, RsDict};

verus! {

broadcast use vstd::seq_lib::group_to_multiset_ensures, vstd::multiset::group_multiset_axioms;

/// The bits of `x` from position `k` on: `x` shifted right by `k`.
pub open spec fn high(x: nat, k: nat) -> nat {
    x / pow2(k)
}

/// Bit `k` of `x` is set.
pub open spec fn nbit(x: nat, k: nat) -> bool {
    high(x, k) % 2 == 1
}

/// Shifting right by `k` is shifting by `k + 1` and putting bit `k` back.
pub proof fn lemma_high_step(x: nat, k: nat)
    ensures
        high(x, k) == 2 * high(x, k + 1) + if nbit(x, k) { 1int } else { 0 },
{
    lemma_pow2_pos(k);
    lemma_pow2_unfold(k + 1);
    vstd::arithmetic::div_mod::lemma_div_denominator(x as int, pow2(k) as int, 2);
    vstd::arithmetic::mul::lemma_mul_is_commutative(pow2(k) as int, 2);
    vstd::arithmetic::div_mod::lemma_fundamental_div_mod(high(x, k) as int, 2);
}

/// Nothing is left of a value shifted past its bits.
pub proof fn lemma_high_zero(x: nat, l: nat)
    requires
        x < pow2(l),
    ensures
        high(x, l) == 0,
{
    lemma_pow2_pos(l);
    vstd::arithmetic::div_mod::lemma_basic_div(x as int, pow2(l) as int);
}

/// A value shifted by nothing is itself.
pub proof fn lemma_high_none(x: nat)
    ensures
        high(x, 0) == x,
{
    lemma2_to64();
}

/// Shifted by `k`, `x` is below `v` exactly when, shifted by `k + 1`, it is
/// below, or equal with bit `k` unset in `x` and set in `v`.
pub proof fn lemma_high_less(x: nat, v: nat, k: nat)
    ensures
        (high(x, k) < high(v, k)) == (high(x, k + 1) < high(v, k + 1)
            || (high(x, k + 1) == high(v, k + 1) && !nbit(x, k) && nbit(v, k))),
        (high(x, k) == high(v, k)) == (high(x, k + 1) == high(v, k + 1) && nbit(x, k) == nbit(v, k)),
{
    lemma_high_step(x, k);
    lemma_high_step(v, k);
}

/// An unsigned integer type whose values a wavelet matrix holds.
pub trait WmInt: Copy {
    /// The value.
    spec fn wm_value(self) -> nat;

    /// The number of bits of the type.
    spec fn wm_bits() -> nat;

    proof fn lemma_wm_bound(self)
        ensures
            self.wm_value() < pow2(Self::wm_bits()),
            Self::wm_bits() <= 64,
    ;

    /// Whether bit `i` is set.
    fn test(self, i: usize) -> (r: bool)
        requires
            i < Self::wm_bits(),
        ensures
            r == nbit(self.wm_value(), i as nat),
    ;

    /// Sets bit `i`.
    fn set(&mut self, i: usize)
        requires
            i < Self::wm_bits(),
        ensures
            final(self).wm_value() == if nbit(old(self).wm_value(), i as nat) {
                old(self).wm_value()
            } else {
                old(self).wm_value() + pow2(i as nat)
            },
    ;

    /// The number of bits needed to write the value.
    fn bitlen(self) -> (r: usize)
        ensures
            r <= Self::wm_bits(),
            self.wm_value() < pow2(r as nat),
            r > 0 ==> pow2((r - 1) as nat) <= self.wm_value(),
    ;

    /// Zero.
    fn zero() -> (r: Self)
        ensures
            r.wm_value() == 0,
    ;
}

/// Bit `i` of a `u8`, by shifting and masking.
proof fn lemma_u8_bit(x: u8, i: u8)
    requires
        i < 8,
    ensures
        ((x >> i) & 1 != 0) == nbit(x as nat, i as nat),
        ((x >> i) != 0) == (pow2(i as nat) <= x),
{
    vstd::bits::lemma_u8_shr_is_div(x, i);
    lemma_pow2_pos(i as nat);
    let y = x >> i;
    assert((y & 1 != 0) == (y % 2 == 1)) by (bit_vector);
    if pow2(i as nat) <= x {
        vstd::arithmetic::div_mod::lemma_div_non_zero(x as int, pow2(i as nat) as int);
    } else {
        vstd::arithmetic::div_mod::lemma_basic_div(x as int, pow2(i as nat) as int);
    }
}

/// Setting bit `i` of a `u8` adds it where it was unset.
proof fn lemma_u8_set(x: u8, i: u8)
    requires
        i < 8,
    ensures
        (x | (1u8 << i)) as int == if nbit(x as nat, i as nat) { x as int } else { x + pow2(i as nat) },
{
    lemma_u8_bit(x, i);
    vstd::bits::lemma_u8_pow2_no_overflow(i as nat);
    vstd::bits::lemma_u8_shl_is_mul(1u8, i);
    if (x >> i) & 1 != 0 {
        assert(x | (1u8 << i) == x) by (bit_vector)
            requires
                (x >> i) & 1 != 0,
                i < 8,
        ;
    } else {
        assert(x | (1u8 << i) == x + (1u8 << i)) by (bit_vector)
            requires
                (x >> i) & 1 == 0,
                i < 8,
        ;
    }
}

impl WmInt for u8 {
    open spec fn wm_value(self) -> nat {
        self as nat
    }

    open spec fn wm_bits() -> nat {
        8 as nat
    }

    proof fn lemma_wm_bound(self) {
        lemma2_to64();
    }

    fn test(self, i: usize) -> (r: bool) {
        let s = i as u8;
        proof {
            lemma_u8_bit(self, s);
        }
        (self >> s) & 1 != 0
    }

    fn set(&mut self, i: usize) {
        let s = i as u8;
        proof {
            lemma_u8_set(*self, s);
        }
        *self = *self | (1u8 << s);
    }

    fn bitlen(self) -> (r: usize) {
        let mut r: u8 = 0;
        proof {
            lemma2_to64();
            lemma2_to64();
        }
        while r < 8 && (self >> r) != 0
            invariant
                r <= 8,
                r > 0 ==> pow2((r - 1) as nat) <= self,
                self < pow2(8 as nat),
            decreases 8 - r,
        {
            proof {
                lemma_u8_bit(self, r);
            }
            r += 1;
        }
        proof {
            if r < 8 {
                lemma_u8_bit(self, r);
            }
        }
        r as usize
    }

    fn zero() -> (r: u8) {
        0
    }
}

/// Bit `i` of a `u16`, by shifting and masking.
proof fn lemma_u16_bit(x: u16, i: u16)
    requires
        i < 16,
    ensures
        ((x >> i) & 1 != 0) == nbit(x as nat, i as nat),
        ((x >> i) != 0) == (pow2(i as nat) <= x),
{
    vstd::bits::lemma_u16_shr_is_div(x, i);
    lemma_pow2_pos(i as nat);
    let y = x >> i;
    assert((y & 1 != 0) == (y % 2 == 1)) by (bit_vector);
    if pow2(i as nat) <= x {
        vstd::arithmetic::div_mod::lemma_div_non_zero(x as int, pow2(i as nat) as int);
    } else {
        vstd::arithmetic::div_mod::lemma_basic_div(x as int, pow2(i as nat) as int);
    }
}

/// Setting bit `i` of a `u16` adds it where it was unset.
proof fn lemma_u16_set(x: u16, i: u16)
    requires
        i < 16,
    ensures
        (x | (1u16 << i)) as int == if nbit(x as nat, i as nat) { x as int } else { x + pow2(i as nat) },
{
    lemma_u16_bit(x, i);
    vstd::bits::lemma_u16_pow2_no_overflow(i as nat);
    vstd::bits::lemma_u16_shl_is_mul(1u16, i);
    if (x >> i) & 1 != 0 {
        assert(x | (1u16 << i) == x) by (bit_vector)
            requires
                (x >> i) & 1 != 0,
                i < 16,
        ;
    } else {
        assert(x | (1u16 << i) == x + (1u16 << i)) by (bit_vector)
            requires
                (x >> i) & 1 == 0,
                i < 16,
        ;
    }
}

impl WmInt for u16 {
    open spec fn wm_value(self) -> nat {
        self as nat
    }

    open spec fn wm_bits() -> nat {
        16 as nat
    }

    proof fn lemma_wm_bound(self) {
        lemma2_to64();
    }

    fn test(self, i: usize) -> (r: bool) {
        let s = i as u16;
        proof {
            lemma_u16_bit(self, s);
        }
        (self >> s) & 1 != 0
    }

    fn set(&mut self, i: usize) {
        let s = i as u16;
        proof {
            lemma_u16_set(*self, s);
        }
        *self = *self | (1u16 << s);
    }

    fn bitlen(self) -> (r: usize) {
        let mut r: u16 = 0;
        proof {
            lemma2_to64();
            lemma2_to64();
        }
        while r < 16 && (self >> r) != 0
            invariant
                r <= 16,
                r > 0 ==> pow2((r - 1) as nat) <= self,
                self < pow2(16 as nat),
            decreases 16 - r,
        {
            proof {
                lemma_u16_bit(self, r);
            }
            r += 1;
        }
        proof {
            if r < 16 {
                lemma_u16_bit(self, r);
            }
        }
        r as usize
    }

    fn zero() -> (r: u16) {
        0
    }
}

/// Bit `i` of a `u32`, by shifting and masking.
proof fn lemma_u32_bit(x: u32, i: u32)
    requires
        i < 32,
    ensures
        ((x >> i) & 1 != 0) == nbit(x as nat, i as nat),
        ((x >> i) != 0) == (pow2(i as nat) <= x),
{
    vstd::bits::lemma_u32_shr_is_div(x, i);
    lemma_pow2_pos(i as nat);
    let y = x >> i;
    assert((y & 1 != 0) == (y % 2 == 1)) by (bit_vector);
    if pow2(i as nat) <= x {
        vstd::arithmetic::div_mod::lemma_div_non_zero(x as int, pow2(i as nat) as int);
    } else {
        vstd::arithmetic::div_mod::lemma_basic_div(x as int, pow2(i as nat) as int);
    }
}

/// Setting bit `i` of a `u32` adds it where it was unset.
proof fn lemma_u32_set(x: u32, i: u32)
    requires
        i < 32,
    ensures
        (x | (1u32 << i)) as int == if nbit(x as nat, i as nat) { x as int } else { x + pow2(i as nat) },
{
    lemma_u32_bit(x, i);
    vstd::bits::lemma_u32_pow2_no_overflow(i as nat);
    vstd::bits::lemma_u32_shl_is_mul(1u32, i);
    if (x >> i) & 1 != 0 {
        assert(x | (1u32 << i) == x) by (bit_vector)
            requires
                (x >> i) & 1 != 0,
                i < 32,
        ;
    } else {
        assert(x | (1u32 << i) == x + (1u32 << i)) by (bit_vector)
            requires
                (x >> i) & 1 == 0,
                i < 32,
        ;
    }
}

impl WmInt for u32 {
    open spec fn wm_value(self) -> nat {
        self as nat
    }

    open spec fn wm_bits() -> nat {
        32 as nat
    }

    proof fn lemma_wm_bound(self) {
        lemma2_to64();
    }

    fn test(self, i: usize) -> (r: bool) {
        let s = i as u32;
        proof {
            lemma_u32_bit(self, s);
        }
        (self >> s) & 1 != 0
    }

    fn set(&mut self, i: usize) {
        let s = i as u32;
        proof {
            lemma_u32_set(*self, s);
        }
        *self = *self | (1u32 << s);
    }

    fn bitlen(self) -> (r: usize) {
        let mut r: u32 = 0;
        proof {
            lemma2_to64();
            lemma2_to64();
        }
        while r < 32 && (self >> r) != 0
            invariant
                r <= 32,
                r > 0 ==> pow2((r - 1) as nat) <= self,
                self < pow2(32 as nat),
            decreases 32 - r,
        {
            proof {
                lemma_u32_bit(self, r);
            }
            r += 1;
        }
        proof {
            if r < 32 {
                lemma_u32_bit(self, r);
            }
        }
        r as usize
    }

    fn zero() -> (r: u32) {
        0
    }
}

/// Bit `i` of a `u64`, by shifting and masking.
proof fn lemma_u64_bit(x: u64, i: u64)
    requires
        i < 64,
    ensures
        ((x >> i) & 1 != 0) == nbit(x as nat, i as nat),
        ((x >> i) != 0) == (pow2(i as nat) <= x),
{
    vstd::bits::lemma_u64_shr_is_div(x, i);
    lemma_pow2_pos(i as nat);
    let y = x >> i;
    assert((y & 1 != 0) == (y % 2 == 1)) by (bit_vector);
    if pow2(i as nat) <= x {
        vstd::arithmetic::div_mod::lemma_div_non_zero(x as int, pow2(i as nat) as int);
    } else {
        vstd::arithmetic::div_mod::lemma_basic_div(x as int, pow2(i as nat) as int);
    }
}

/// Setting bit `i` of a `u64` adds it where it was unset.
proof fn lemma_u64_set(x: u64, i: u64)
    requires
        i < 64,
    ensures
        (x | (1u64 << i)) as int == if nbit(x as nat, i as nat) { x as int } else { x + pow2(i as nat) },
{
    lemma_u64_bit(x, i);
    vstd::bits::lemma_u64_pow2_no_overflow(i as nat);
    vstd::bits::lemma_u64_shl_is_mul(1u64, i);
    if (x >> i) & 1 != 0 {
        assert(x | (1u64 << i) == x) by (bit_vector)
            requires
                (x >> i) & 1 != 0,
                i < 64,
        ;
    } else {
        assert(x | (1u64 << i) == x + (1u64 << i)) by (bit_vector)
            requires
                (x >> i) & 1 == 0,
                i < 64,
        ;
    }
}

impl WmInt for u64 {
    open spec fn wm_value(self) -> nat {
        self as nat
    }

    open spec fn wm_bits() -> nat {
        64 as nat
    }

    proof fn lemma_wm_bound(self) {
        lemma2_to64();
    }

    fn test(self, i: usize) -> (r: bool) {
        let s = i as u64;
        proof {
            lemma_u64_bit(self, s);
        }
        (self >> s) & 1 != 0
    }

    fn set(&mut self, i: usize) {
        let s = i as u64;
        proof {
            lemma_u64_set(*self, s);
        }
        *self = *self | (1u64 << s);
    }

    fn bitlen(self) -> (r: usize) {
        let mut r: u64 = 0;
        proof {
            lemma2_to64();
            lemma2_to64();
        }
        while r < 64 && (self >> r) != 0
            invariant
                r <= 64,
                r > 0 ==> pow2((r - 1) as nat) <= self,
                self < pow2(64 as nat),
            decreases 64 - r,
        {
            proof {
                lemma_u64_bit(self, r);
            }
            r += 1;
        }
        proof {
            if r < 64 {
                lemma_u64_bit(self, r);
            }
        }
        r as usize
    }

    fn zero() -> (r: u64) {
        0
    }
}

/// Bit `i` of a `usize`, by shifting and masking.
proof fn lemma_usize_bit(x: usize, i: usize)
    requires
        i < (usize::BITS as usize),
    ensures
        ((x >> i) & 1 != 0) == nbit(x as nat, i as nat),
        ((x >> i) != 0) == (pow2(i as nat) <= x),
{
    vstd::bits::lemma_usize_shr_is_div(x, i);
    lemma_pow2_pos(i as nat);
    let y = x >> i;
    assert((y & 1 != 0) == (y % 2 == 1)) by (bit_vector);
    if pow2(i as nat) <= x {
        vstd::arithmetic::div_mod::lemma_div_non_zero(x as int, pow2(i as nat) as int);
    } else {
        vstd::arithmetic::div_mod::lemma_basic_div(x as int, pow2(i as nat) as int);
    }
}

/// Setting bit `i` of a `usize` adds it where it was unset.
proof fn lemma_usize_set(x: usize, i: usize)
    requires
        i < (usize::BITS as usize),
    ensures
        (x | (1usize << i)) as int == if nbit(x as nat, i as nat) { x as int } else { x + pow2(i as nat) },
{
    lemma_usize_bit(x, i);
    vstd::bits::lemma_usize_pow2_no_overflow(i as nat);
    vstd::bits::lemma_usize_shl_is_mul(1usize, i);
    if (x >> i) & 1 != 0 {
        assert(x | (1usize << i) == x) by (bit_vector)
            requires
                (x >> i) & 1 != 0,
                i < (usize::BITS as usize),
        ;
    } else {
        assert(x | (1usize << i) == x + (1usize << i)) by (bit_vector)
            requires
                (x >> i) & 1 == 0,
                i < (usize::BITS as usize),
        ;
    }
}

impl WmInt for usize {
    open spec fn wm_value(self) -> nat {
        self as nat
    }

    open spec fn wm_bits() -> nat {
        usize::BITS as nat
    }

    proof fn lemma_wm_bound(self) {
        vstd::layout::unsigned_int_max_values();
    }

    fn test(self, i: usize) -> (r: bool) {
        let s = i as usize;
        proof {
            lemma_usize_bit(self, s);
        }
        (self >> s) & 1 != 0
    }

    fn set(&mut self, i: usize) {
        let s = i as usize;
        proof {
            lemma_usize_set(*self, s);
        }
        *self = *self | (1usize << s);
    }

    fn bitlen(self) -> (r: usize) {
        let mut r: usize = 0;
        proof {
            lemma2_to64();
            vstd::layout::unsigned_int_max_values();
        }
        while r < (usize::BITS as usize) && (self >> r) != 0
            invariant
                r <= (usize::BITS as usize),
                r > 0 ==> pow2((r - 1) as nat) <= self,
                self < pow2(usize::BITS as nat),
            decreases (usize::BITS as usize) - r,
        {
            proof {
                lemma_usize_bit(self, r);
            }
            r += 1;
        }
        proof {
            if r < (usize::BITS as usize) {
                lemma_usize_bit(self, r);
            }
        }
        r as usize
    }

    fn zero() -> (r: usize) {
        0
    }
}

/// The values whose bit `k` is unset.
pub open spec fn zero_at(k: nat) -> spec_fn(nat) -> bool {
    |x: nat| !nbit(x, k)
}

/// The values whose bit `k` is set.
pub open spec fn one_at(k: nat) -> spec_fn(nat) -> bool {
    |x: nat| nbit(x, k)
}

/// The values of `s` with bit `k` unset, in order, then those with it set.
pub open spec fn part(s: Seq<nat>, k: nat) -> Seq<nat> {
    s.filter(zero_at(k)) + s.filter(one_at(k))
}

/// The values of integers.
pub open spec fn vals<I: WmInt>(v: Seq<I>) -> Seq<nat> {
    v.map_values(|x: I| x.wm_value())
}

/// The bits at position `k` of the values of a level.
pub open spec fn level_bits(s: Seq<nat>, k: nat) -> Seq<bool> {
    s.map_values(|x: nat| nbit(x, k))
}

/// The multiset of what a filter keeps is the filtered multiset.
proof fn lemma_ms_filter(s: Seq<nat>, f: spec_fn(nat) -> bool)
    ensures
        s.filter(f).to_multiset() =~= s.to_multiset().filter(f),
    decreases s.len(),
{
    reveal(Seq::filter);
    if s.len() > 0 {
        lemma_ms_filter(s.drop_last(), f);
        assert(s =~= s.drop_last().push(s.last()));
    }
}

/// What a predicate keeps and what it drops make up the whole.
proof fn lemma_ms_split(m: Multiset<nat>, f: spec_fn(nat) -> bool, g: spec_fn(nat) -> bool)
    requires
        forall|x: nat| #[trigger] g(x) == !f(x),
    ensures
        m.filter(f).len() + m.filter(g).len() == m.len(),
{
    assert(m =~= m.filter(f).add(m.filter(g)));
}

/// Filtering by a predicate that is one of two disjoint ones adds their
/// counts.
proof fn lemma_ms_union(m: Multiset<nat>, f: spec_fn(nat) -> bool, g: spec_fn(nat) -> bool, h: spec_fn(nat) -> bool)
    requires
        forall|x: nat| #[trigger] h(x) == (f(x) || g(x)),
        forall|x: nat| !(#[trigger] f(x) && g(x)),
    ensures
        m.filter(h).len() == m.filter(f).len() + m.filter(g).len(),
{
    assert(m.filter(h) =~= m.filter(f).add(m.filter(g)));
}

/// The number of values of `s` that a filter keeps.
proof fn lemma_filter_split(s: Seq<nat>, f: spec_fn(nat) -> bool, g: spec_fn(nat) -> bool)
    requires
        forall|x: nat| #[trigger] g(x) == !f(x),
    ensures
        s.filter(f).len() + s.filter(g).len() == s.len(),
{
    lemma_ms_filter(s, f);
    lemma_ms_filter(s, g);
    lemma_ms_split(s.to_multiset(), f, g);
}

/// Counting over positions is counting the multiset of the range.
proof fn lemma_count_ms(s: Seq<nat>, f: spec_fn(nat) -> bool, l: int, r: int)
    requires
        0 <= l <= r <= s.len(),
    ensures
        crate::counting::count_of(|p: int| f(s[p]), l, r) == s.subrange(l, r).to_multiset().filter(f).len(),
    decreases r - l,
{
    if r > l {
        lemma_count_ms(s, f, l, r - 1);
        assert(s.subrange(l, r) =~= s.subrange(l, r - 1).push(s[r - 1]));
        assert(s.subrange(l, r).to_multiset().filter(f) =~= if f(s[r - 1]) {
            s.subrange(l, r - 1).to_multiset().filter(f).insert(s[r - 1])
        } else {
            s.subrange(l, r - 1).to_multiset().filter(f)
        });
    } else {
        assert(s.subrange(l, r) =~= Seq::<nat>::empty());
        assert(s.subrange(l, r).to_multiset().filter(f) =~= Multiset::empty());
    }
}

/// The rank of a level's bits counts the values kept by a filter.
proof fn lemma_rank_filter(s: Seq<nat>, k: nat, n: int)
    requires
        0 <= n <= s.len(),
    ensures
        count_x(level_bits(s, k), 0, 0, n) == s.take(n).filter(zero_at(k)).len(),
        count_x(level_bits(s, k), 1, 0, n) == s.take(n).filter(one_at(k)).len(),
    decreases n,
{
    reveal(Seq::filter);
    if n > 0 {
        lemma_rank_filter(s, k, n - 1);
        assert(s.take(n).drop_last() =~= s.take(n - 1));
    }
}

/// In the partition of `s` by bit `k`, the values of `s[a..b]` with the bit
/// unset, and those with it set, stand together.
proof fn lemma_part_range(s: Seq<nat>, k: nat, a: int, b: int)
    requires
        0 <= a <= b <= s.len(),
    ensures
        ({
            let z = s.filter(zero_at(k)).len() as int;
            let r0a = s.take(a).filter(zero_at(k)).len() as int;
            let r0b = s.take(b).filter(zero_at(k)).len() as int;
            let r1a = s.take(a).filter(one_at(k)).len() as int;
            let r1b = s.take(b).filter(one_at(k)).len() as int;
            &&& r0a <= r0b <= z
            &&& z + r1b <= s.len()
            &&& r1a <= r1b
            &&& part(s, k).subrange(r0a, r0b) == s.subrange(a, b).filter(zero_at(k))
            &&& part(s, k).subrange(z + r1a, z + r1b) == s.subrange(a, b).filter(one_at(k))
            &&& r0b - r0a == s.subrange(a, b).filter(zero_at(k)).len()
            &&& r1b - r1a == s.subrange(a, b).filter(one_at(k)).len()
        }),
{
    let f0 = zero_at(k);
    let f1 = one_at(k);
    assert(s.take(b) =~= s.take(a) + s.subrange(a, b));
    assert(s =~= s.take(b) + s.skip(b));
    Seq::filter_distributes_over_add(s.take(a), s.subrange(a, b), f0);
    Seq::filter_distributes_over_add(s.take(a), s.subrange(a, b), f1);
    Seq::filter_distributes_over_add(s.take(b), s.skip(b), f0);
    Seq::filter_distributes_over_add(s.take(b), s.skip(b), f1);
    lemma_filter_split(s, f0, f1);
    let z = s.filter(f0).len() as int;
    let x0 = s.take(a).filter(f0);
    let y0 = s.subrange(a, b).filter(f0);
    let x1 = s.take(a).filter(f1);
    let y1 = s.subrange(a, b).filter(f1);
    assert(part(s, k).subrange(x0.len() as int, (x0.len() + y0.len()) as int) =~= y0);
    assert(part(s, k).subrange(z + x1.len(), z + x1.len() + y1.len()) =~= y1);
}


/// The values that agree with `v` from bit `k` on.
pub open spec fn eq_at(v: nat, k: nat) -> spec_fn(nat) -> bool {
    |x: nat| high(x, k) == high(v, k)
}

/// The values below `v` from bit `k` on.
pub open spec fn lt_at(v: nat, k: nat) -> spec_fn(nat) -> bool {
    |x: nat| high(x, k) < high(v, k)
}

/// The values above `v` from bit `k` on.
pub open spec fn gt_at(v: nat, k: nat) -> spec_fn(nat) -> bool {
    |x: nat| high(x, k) > high(v, k)
}

/// Counting what holds everywhere counts the whole range.
proof fn lemma_count_all(f: spec_fn(int) -> bool, l: int, r: int)
    requires
        l <= r,
        forall|p: int| l <= p < r ==> #[trigger] f(p),
    ensures
        crate::counting::count_of(f, l, r) == r - l,
    decreases r - l,
{
    if r > l {
        lemma_count_all(f, l, r - 1);
    }
}

/// Counting what holds nowhere counts nothing.
proof fn lemma_count_none(f: spec_fn(int) -> bool, l: int, r: int)
    requires
        forall|p: int| l <= p < r ==> !#[trigger] f(p),
    ensures
        crate::counting::count_of(f, l, r) == 0,
    decreases r - l,
{
    if r > l {
        lemma_count_none(f, l, r - 1);
    }
}

/// One level down: the range of the values that agree with `v` from bit
/// `k + 1` on narrows to those that agree from bit `k` on, in the level
/// below; the others are counted below or above `v`.
proof fn lemma_level_step(s: Seq<nat>, k: nat, st: int, en: int, m: Multiset<nat>, v: nat, lt: int, gt: int)
    requires
        0 <= st <= en <= s.len(),
        s.subrange(st, en).to_multiset() == m.filter(eq_at(v, k + 1)),
        lt == m.filter(lt_at(v, k + 1)).len(),
        gt == m.filter(gt_at(v, k + 1)).len(),
    ensures
        ({
            let z = s.filter(zero_at(k)).len() as int;
            let (st2, en2) = if nbit(v, k) {
                (z + s.take(st).filter(one_at(k)).len(), z + s.take(en).filter(one_at(k)).len())
            } else {
                (s.take(st).filter(zero_at(k)).len() as int, s.take(en).filter(zero_at(k)).len() as int)
            };
            &&& 0 <= st2 <= en2 <= s.len()
            &&& en2 - st2 <= en - st
            &&& part(s, k).subrange(st2, en2).to_multiset() == m.filter(eq_at(v, k))
            &&& en2 - st2 == m.filter(eq_at(v, k)).len()
            &&& (if nbit(v, k) { lt + (en - st) - (en2 - st2) } else { lt }) == m.filter(lt_at(v, k)).len()
            &&& (if nbit(v, k) { gt } else { gt + (en - st) - (en2 - st2) }) == m.filter(gt_at(v, k)).len()
        }),
{
    let f0 = zero_at(k);
    let f1 = one_at(k);
    let r = s.subrange(st, en);
    let mr = r.to_multiset();
    lemma_part_range(s, k, st, en);
    lemma_ms_filter(r, f0);
    lemma_ms_filter(r, f1);
    lemma_ms_split(mr, f0, f1);
    let me = m.filter(eq_at(v, k + 1));
    assert forall|x: nat| #[trigger] eq_at(v, k)(x) == (eq_at(v, k + 1)(x) && nbit(x, k) == nbit(v, k)) by {
        lemma_high_less(x, v, k);
    }
    assert forall|x: nat| #[trigger] lt_at(v, k)(x) == (lt_at(v, k + 1)(x) || (eq_at(v, k + 1)(x) && !nbit(x, k) && nbit(v, k))) by {
        lemma_high_less(x, v, k);
    }
    assert forall|x: nat| #[trigger] gt_at(v, k)(x) == (gt_at(v, k + 1)(x) || (eq_at(v, k + 1)(x) && nbit(x, k) && !nbit(v, k))) by {
        lemma_high_less(v, x, k);
        lemma_high_less(x, v, k);
    }
    let e0 = |x: nat| eq_at(v, k + 1)(x) && !nbit(x, k);
    let e1 = |x: nat| eq_at(v, k + 1)(x) && nbit(x, k);
    assert(mr.filter(f0) =~= m.filter(e0));
    assert(mr.filter(f1) =~= m.filter(e1));
    if nbit(v, k) {
        assert(m.filter(eq_at(v, k)) =~= m.filter(e1));
        lemma_ms_union(m, lt_at(v, k + 1), e0, lt_at(v, k));
        assert(m.filter(gt_at(v, k)) =~= m.filter(gt_at(v, k + 1)));
    } else {
        assert(m.filter(eq_at(v, k)) =~= m.filter(e0));
        lemma_ms_union(m, gt_at(v, k + 1), e1, gt_at(v, k));
        assert(m.filter(lt_at(v, k)) =~= m.filter(lt_at(v, k + 1)));
    }
}

/// Splits values by bit `i`: those with it unset, in order, then those
/// with it set; with the bits themselves, and how many are unset.
fn split_level<I: WmInt>(whole: &Vec<I>, i: usize) -> (r: (Vec<I>, Vec<bool>, usize))
    requires
        i < I::wm_bits(),
    ensures
        vals(r.0@) == part(vals(whole@), i as nat),
        r.1@ == level_bits(vals(whole@), i as nat),
        r.2 == vals(whole@).filter(zero_at(i as nat)).len(),
        vals(r.0@).len() == whole@.len(),
{
    let ghost w = vals(whole@);
    let len = whole.len();
    let mut zero: Vec<I> = Vec::new();
    let mut one: Vec<I> = Vec::new();
    let mut vb: Vec<bool> = Vec::new();
    let mut j: usize = 0;
    while j < len
        invariant
            len == whole@.len(),
            w == vals(whole@),
            i < I::wm_bits(),
            j <= len,
            vals(zero@) == w.take(j as int).filter(zero_at(i as nat)),
            vals(one@) == w.take(j as int).filter(one_at(i as nat)),
            vb@ == level_bits(w.take(j as int), i as nat),
        decreases len - j,
    {
        let aj = whole[j];
        let b = aj.test(i);
        proof {
            reveal(Seq::filter);
            assert(w.take(j + 1).drop_last() =~= w.take(j as int));
            assert(w.take(j + 1).last() == aj.wm_value());
        }
        if b {
            one.push(aj);
        } else {
            zero.push(aj);
        }
        vb.push(b);
        proof {
            assert(vals(zero@) =~= w.take(j + 1).filter(zero_at(i as nat)));
            assert(vals(one@) =~= w.take(j + 1).filter(one_at(i as nat)));
            assert(vb@ =~= level_bits(w.take(j + 1), i as nat));
        }
        j += 1;
    }
    proof {
        assert(w.take(len as int) =~= w);
        lemma_filter_split(w, zero_at(i as nat), one_at(i as nat));
    }
    let z = zero.len();
    let mut next = zero;
    next.append(&mut one);
    proof {
        assert(vals(next@) =~= part(w, i as nat));
    }
    (next, vb, z)
}

/// Where bits are used at all, some value needs the highest of them.
#[verifier::opaque]
spec fn top_used(values: Seq<nat>, bitlen: nat) -> bool {
    bitlen > 0 ==> exists|j: int| 0 <= j < values.len() && pow2((bitlen - 1) as nat) <= #[trigger] values[j]
}

/// A wavelet matrix: for each bit position from the highest used, the
/// values reordered so that those agreeing on the higher bits stand
/// together, with a rank/select dictionary of that bit.
pub struct WaveletMatrix<I> {
    len: usize,
    bitlen: usize,
    buf: Vec<RsDict>,
    zeros: Vec<usize>,
    orig: Vec<I>,
    levels: Ghost<Seq<Seq<nat>>>,
}


/// The number of bits needed to write every value of `orig`.
fn max_bitlen<I: WmInt>(orig: &Vec<I>) -> (bitlen: usize)
    ensures
        bitlen <= I::wm_bits(),
        forall|t: int| 0 <= t < orig@.len() ==> (#[trigger] vals(orig@)[t]) < pow2(bitlen as nat),
        bitlen > 0 ==> exists|t: int| 0 <= t < orig@.len() && pow2((bitlen - 1) as nat) <= #[trigger] vals(orig@)[t],
{
    let len = orig.len();
    let mut bitlen: usize = 0;
    let mut j: usize = 0;
    while j < len
        invariant
            len == orig@.len(),
            j <= len,
            bitlen <= I::wm_bits(),
            forall|t: int| 0 <= t < j ==> (#[trigger] vals(orig@)[t]) < pow2(bitlen as nat),
            bitlen > 0 ==> exists|t: int| 0 <= t < j && pow2((bitlen - 1) as nat) <= #[trigger] vals(orig@)[t],
        decreases len - j,
    {
        let b = orig[j].bitlen();
        proof {
            assert(vals(orig@)[j as int] == orig@[j as int].wm_value());
        }
        if b > bitlen {
            proof {
                assert forall|t: int| 0 <= t < j implies (#[trigger] vals(orig@)[t]) < pow2(b as nat) by {
                    vstd::arithmetic::power2::lemma_pow2_strictly_increases(bitlen as nat, b as nat);
                }
            }
            bitlen = b;
        } else {
            proof {
                if b < bitlen {
                    vstd::arithmetic::power2::lemma_pow2_strictly_increases(b as nat, bitlen as nat);
                }
            }
        }
        j += 1;
    }
    bitlen
}

/// A copy of the integers.
fn copy_ints<I: WmInt>(orig: &Vec<I>) -> (r: Vec<I>)
    ensures
        r@ == orig@,
{
    let len = orig.len();
    let mut whole: Vec<I> = Vec::new();
    let mut j: usize = 0;
    while j < len
        invariant
            len == orig@.len(),
            j <= len,
            whole@ == orig@.take(j as int),
        decreases len - j,
    {
        whole.push(orig[j]);
        proof {
            assert(orig@.take(j + 1) =~= orig@.take(j as int).push(orig@[j as int]));
        }
        j += 1;
    }
    proof {
        assert(orig@.take(len as int) =~= orig@);
    }
    whole
}

/// The levels are well formed from level `i` up, with `len` values each.
spec fn levels_ok(levels: Seq<Seq<nat>>, buf: Seq<RsDict>, zeros: Seq<usize>, i: int, len: nat) -> bool {
    &&& forall|t: int| 1 <= t < levels.len() ==> levels[t - 1] == part(#[trigger] levels[t], (i + t) as nat)
    &&& forall|t: int| 0 <= t < levels.len() ==> {
        &&& (#[trigger] levels[t]).len() == len
        &&& buf[t].wf()
        &&& buf[t]@ == level_bits(levels[t], (i + t) as nat)
        &&& zeros[i + t] == levels[t].filter(zero_at((i + t) as nat)).len()
    }
}

/// A new lowest level, split from the one above it.
proof fn lemma_levels_push(levels: Seq<Seq<nat>>, buf: Seq<RsDict>, zeros: Seq<usize>, i: int, len: nat, w: Seq<nat>, rs: RsDict, z: usize)
    requires
        0 <= i,
        levels_ok(levels, buf, zeros, i + 1, len),
        buf.len() == levels.len(),
        zeros.len() >= i + 1 + levels.len(),
        levels.len() > 0 ==> w == part(levels[0], (i + 1) as nat),
        w.len() == len,
        rs.wf(),
        rs@ == level_bits(w, i as nat),
        z == w.filter(zero_at(i as nat)).len(),
    ensures
        levels_ok(seq![w] + levels, seq![rs] + buf, zeros.update(i, z), i, len),
{
    let nl = seq![w] + levels;
    let nb = seq![rs] + buf;
    let nz = zeros.update(i, z);
    assert forall|t: int| 1 <= t < nl.len() implies nl[t - 1] == part(#[trigger] nl[t], (i + t) as nat) by {
        assert(nl[t] == levels[t - 1]);
        if t >= 2 {
            assert(nl[t - 1] == levels[t - 2]);
        }
    }
    assert forall|t: int| 0 <= t < nl.len() implies {
        &&& (#[trigger] nl[t]).len() == len
        &&& nb[t].wf()
        &&& nb[t]@ == level_bits(nl[t], (i + t) as nat)
        &&& nz[i + t] == nl[t].filter(zero_at((i + t) as nat)).len()
    } by {
        if t > 0 {
            assert(nl[t] == levels[t - 1]);
            assert(nb[t] == buf[t - 1]);
            assert(nz[i + t] == zeros[i + t]);
        }
    }
}

/// The levels of the values `whole`, from the highest, bit `bitlen - 1`,
/// down to bit `0`.
fn build_levels<I: WmInt>(whole: Vec<I>, bitlen: usize) -> (r: (Vec<RsDict>, Vec<usize>, Ghost<Seq<Seq<nat>>>))
    requires
        whole@.len() + 128 <= usize::MAX,
        bitlen <= I::wm_bits(),
    ensures
        r.0@.len() == bitlen,
        r.1@.len() == bitlen,
        r.2@.len() == bitlen,
        bitlen > 0 ==> r.2@[bitlen - 1] == vals(whole@),
        levels_ok(r.2@, r.0@, r.1@, 0, whole@.len()),
{
    let len = whole.len();
    let ghost w0 = vals(whole@);
    let mut whole = whole;
    let mut zeros: Vec<usize> = Vec::new();
    let mut j: usize = 0;
    while j < bitlen
        invariant
            j <= bitlen,
            zeros@.len() == j,
        decreases bitlen - j,
    {
        zeros.push(0);
        j += 1;
    }
    let mut buf: Vec<RsDict> = Vec::new();
    let ghost mut levels: Seq<Seq<nat>> = Seq::empty();
    let mut i = bitlen;
    while i > 0
        invariant
            len + 128 <= usize::MAX,
            bitlen <= I::wm_bits(),
            i <= bitlen,
            zeros@.len() == bitlen,
            vals(whole@).len() == len,
            levels.len() == bitlen - i,
            buf@.len() == bitlen - i,
            levels.len() == 0 ==> vals(whole@) == w0,
            levels.len() > 0 ==> vals(whole@) == part(levels[0], i as nat),
            levels.len() > 0 ==> levels.last() == w0,
            levels_ok(levels, buf@, zeros@, i as int, len as nat),
        decreases i,
    {
        i -= 1;
        let ghost w = vals(whole@);
        let (next, vb, z) = split_level(&whole, i);
        let ghost z0 = zeros@;
        let ghost b0 = buf@;
        zeros.set(i, z);
        let rs = RsDict::from(vb);
        buf.insert(0, rs);
        proof {
            lemma_levels_push(levels, b0, z0, i as int, len as nat, w, rs, z);
            assert(buf@ =~= seq![rs] + b0);
            let nl = seq![w] + levels;
            if levels.len() > 0 {
                assert(nl.last() == levels.last());
            }
            levels = nl;
        }
        whole = next;
    }
    (buf, zeros, Ghost(levels))
}

impl<I: WmInt> WaveletMatrix<I> {
    /// The values held, in order.
    pub closed spec fn values(&self) -> Seq<nat> {
        vals(self.orig@)
    }

    /// Level `i` of the matrix is well formed.
    closed spec fn level_ok(&self, i: int) -> bool {
        let s = self.levels@[i];
        &&& s.len() == self.len
        &&& self.buf@[i].wf()
        &&& self.buf@[i]@ == level_bits(s, i as nat)
        &&& self.zeros@[i] == s.filter(zero_at(i as nat)).len()
    }

    pub closed spec fn wf(&self) -> bool {
        &&& self.orig@.len() == self.len
        &&& self.len + 128 <= usize::MAX
        &&& self.bitlen <= I::wm_bits()
        &&& forall|j: int| 0 <= j < self.len ==> (#[trigger] self.values()[j]) < pow2(self.bitlen as nat)
        &&& top_used(self.values(), self.bitlen as nat)
        &&& self.buf@.len() == self.bitlen
        &&& self.zeros@.len() == self.bitlen
        &&& self.levels@.len() == self.bitlen
        &&& self.bitlen > 0 ==> self.levels@[self.bitlen - 1] == self.values()
        &&& forall|i: int| 1 <= i < self.bitlen ==> self.levels@[i - 1] == part(#[trigger] self.levels@[i], i as nat)
        &&& forall|i: int| 0 <= i < self.bitlen ==> #[trigger] self.level_ok(i)
    }

    /// The matrix of the values `orig`.
    pub fn from(orig: Vec<I>) -> (r: Self)
        requires
            orig@.len() + 128 <= usize::MAX,
        ensures
            r.wf(),
            r.values() == vals(orig@),
    {
        let len = orig.len();
        let bitlen = max_bitlen(&orig);
        let whole = copy_ints(&orig);
        let (buf, zeros, levels) = build_levels(whole, bitlen);
        let r = WaveletMatrix { len, bitlen, buf, zeros, orig, levels };
        proof {
            reveal(top_used);
            assert forall|i: int| 0 <= i < r.bitlen implies #[trigger] r.level_ok(i) by {
                assert(r.levels@[i] == levels@[i]);
            }
        }
        r
    }
}

impl<I: WmInt> WaveletMatrix<I> {
    /// The number of values in `start..end` below `value`, and above it,
    /// found level by level from the highest bit.
    fn count_3way_internal(&self, start: usize, end: usize, value: I) -> (r: (usize, usize))
        requires
            self.wf(),
            start <= end <= self.values().len(),
        ensures
            r.0 == count_lt(self.values(), value.wm_value(), start as int, end as int),
            r.1 == count_gt(self.values(), value.wm_value(), start as int, end as int),
    {
        let ghost vals_ = self.values();
        let ghost v = value.wm_value();
        let ghost fl = at_lt(vals_, v);
        let ghost fg = at_gt(vals_, v);
        if start == end {
            return (0, 0);
        }
        let vb = value.bitlen();
        if vb > self.bitlen {
            proof {
                vstd::arithmetic::power2::lemma_pow2_strictly_increases(self.bitlen as nat, vb as nat);
                if (self.bitlen as nat) < (vb - 1) as nat {
                    vstd::arithmetic::power2::lemma_pow2_strictly_increases(self.bitlen as nat, (vb - 1) as nat);
                }
                assert forall|p: int| start <= p < end implies #[trigger] fl(p) by {
                    assert(vals_[p] < pow2(self.bitlen as nat));
                }
                lemma_count_all(fl, start as int, end as int);
                lemma_count_none(fg, start as int, end as int);
            }
            return (end - start, 0);
        }
        let ghost o = vals_.subrange(start as int, end as int);
        let ghost m = o.to_multiset();
        proof {
            if vb < self.bitlen {
                vstd::arithmetic::power2::lemma_pow2_strictly_increases(vb as nat, self.bitlen as nat);
            }
            lemma_high_zero(v, self.bitlen as nat);
            assert forall|x: nat| #[trigger] m.count(x) > 0 implies x < pow2(self.bitlen as nat) by {
                assert(o.contains(x));
                let p = choose|p: int| 0 <= p < o.len() && o[p] == x;
                assert(vals_[start + p] == x);
            }
            assert forall|x: nat| #[trigger] m.count(x) > 0 implies eq_at(v, self.bitlen as nat)(x) by {
                lemma_high_zero(x, self.bitlen as nat);
            }
            assert(m.filter(eq_at(v, self.bitlen as nat)) =~= m);
            assert(m.filter(lt_at(v, self.bitlen as nat)) =~= Multiset::empty());
            assert(m.filter(gt_at(v, self.bitlen as nat)) =~= Multiset::empty());
            if self.bitlen > 0 {
                assert(self.levels@[self.bitlen - 1] == vals_);
            }
        }
        let mut lt: usize = 0;
        let mut gt: usize = 0;
        let mut st = start;
        let mut en = end;
        let mut i = self.bitlen;
        while i > 0
            invariant
                self.wf(),
                vals_ == self.values(),
                0 < self.values().len(),
                i <= self.bitlen,
                st <= en <= self.values().len(),
                v == value.wm_value(),
                v < pow2(self.bitlen as nat),
                en - st == m.filter(eq_at(v, i as nat)).len(),
                i > 0 ==> self.levels@[i - 1].subrange(st as int, en as int).to_multiset() == m.filter(eq_at(v, i as nat)),
                lt == m.filter(lt_at(v, i as nat)).len(),
                gt == m.filter(gt_at(v, i as nat)).len(),
                lt + gt + (en - st) == end - start,
            decreases i,
        {
            i -= 1;
            let ghost s = self.levels@[i as int];
            proof {
                assert(self.level_ok(i as int));
                lemma_level_step(s, i as nat, st as int, en as int, m, v, lt as int, gt as int);
                lemma_rank_filter(s, i as nat, st as int);
                lemma_rank_filter(s, i as nat, en as int);
                if i > 0 {
                    assert(self.levels@[i - 1] == part(self.levels@[i as int], i as nat));
                }
            }
            let tmp = en - st;
            let bit = value.test(i);
            if !bit {
                st = self.buf[i].rank(st, 0);
                en = self.buf[i].rank(en, 0);
            } else {
                st = self.zeros[i] + self.buf[i].rank(st, 1);
                en = self.zeros[i] + self.buf[i].rank(en, 1);
            }
            if bit {
                lt += tmp - (en - st);
            } else {
                gt += tmp - (en - st);
            }
        }
        proof {
            assert forall|x: nat| #[trigger] lt_at(v, 0)(x) == (x < v) by {
                lemma_high_none(x);
                lemma_high_none(v);
            }
            assert forall|x: nat| #[trigger] gt_at(v, 0)(x) == (x > v) by {
                lemma_high_none(x);
                lemma_high_none(v);
            }
            let f = |x: nat| x < v;
            let g = |x: nat| x > v;
            assert(m.filter(lt_at(v, 0)) =~= m.filter(f));
            assert(m.filter(gt_at(v, 0)) =~= m.filter(g));
            lemma_counts_ms(vals_, v, start as int, end as int);
        }
        (lt, gt)
    }
}

/// How many values are less than, equal to, and greater than some value or
/// range of values.
#[derive(Clone, Copy, Debug, PartialEq, Eq)]
pub struct Count3wayResult {
    lt: usize,
    eq: usize,
    gt: usize,
}

impl Count3wayResult {
    /// The number less.
    pub closed spec fn below(&self) -> nat {
        self.lt as nat
    }

    /// The number equal.
    pub closed spec fn equal(&self) -> nat {
        self.eq as nat
    }

    /// The number greater.
    pub closed spec fn above(&self) -> nat {
        self.gt as nat
    }

    pub fn new(lt: usize, eq: usize, gt: usize) -> (r: Self)
        ensures
            r.below() == lt,
            r.equal() == eq,
            r.above() == gt,
    {
        Count3wayResult { lt, eq, gt }
    }

    /// The number less.
    pub fn lt(&self) -> (r: usize)
        ensures
            r == self.below(),
    {
        self.lt
    }

    /// The number equal.
    pub fn eq(&self) -> (r: usize)
        ensures
            r == self.equal(),
    {
        self.eq
    }

    /// The number greater.
    pub fn gt(&self) -> (r: usize)
        ensures
            r == self.above(),
    {
        self.gt
    }

    /// The number less or equal.
    pub fn le(&self) -> (r: usize)
        requires
            self.below() + self.equal() <= usize::MAX,
        ensures
            r == self.below() + self.equal(),
    {
        self.lt + self.eq
    }

    /// The number greater or equal.
    pub fn ge(&self) -> (r: usize)
        requires
            self.above() + self.equal() <= usize::MAX,
        ensures
            r == self.above() + self.equal(),
    {
        self.gt + self.eq
    }
}

/// Position `p` of `s` holds a value below `v`.
pub open spec fn at_lt(s: Seq<nat>, v: nat) -> spec_fn(int) -> bool {
    |p: int| s[p] < v
}

/// Position `p` of `s` holds `v`.
pub open spec fn at_eq(s: Seq<nat>, v: nat) -> spec_fn(int) -> bool {
    |p: int| s[p] == v
}

/// Position `p` of `s` holds a value above `v`.
pub open spec fn at_gt(s: Seq<nat>, v: nat) -> spec_fn(int) -> bool {
    |p: int| s[p] > v
}

/// Position `p` of `s` holds a value in `lo..=hi`.
pub open spec fn at_within(s: Seq<nat>, lo: nat, hi: nat) -> spec_fn(int) -> bool {
    |p: int| lo <= s[p] && s[p] <= hi
}

/// The number of positions in `start..end` of `s` with a value below `v`.
pub open spec fn count_lt(s: Seq<nat>, v: nat, start: int, end: int) -> nat {
    crate::counting::count_of(at_lt(s, v), start, end)
}

/// The number of positions in `start..end` of `s` with the value `v`.
pub open spec fn count_eq(s: Seq<nat>, v: nat, start: int, end: int) -> nat {
    crate::counting::count_of(at_eq(s, v), start, end)
}

/// The number of positions in `start..end` of `s` with a value above `v`.
pub open spec fn count_gt(s: Seq<nat>, v: nat, start: int, end: int) -> nat {
    crate::counting::count_of(at_gt(s, v), start, end)
}

/// The number of positions in `start..end` of `s` with a value in
/// `lo..=hi`.
pub open spec fn count_within(s: Seq<nat>, lo: nat, hi: nat, start: int, end: int) -> nat {
    crate::counting::count_of(at_within(s, lo, hi), start, end)
}

/// Counting below, at and above a value covers the range.
proof fn lemma_three_ways(s: Seq<nat>, v: nat, l: int, r: int)
    requires
        l <= r,
    ensures
        count_lt(s, v, l, r) + count_eq(s, v, l, r) + count_gt(s, v, l, r) == r - l,
    decreases r - l,
{
    if r > l {
        lemma_three_ways(s, v, l, r - 1);
    }
}

/// Counting below `lo`, within `lo..=hi` and above `hi` covers the range.
proof fn lemma_three_ranges(s: Seq<nat>, lo: nat, hi: nat, l: int, r: int)
    requires
        l <= r,
        lo <= hi,
    ensures
        count_lt(s, lo, l, r) + count_within(s, lo, hi, l, r) + count_gt(s, hi, l, r) == r - l,
    decreases r - l,
{
    if r > l {
        lemma_three_ranges(s, lo, hi, l, r - 1);
    }
}

impl<I: WmInt> WaveletMatrix<I> {
    /// The number of values.
    pub fn len(&self) -> (r: usize)
        requires
            self.wf(),
        ensures
            r == self.values().len(),
    {
        self.len
    }

    pub fn is_empty(&self) -> (r: bool)
        requires
            self.wf(),
        ensures
            r == (self.values().len() == 0),
    {
        self.len == 0
    }

    /// How many values in `start..end` are less than, equal to and greater
    /// than `value`.
    pub fn count_3way(&self, start: usize, end: usize, value: I) -> (r: Count3wayResult)
        requires
            self.wf(),
            start <= end <= self.values().len(),
        ensures
            r.below() == count_lt(self.values(), value.wm_value(), start as int, end as int),
            r.equal() == count_eq(self.values(), value.wm_value(), start as int, end as int),
            r.above() == count_gt(self.values(), value.wm_value(), start as int, end as int),
    {
        let ghost v = value.wm_value();
        let ghost s = self.values();
        let (lt, gt) = self.count_3way_internal(start, end, value);
        proof {
            lemma_three_ways(s, v, start as int, end as int);
        }
        let eq = (end - start) - (lt + gt);
        Count3wayResult::new(lt, eq, gt)
    }

    /// How many values in `start..end` are less than `lo`, within
    /// `lo..=hi` and greater than `hi`. The middle count is what the other
    /// two leave of the range, which for `hi < lo` is less than nothing
    /// unless no value lies strictly between them.
    pub fn count_3way_range(&self, start: usize, end: usize, lo: I, hi: I) -> (r: Count3wayResult)
        requires
            self.wf(),
            start <= end <= self.values().len(),
            count_lt(self.values(), lo.wm_value(), start as int, end as int)
                + count_gt(self.values(), hi.wm_value(), start as int, end as int) <= end - start,
        ensures
            r.below() == count_lt(self.values(), lo.wm_value(), start as int, end as int),
            r.above() == count_gt(self.values(), hi.wm_value(), start as int, end as int),
            r.equal() == end - start - r.below() - r.above(),
            lo.wm_value() <= hi.wm_value() ==> r.equal() == count_within(self.values(), lo.wm_value(), hi.wm_value(), start as int, end as int),
    {
        let ghost s = self.values();
        let ghost a = lo.wm_value();
        let ghost b = hi.wm_value();
        let lt = self.count_3way_internal(start, end, lo).0;
        let gt = self.count_3way_internal(start, end, hi).1;
        proof {
            if a <= b {
                lemma_three_ranges(s, a, b, start as int, end as int);
            }
        }
        let eq = (end - start) - (lt + gt);
        Count3wayResult::new(lt, eq, gt)
    }

    /// The number of values in `start..end` equal to `value`.
    pub fn count(&self, start: usize, end: usize, value: I) -> (r: usize)
        requires
            self.wf(),
            start <= end <= self.values().len(),
        ensures
            r == count_eq(self.values(), value.wm_value(), start as int, end as int),
    {
        self.count_3way(start, end, value).eq()
    }

    /// The number of values in `start..end` within `lo..=hi`; for
    /// `hi < lo`, what the values below `lo` and above `hi` leave of the
    /// range.
    pub fn count_range(&self, start: usize, end: usize, lo: I, hi: I) -> (r: usize)
        requires
            self.wf(),
            start <= end <= self.values().len(),
            count_lt(self.values(), lo.wm_value(), start as int, end as int)
                + count_gt(self.values(), hi.wm_value(), start as int, end as int) <= end - start,
        ensures
            r == end - start - count_lt(self.values(), lo.wm_value(), start as int, end as int)
                - count_gt(self.values(), hi.wm_value(), start as int, end as int),
            lo.wm_value() <= hi.wm_value() ==> r == count_within(self.values(), lo.wm_value(), hi.wm_value(), start as int, end as int),
    {
        self.count_3way_range(start, end, lo, hi).eq()
    }

    /// The number of values before `end` equal to `value`.
    pub fn rank(&self, end: usize, value: I) -> (r: usize)
        requires
            self.wf(),
            end <= self.values().len(),
        ensures
            r == count_eq(self.values(), value.wm_value(), 0, end as int),
    {
        self.count(0, end, value)
    }
}

/// The counts below, at and above `v` are those of the multiset of the
/// range.
proof fn lemma_counts_ms(s: Seq<nat>, v: nat, l: int, r: int)
    requires
        0 <= l <= r <= s.len(),
    ensures
        count_lt(s, v, l, r) == s.subrange(l, r).to_multiset().filter(|x: nat| x < v).len(),
        count_eq(s, v, l, r) == s.subrange(l, r).to_multiset().filter(|x: nat| x == v).len(),
        count_gt(s, v, l, r) == s.subrange(l, r).to_multiset().filter(|x: nat| x > v).len(),
{
    let f = |x: nat| x < v;
    let g = |x: nat| x == v;
    let h = |x: nat| x > v;
    let m = s.subrange(l, r).to_multiset();
    lemma_count_ms(s, f, l, r);
    lemma_count_ms(s, g, l, r);
    lemma_count_ms(s, h, l, r);
    assert(m.filter(f) =~= m.filter(|x: nat| x < v));
    assert(m.filter(g) =~= m.filter(|x: nat| x == v));
    assert(m.filter(h) =~= m.filter(|x: nat| x > v));
    crate::counting::lemma_count_same(|p: int| f(s[p]), at_lt(s, v), l, r);
    crate::counting::lemma_count_same(|p: int| g(s[p]), at_eq(s, v), l, r);
    crate::counting::lemma_count_same(|p: int| h(s[p]), at_gt(s, v), l, r);
}

/// A prefix `p` of bits from `k + 1` on, scaled back, has bit `k` unset;
/// setting it makes the prefix `2 * p + 1` from bit `k` on.
proof fn lemma_scaled(p: nat, k: nat)
    ensures
        high(p * pow2(k + 1), k) == 2 * p,
        !nbit(p * pow2(k + 1), k),
        p * pow2(k + 1) == (2 * p) * pow2(k),
        p * pow2(k + 1) + pow2(k) == (2 * p + 1) * pow2(k),
{
    lemma_pow2_pos(k);
    lemma_pow2_unfold(k + 1);
    assert(p * pow2(k + 1) == (2 * p) * pow2(k)) by (nonlinear_arith)
        requires
            pow2(k + 1) == 2 * pow2(k),
    ;
    vstd::arithmetic::div_mod::lemma_div_by_multiple((2 * p) as int, pow2(k) as int);
    assert((2 * p + 1) * pow2(k) == (2 * p) * pow2(k) + pow2(k)) by (nonlinear_arith);
}

/// A prefix `p` from bit `k` on, scaled back, is its own prefix there.
proof fn lemma_prefix_of(p: nat, k: nat)
    ensures
        high(p * pow2(k), k) == p,
{
    lemma_pow2_pos(k);
    vstd::arithmetic::div_mod::lemma_div_by_multiple(p as int, pow2(k) as int);
}

impl<I: WmInt> WaveletMatrix<I> {
    /// The `n`-th smallest value in `start..end` (counting from `0`);
    /// `None` where the range holds no more than `n` values.
    pub fn quantile(&self, start: usize, end: usize, n: usize) -> (r: Option<I>)
        requires
            self.wf(),
            start <= end <= self.values().len(),
        ensures
            r is None <==> end - start <= n,
            r matches Some(v) ==> count_lt(self.values(), v.wm_value(), start as int, end as int) <= n
                < count_lt(self.values(), v.wm_value(), start as int, end as int) + count_eq(self.values(), v.wm_value(), start as int, end as int),
    {
        if end - start <= n {
            return None;
        }
        let ghost s = self.values();
        let ghost m = s.subrange(start as int, end as int).to_multiset();
        let mut res = I::zero();
        let ghost mut pre: nat = 0;
        proof {
            let o = s.subrange(start as int, end as int);
            assert forall|x: nat| #[trigger] m.count(x) > 0 implies high(x, self.bitlen as nat) == 0 by {
                assert(o.contains(x));
                let p = choose|p: int| 0 <= p < o.len() && o[p] == x;
                assert(s[start + p] == x);
                lemma_high_zero(x, self.bitlen as nat);
            }
            assert(m.filter(eq_at(0, self.bitlen as nat)) =~= m) by {
                lemma_pow2_pos(self.bitlen as nat);
                lemma_high_zero(0, self.bitlen as nat);
            }
            assert(m.filter(lt_at(0, self.bitlen as nat)) =~= Multiset::empty()) by {
                lemma_pow2_pos(self.bitlen as nat);
                lemma_high_zero(0, self.bitlen as nat);
            }
            if self.bitlen > 0 {
                assert(self.levels@[self.bitlen - 1] == s);
            }
            lemma_prefix_of(0, self.bitlen as nat);
        }
        let mut st = start;
        let mut en = end;
        let mut k = n;
        let mut i = self.bitlen;
        while i > 0
            invariant
                self.wf(),
                s == self.values(),
                0 < s.len(),
                i <= self.bitlen,
                st <= en <= s.len(),
                res.wm_value() == pre * pow2(i as nat),
                high(res.wm_value(), i as nat) == pre,
                en - st == m.filter(eq_at(res.wm_value(), i as nat)).len(),
                i > 0 ==> self.levels@[i - 1].subrange(st as int, en as int).to_multiset() == m.filter(eq_at(res.wm_value(), i as nat)),
                k + m.filter(lt_at(res.wm_value(), i as nat)).len() == n,
                k < en - st,
            decreases i,
        {
            i -= 1;
            let ghost sl = self.levels@[i as int];
            let ghost v = res.wm_value();
            proof {
                assert(self.level_ok(i as int));
                lemma_scaled(pre, i as nat);
                lemma_level_step(sl, i as nat, st as int, en as int, m, v,
                    m.filter(lt_at(v, (i + 1) as nat)).len() as int, m.filter(gt_at(v, (i + 1) as nat)).len() as int);
                lemma_rank_filter(sl, i as nat, st as int);
                lemma_rank_filter(sl, i as nat, en as int);
                if i > 0 {
                    assert(self.levels@[i - 1] == part(self.levels@[i as int], i as nat));
                }
                lemma_part_range(sl, i as nat, st as int, en as int);
            }
            let ghost st0 = st as int;
            let ghost en0 = en as int;
            let z = self.buf[i].count(st, en, 0);
            proof {
                crate::counting::lemma_count_split(|j: int| crate::rs_dict::is_x(self.buf@[i as int]@[j], 0), 0, st as int, en as int);
            }
            if k < z {
                st = self.buf[i].rank(st, 0);
                en = self.buf[i].rank(en, 0);
                proof {
                    pre = 2 * pre;
                    lemma_prefix_of(pre, i as nat);
                    assert forall|x: nat| #[trigger] lt_at(v, i as nat)(x) == lt_at(v, (i + 1) as nat)(x) by {
                        lemma_high_less(x, v, i as nat);
                    }
                    assert(m.filter(lt_at(v, i as nat)) =~= m.filter(lt_at(v, (i + 1) as nat)));
                }
            } else {
                let ghost before = res.wm_value();
                res.set(i);
                st = self.zeros[i] + self.buf[i].rank(st, 1);
                en = self.zeros[i] + self.buf[i].rank(en, 1);
                k -= z;
                proof {
                    let v2 = res.wm_value();
                    assert(v2 == (2 * pre + 1) * pow2(i as nat));
                    pre = 2 * pre + 1;
                    lemma_prefix_of(pre, i as nat);
                    assert(nbit(v2, i as nat)) by {
                        lemma_high_step(v2, i as nat);
                    }
                    assert(high(v2, (i + 1) as nat) == high(v, (i + 1) as nat)) by {
                        lemma_high_step(v2, i as nat);
                        lemma_high_step(v, i as nat);
                    }
                    assert(m.filter(eq_at(v, (i + 1) as nat)) =~= m.filter(eq_at(v2, (i + 1) as nat)));
                    lemma_level_step(sl, i as nat, st0, en0, m, v2,
                        m.filter(lt_at(v2, (i + 1) as nat)).len() as int, m.filter(gt_at(v2, (i + 1) as nat)).len() as int);
                    assert forall|x: nat| #[trigger] eq_at(v2, i as nat)(x) == (eq_at(v, (i + 1) as nat)(x) && nbit(x, i as nat)) by {
                        lemma_high_less(x, v2, i as nat);
                    }
                    assert forall|x: nat| #[trigger] eq_at(v, i as nat)(x) == (eq_at(v, (i + 1) as nat)(x) && !nbit(x, i as nat)) by {
                        lemma_high_less(x, v, i as nat);
                    }
                    assert forall|x: nat| #[trigger] lt_at(v2, i as nat)(x) == (lt_at(v, (i + 1) as nat)(x) || eq_at(v, i as nat)(x)) by {
                        lemma_high_less(x, v2, i as nat);
                        lemma_high_less(x, v, i as nat);
                    }
                    assert(m.filter(eq_at(v2, i as nat)) =~= m.filter(eq_at(v, (i + 1) as nat)).filter(one_at(i as nat)));
                    assert(m.filter(eq_at(v, i as nat)) =~= m.filter(eq_at(v, (i + 1) as nat)).filter(zero_at(i as nat)));
                    lemma_ms_union(m, lt_at(v, (i + 1) as nat), eq_at(v, i as nat), lt_at(v2, i as nat));
                    assert forall|x: nat| !(#[trigger] lt_at(v, (i + 1) as nat)(x) && eq_at(v, i as nat)(x)) by {
                        lemma_high_less(x, v, i as nat);
                    }
                }
            }
        }
        proof {
            let v = res.wm_value();
            lemma_high_none(v);
            assert forall|x: nat| #[trigger] lt_at(v, 0)(x) == (x < v) by {
                lemma_high_none(x);
            }
            assert forall|x: nat| #[trigger] eq_at(v, 0)(x) == (x == v) by {
                lemma_high_none(x);
            }
            assert(m.filter(lt_at(v, 0)) =~= m.filter(|x: nat| x < v));
            assert(m.filter(eq_at(v, 0)) =~= m.filter(|x: nat| x == v));
            lemma_counts_ms(s, v, start as int, end as int);
        }
        Some(res)
    }
}

/// The bitwise exclusive or of two naturals.
pub open spec fn nxor(a: nat, b: nat) -> nat
    decreases a + b,
{
    if a == 0 && b == 0 {
        0
    } else {
        (if a % 2 == b % 2 { 0nat } else { 1nat }) + 2 * nxor(a / 2, b / 2)
    }
}

/// Each value of `s`, exclusive-ored with `x`.
pub open spec fn xored(s: Seq<nat>, x: nat) -> Seq<nat> {
    s.map_values(|y: nat| nxor(y, x))
}

/// The values whose exclusive or with `x`, from bit `k` on, is below that
/// of `r`.
pub open spec fn xlt_at(r: nat, x: nat, k: nat) -> spec_fn(nat) -> bool {
    |y: nat| high(nxor(y, x), k) < high(r, k)
}

/// The lowest bit of an exclusive or, and the rest.
proof fn lemma_nxor_step(a: nat, b: nat)
    ensures
        nxor(a, b) == (if a % 2 == b % 2 { 0nat } else { 1nat }) + 2 * nxor(a / 2, b / 2),
{
    if a == 0 && b == 0 {
        assert(nxor(0, 0) == 0);
    }
}

/// Exclusive or with the same value twice gives the value back.
proof fn lemma_nxor_inv(a: nat, c: nat)
    ensures
        nxor(nxor(a, c), c) == a,
    decreases a + c,
{
    if !(a == 0 && c == 0) {
        let r = nxor(a, c);
        lemma_nxor_step(a, c);
        lemma_nxor_step(r, c);
        lemma_nxor_inv(a / 2, c / 2);
    }
}

/// The bits from `k` on of an exclusive or are the exclusive or of those
/// of its arguments.
proof fn lemma_nxor_high(a: nat, b: nat, k: nat)
    ensures
        high(nxor(a, b), k) == nxor(high(a, k), high(b, k)),
        nbit(nxor(a, b), k) == (nbit(a, k) != nbit(b, k)),
    decreases k,
{
    if k == 0 {
        lemma_high_none(a);
        lemma_high_none(b);
        lemma_high_none(nxor(a, b));
    } else {
        let j = (k - 1) as nat;
        lemma_nxor_high(a, b, j);
        lemma_high_step(nxor(a, b), j);
        lemma_high_step(a, j);
        lemma_high_step(b, j);
        lemma_nxor_step(high(a, j), high(b, j));
    }
    lemma_nxor_step(high(a, k), high(b, k));
}

/// Below bit `b`, the value `x % pow2(b)` has the bits of `x`, and none
/// from `b` on.
proof fn lemma_low_bits(x: nat, b: nat, i: nat)
    requires
        i < b,
    ensures
        nbit(x % pow2(b), i) == nbit(x, i),
        high(x % pow2(b), b) == 0,
{
    let d = pow2(i);
    let e = pow2((b - i) as nat);
    let q = x / pow2(b);
    let r = x % pow2(b);
    lemma_pow2_pos(b);
    lemma_pow2_pos(i);
    vstd::arithmetic::power2::lemma_pow2_adds(i, (b - i) as nat);
    lemma_pow2_unfold((b - i) as nat);
    let h = pow2((b - i - 1) as nat);
    vstd::arithmetic::div_mod::lemma_fundamental_div_mod(x as int, pow2(b) as int);
    vstd::arithmetic::div_mod::lemma_mod_bound(x as int, pow2(b) as int);
    assert(x == r + (q * e) * d) by (nonlinear_arith)
        requires
            x == pow2(b) * q + r,
            pow2(b) == d * e,
    ;
    vstd::arithmetic::div_mod::lemma_hoist_over_denominator(r as int, (q * e) as int, d);
    assert(q * e == 2 * (q * h)) by (nonlinear_arith)
        requires
            e == 2 * h,
    ;
    vstd::arithmetic::div_mod::lemma_mod_multiples_vanish((q * h) as int, (r / d) as int, 2);
    lemma_high_zero(r, b);
}

/// One level down for an exclusive-ored order: below `r` from bit `k`
/// means below from bit `k + 1`, or agreeing with `w` from bit `k + 1` on,
/// with bit `k` that of `x`, where bit `k` of `r` is set.
proof fn lemma_xlt_step(y: nat, w: nat, r: nat, x: nat, k: nat)
    requires
        high(r, k + 1) == nxor(high(w, k + 1), high(x, k + 1)),
    ensures
        xlt_at(r, x, k)(y) == (xlt_at(r, x, k + 1)(y) || (eq_at(w, k + 1)(y) && nbit(y, k) == nbit(x, k) && nbit(r, k))),
        xlt_at(r, x, k + 1)(y) ==> !eq_at(w, k + 1)(y),
{
    lemma_high_less(nxor(y, x), r, k);
    lemma_nxor_high(y, x, k);
    lemma_nxor_high(y, x, k + 1);
    lemma_nxor_inv(high(y, k + 1), high(x, k + 1));
    lemma_nxor_inv(high(w, k + 1), high(x, k + 1));
}

/// One step of the exclusive-ored search: the prefix `pre` of the result
/// grows by the bit `up`, the prefix `wp` of the values followed grows by
/// `up != bx`, where `bx` is bit `i` of `x`; those below the new result are
/// those below the old one, and, where `up`, the values agreeing with the
/// prefix `2 * wp + bx`.
proof fn lemma_xq_step(m: Multiset<nat>, x: nat, i: nat, pre: nat, wp: nat, up: bool)
    requires
        pre == nxor(wp, high(x, i + 1)),
    ensures
        ({
            let bx = nbit(x, i);
            let wz = (2 * wp) * pow2(i);
            let wo = (2 * wp + 1) * pow2(i);
            let w = wp * pow2(i + 1);
            let r0 = pre * pow2(i + 1);
            let pn: nat = if up { 2 * pre + 1 } else { 2 * pre };
            let wpn: nat = if up != bx { 2 * wp + 1 } else { 2 * wp };
            let rn = pn * pow2(i);
            let wsel = if bx { wo } else { wz };
            &&& w == wz
            &&& high(rn, i) == pn
            &&& wpn * pow2(i) == (if up != bx { wo } else { wz })
            &&& high(wpn * pow2(i), i) == wpn
            &&& pn == nxor(wpn, high(x, i))
            &&& m.filter(eq_at(wz, i + 1)) == m.filter(eq_at(wo, i + 1))
            &&& m.filter(eq_at(wz, i + 1)).len() == m.filter(eq_at(wz, i)).len() + m.filter(eq_at(wo, i)).len()
            &&& m.filter(xlt_at(rn, x, i)).len() == m.filter(xlt_at(r0, x, i + 1)).len()
                + (if up { m.filter(eq_at(wsel, i)).len() } else { 0 })
        }),
{
    let bx = nbit(x, i);
    let wz = (2 * wp) * pow2(i);
    let wo = (2 * wp + 1) * pow2(i);
    let r0 = pre * pow2(i + 1);
    let pn: nat = if up { 2 * pre + 1 } else { 2 * pre };
    let wpn: nat = if up != bx { 2 * wp + 1 } else { 2 * wp };
    let rn = pn * pow2(i);
    let wsel = if bx { wo } else { wz };
    lemma_scaled(pre, i);
    lemma_scaled(wp, i);
    lemma_prefix_of(pn, i);
    lemma_prefix_of(2 * wp, i);
    lemma_prefix_of(2 * wp + 1, i);
    lemma_prefix_of(pre, i + 1);
    lemma_prefix_of(wp, i + 1);
    lemma_high_step(rn, i);
    lemma_high_step(wz, i);
    lemma_high_step(wo, i);
    lemma_high_step(x, i);
    lemma_nxor_step(wpn, high(x, i));
    assert(high(rn, i + 1) == pre);
    assert(high(wo, i + 1) == wp);
    assert(nbit(rn, i) == up);
    assert forall|y: nat| #[trigger] eq_at(wz, i + 1)(y) == eq_at(wo, i + 1)(y) by {}
    assert(m.filter(eq_at(wz, i + 1)) =~= m.filter(eq_at(wo, i + 1)));
    assert forall|y: nat| #[trigger] eq_at(wz, i)(y) == (eq_at(wz, i + 1)(y) && !nbit(y, i)) by {
        lemma_high_less(y, wz, i);
    }
    assert forall|y: nat| #[trigger] eq_at(wo, i)(y) == (eq_at(wz, i + 1)(y) && nbit(y, i)) by {
        lemma_high_less(y, wo, i);
    }
    lemma_ms_union(m, eq_at(wz, i), eq_at(wo, i), eq_at(wz, i + 1));
    assert forall|y: nat| #[trigger] xlt_at(rn, x, i + 1)(y) == xlt_at(r0, x, i + 1)(y) by {}
    assert forall|y: nat| #[trigger] xlt_at(rn, x, i)(y) == (xlt_at(r0, x, i + 1)(y) || (up && eq_at(wsel, i)(y))) by {
        lemma_xlt_step(y, wz, rn, x, i);
    }
    if up {
        assert forall|y: nat| !(#[trigger] xlt_at(r0, x, i + 1)(y) && eq_at(wsel, i)(y)) by {
            lemma_xlt_step(y, wz, rn, x, i);
        }
        lemma_ms_union(m, xlt_at(r0, x, i + 1), eq_at(wsel, i), xlt_at(rn, x, i));
    } else {
        assert(m.filter(xlt_at(rn, x, i)) =~= m.filter(xlt_at(r0, x, i + 1)));
    }
}

impl<I: WmInt> WaveletMatrix<I> {
    /// The number of bits that the largest value needs.
    pub closed spec fn width(&self) -> nat {
        self.bitlen as nat
    }

    /// Every value fits in `width()` bits, and some value needs the top
    /// one of them.
    pub proof fn lemma_width(&self)
        requires
            self.wf(),
        ensures
            forall|j: int| 0 <= j < self.values().len() ==> #[trigger] self.values()[j] < pow2(self.width()),
            self.width() > 0 ==> exists|j: int| 0 <= j < self.values().len() && pow2((self.width() - 1) as nat) <= #[trigger] self.values()[j],
    {
        reveal(top_used);
    }

    /// The `n`-th smallest (counting from `0`) of the values in
    /// `start..end`, each exclusive-ored with `x`, of which only the bits
    /// below `width()` count; `None` where the range holds no more than `n`
    /// values.
    pub fn xored_quantile(&self, start: usize, end: usize, n: usize, x: I) -> (r: Option<I>)
        requires
            self.wf(),
            start <= end <= self.values().len(),
        ensures
            r is None <==> end - start <= n,
            r matches Some(v) ==> ({
                let t = xored(self.values(), x.wm_value() % pow2(self.width()));
                &&& count_lt(t, v.wm_value(), start as int, end as int) <= n
                &&& n < count_lt(t, v.wm_value(), start as int, end as int) + count_eq(t, v.wm_value(), start as int, end as int)
            }),
    {
        if end - start <= n {
            return None;
        }
        let ghost s = self.values();
        let ghost m = s.subrange(start as int, end as int).to_multiset();
        let ghost xl: nat = x.wm_value() % pow2(self.bitlen as nat);
        let mut res = I::zero();
        let ghost mut pre: nat = 0;
        let ghost mut wp: nat = 0;
        let ghost mut w: nat = 0;
        proof {
            let o = s.subrange(start as int, end as int);
            assert forall|y: nat| #[trigger] m.count(y) > 0 implies high(y, self.bitlen as nat) == 0 by {
                assert(o.contains(y));
                let p = choose|p: int| 0 <= p < o.len() && o[p] == y;
                assert(s[start + p] == y);
                lemma_high_zero(y, self.bitlen as nat);
            }
            lemma_pow2_pos(self.bitlen as nat);
            lemma_high_zero(0, self.bitlen as nat);
            vstd::arithmetic::div_mod::lemma_mod_bound(x.wm_value() as int, pow2(self.bitlen as nat) as int);
            lemma_high_zero(xl, self.bitlen as nat);
            assert(nxor(0, 0) == 0);
            assert(m.filter(eq_at(0, self.bitlen as nat)) =~= m);
            assert(m.filter(xlt_at(0, xl, self.bitlen as nat)) =~= Multiset::empty());
            if self.bitlen > 0 {
                assert(self.levels@[self.bitlen - 1] == s);
            }
            lemma_prefix_of(0, self.bitlen as nat);
        }
        let mut st = start;
        let mut en = end;
        let mut k = n;
        let mut i = self.bitlen;
        while i > 0
            invariant
                self.wf(),
                s == self.values(),
                0 < s.len(),
                i <= self.bitlen,
                st <= en <= s.len(),
                xl == x.wm_value() % pow2(self.bitlen as nat),
                res.wm_value() == pre * pow2(i as nat),
                high(res.wm_value(), i as nat) == pre,
                w == wp * pow2(i as nat),
                high(w, i as nat) == wp,
                pre == nxor(wp, high(xl, i as nat)),
                en - st == m.filter(eq_at(w, i as nat)).len(),
                i > 0 ==> self.levels@[i - 1].subrange(st as int, en as int).to_multiset() == m.filter(eq_at(w, i as nat)),
                k + m.filter(xlt_at(res.wm_value(), xl, i as nat)).len() == n,
                k < en - st,
            decreases i,
        {
            i -= 1;
            let ghost sl = self.levels@[i as int];
            let ghost wz = (2 * wp) * pow2(i as nat);
            let ghost wo = (2 * wp + 1) * pow2(i as nat);
            let bx = x.test(i);
            proof {
                lemma_low_bits(x.wm_value(), self.bitlen as nat, i as nat);
                lemma_scaled(pre, i as nat);
                lemma_xq_step(m, xl, i as nat, pre, wp, false);
                lemma_xq_step(m, xl, i as nat, pre, wp, true);
                assert(self.level_ok(i as int));
                lemma_level_step(sl, i as nat, st as int, en as int, m, wz,
                    m.filter(lt_at(wz, (i + 1) as nat)).len() as int, m.filter(gt_at(wz, (i + 1) as nat)).len() as int);
                lemma_level_step(sl, i as nat, st as int, en as int, m, wo,
                    m.filter(lt_at(wo, (i + 1) as nat)).len() as int, m.filter(gt_at(wo, (i + 1) as nat)).len() as int);
                lemma_rank_filter(sl, i as nat, st as int);
                lemma_rank_filter(sl, i as nat, en as int);
                if i > 0 {
                    assert(self.levels@[i - 1] == part(self.levels@[i as int], i as nat));
                }
                lemma_part_range(sl, i as nat, st as int, en as int);
            }
            let z = self.buf[i].count(st, en, 0);
            proof {
                crate::counting::lemma_count_split(|j: int| crate::rs_dict::is_x(self.buf@[i as int]@[j], 0), 0, st as int, en as int);
            }
            let ghost up: bool;
            if !bx {
                if k < z {
                    st = self.buf[i].rank(st, 0);
                    en = self.buf[i].rank(en, 0);
                    proof { up = false; }
                } else {
                    res.set(i);
                    st = self.zeros[i] + self.buf[i].rank(st, 1);
                    en = self.zeros[i] + self.buf[i].rank(en, 1);
                    k -= z;
                    proof { up = true; }
                }
            } else {
                let zo = (en - st) - z;
                if k < zo {
                    st = self.zeros[i] + self.buf[i].rank(st, 1);
                    en = self.zeros[i] + self.buf[i].rank(en, 1);
                    proof { up = false; }
                } else {
                    res.set(i);
                    st = self.buf[i].rank(st, 0);
                    en = self.buf[i].rank(en, 0);
                    k -= zo;
                    proof { up = true; }
                }
            }
            proof {
                pre = if up { 2 * pre + 1 } else { 2 * pre };
                wp = if up != bx { 2 * wp + 1 } else { 2 * wp };
                w = wp * pow2(i as nat);
            }
        }
        proof {
            let v = res.wm_value();
            let t = xored(s, xl);
            lemma_high_none(v);
            lemma_high_none(w);
            lemma_high_none(xl);
            assert forall|y: nat| #[trigger] xlt_at(v, xl, 0)(y) == (nxor(y, xl) < v) by {
                lemma_high_none(nxor(y, xl));
            }
            assert forall|y: nat| #[trigger] eq_at(w, 0)(y) == (nxor(y, xl) == v) by {
                lemma_high_none(y);
                lemma_nxor_inv(y, xl);
                lemma_nxor_inv(w, xl);
            }
            let f = |y: nat| nxor(y, xl) < v;
            let g = |y: nat| nxor(y, xl) == v;
            assert(m.filter(xlt_at(v, xl, 0)) =~= m.filter(f));
            assert(m.filter(eq_at(w, 0)) =~= m.filter(g));
            lemma_count_ms(s, f, start as int, end as int);
            lemma_count_ms(s, g, start as int, end as int);
            crate::counting::lemma_count_same(|p: int| f(s[p]), at_lt(t, v), start as int, end as int);
            crate::counting::lemma_count_same(|p: int| g(s[p]), at_eq(t, v), start as int, end as int);
        }
        Some(res)
    }
}

/// Partitioning by a bit keeps the values.
proof fn lemma_ms_part(s: Seq<nat>, k: nat)
    ensures
        part(s, k).to_multiset() =~= s.to_multiset(),
        part(s, k).len() == s.len(),
{
    vstd::seq_lib::lemma_multiset_commutative(s.filter(zero_at(k)), s.filter(one_at(k)));
    lemma_ms_filter(s, zero_at(k));
    lemma_ms_filter(s, one_at(k));
    lemma_ms_split(s.to_multiset(), zero_at(k), one_at(k));
    lemma_filter_split(s, zero_at(k), one_at(k));
}

/// The `n`-th occurrence of `v` (counting from `1`) ends the prefix `q` of
/// the partition of `s` by bit `k`; in `s` it ends the prefix just past the
/// `q`-th value with the bit unset, or the `q - z`-th with it set, where
/// `z` values have it unset.
proof fn lemma_up(s: Seq<nat>, k: nat, v: nat, q: int, n: int, q2: int)
    requires
        1 <= q <= s.len(),
        part(s, k)[q - 1] == v,
        count_eq(part(s, k), v, 0, q) == n,
        0 < q2 <= s.len(),
        !nbit(v, k) ==> count_x(level_bits(s, k), 0, 0, q2) == q && !level_bits(s, k)[q2 - 1],
        nbit(v, k) ==> count_x(level_bits(s, k), 1, 0, q2) == q - s.filter(zero_at(k)).len() && level_bits(s, k)[q2 - 1],
    ensures
        s[q2 - 1] == v,
        count_eq(s, v, 0, q2) == n,
        !nbit(v, k) ==> q <= s.filter(zero_at(k)).len(),
        nbit(v, k) ==> q > s.filter(zero_at(k)).len(),
{
    reveal(Seq::filter);
    let t = part(s, k);
    let f0 = zero_at(k);
    let f1 = one_at(k);
    let z = s.filter(f0).len() as int;
    lemma_filter_split(s, f0, f1);
    lemma_rank_filter(s, k, q2);
    assert(s =~= s.take(q2) + s.skip(q2));
    Seq::filter_distributes_over_add(s.take(q2), s.skip(q2), f0);
    Seq::filter_distributes_over_add(s.take(q2), s.skip(q2), f1);
    assert(s.take(q2) =~= s.take(q2 - 1).push(s[q2 - 1]));
    lemma_counts_ms(t, v, 0, q);
    lemma_counts_ms(s, v, 0, q2);
    let g = |x: nat| x == v;
    if !nbit(v, k) {
        // the values equal to `v` have bit `k` unset
        if q - 1 >= z {
            assert(t[q - 1] == s.filter(f1)[q - 1 - z]);
            assert(f1(s.filter(f1)[q - 1 - z]));
        }
        assert(t.subrange(0, q) =~= s.take(q2).filter(f0));
        assert(s[q2 - 1] == s.take(q2).filter(f0).last());
        lemma_ms_filter(s.take(q2), f0);
        assert(s.take(q2).to_multiset().filter(g) =~= s.take(q2).to_multiset().filter(f0).filter(g));
        assert(s.subrange(0, q2) =~= s.take(q2));
    } else {
        if q - 1 < z {
            assert(t[q - 1] == s.filter(f0)[q - 1]);
            assert(f0(s.filter(f0)[q - 1]));
        }
        assert(t.subrange(z, q) =~= s.take(q2).filter(f1));
        assert(s[q2 - 1] == s.take(q2).filter(f1).last());
        lemma_ms_filter(s.take(q2), f1);
        assert(s.take(q2).to_multiset().filter(g) =~= s.take(q2).to_multiset().filter(f1).filter(g));
        assert(s.subrange(0, q2) =~= s.take(q2));
        // no value before `z` in `t` equals `v`
        lemma_counts_ms(t, v, 0, z);
        lemma_ms_filter(s, f0);
        assert(t.subrange(0, z) =~= s.filter(f0));
        assert(s.filter(f0).to_multiset().filter(g) =~= Multiset::empty());
        crate::counting::lemma_count_split(at_eq(t, v), 0, z, q);
        lemma_counts_ms(t, v, z, q);
    }
}

/// A block `st..en` of `t` holding only `v`, and every `v` of `t`: the
/// `n`-th `v` (from `1`) ends the prefix `st + n`.
proof fn lemma_block(t: Seq<nat>, v: nat, st: int, en: int, n: int)
    requires
        0 <= st <= en <= t.len(),
        forall|j: int| st <= j < en ==> #[trigger] t[j] == v,
        count_eq(t, v, 0, t.len() as int) == en - st,
        1 <= n <= en - st,
    ensures
        t[st + n - 1] == v,
        count_eq(t, v, 0, st + n) == n,
{
    let f = at_eq(t, v);
    lemma_count_all(f, st, en);
    lemma_count_all(f, st, st + n);
    crate::counting::lemma_count_split(f, 0, st, t.len() as int);
    crate::counting::lemma_count_split(f, st, en, t.len() as int);
    crate::counting::lemma_count_split(f, 0, st, st + n);
}

impl<I: WmInt> WaveletMatrix<I> {
    /// Every level holds the values, reordered.
    proof fn lemma_levels_ms(&self, k: int)
        requires
            self.wf(),
            0 <= k < self.bitlen,
        ensures
            self.levels@[k].to_multiset() == self.values().to_multiset(),
        decreases self.bitlen - k,
    {
        if k < self.bitlen - 1 {
            self.lemma_levels_ms(k + 1);
            lemma_ms_part(self.levels@[k + 1], (k + 1) as nat);
            assert(self.levels@[k] == part(self.levels@[k + 1], (k + 1) as nat));
        }
    }

    /// Where, in level `0`, the values that agree with `value` from bit `1`
    /// on begin.
    fn start_pos(&self, value: I) -> (st: usize)
        requires
            self.wf(),
            self.bitlen > 0,
            0 < self.values().len(),
            value.wm_value() < pow2(self.bitlen as nat),
        ensures
            exists|en: int| st <= en <= self.values().len()
                && self.levels@[0].subrange(st as int, en).to_multiset() == self.values().to_multiset().filter(eq_at(value.wm_value(), 1)),
    {
        let ghost v = value.wm_value();
        let ghost m = self.values().to_multiset();
        let ghost mut en_g: int = self.len as int;
        proof {
            lemma_high_zero(v, self.bitlen as nat);
            assert forall|x: nat| #[trigger] m.count(x) > 0 implies eq_at(v, self.bitlen as nat)(x) by {
                assert(self.values().contains(x));
                let p = choose|p: int| 0 <= p < self.values().len() && self.values()[p] == x;
                lemma_high_zero(x, self.bitlen as nat);
            }
            assert(m.filter(eq_at(v, self.bitlen as nat)) =~= m);
            assert(self.levels@[self.bitlen - 1] == self.values());
            assert(self.values().subrange(0, self.len as int) =~= self.values());
        }
        let mut start: usize = 0;
        let mut end: usize = 0;
        let mut i = self.bitlen;
        while i > 1
            invariant
                self.wf(),
                m == self.values().to_multiset(),
                v == value.wm_value(),
                0 < self.values().len(),
                1 <= i <= self.bitlen,
                start <= en_g <= self.values().len(),
                end <= self.values().len(),
                self.levels@[i - 1].subrange(start as int, en_g).to_multiset() == m.filter(eq_at(v, i as nat)),
            decreases i,
        {
            i -= 1;
            let ghost sl = self.levels@[i as int];
            proof {
                assert(self.level_ok(i as int));
                lemma_level_step(sl, i as nat, start as int, en_g, m, v,
                    m.filter(lt_at(v, (i + 1) as nat)).len() as int, m.filter(gt_at(v, (i + 1) as nat)).len() as int);
                lemma_rank_filter(sl, i as nat, start as int);
                lemma_rank_filter(sl, i as nat, en_g);
                lemma_rank_filter(sl, i as nat, end as int);
                lemma_part_range(sl, i as nat, end as int, end as int);
                assert(self.levels@[i - 1] == part(sl, i as nat));
                let z = sl.filter(zero_at(i as nat)).len() as int;
                en_g = if nbit(v, i as nat) {
                    z + sl.take(en_g).filter(one_at(i as nat)).len()
                } else {
                    sl.take(en_g).filter(zero_at(i as nat)).len() as int
                };
            }
            if !value.test(i) {
                start = self.buf[i].rank(start, 0);
                end = self.buf[i].rank(end, 0);
            } else {
                start = self.zeros[i] + self.buf[i].rank(start, 1);
                end = self.zeros[i] + self.buf[i].rank(end, 1);
            }
        }
        start
    }

    /// Where the prefix with `n` occurrences of `value` ends: `0` for
    /// `n == 0`, else just past the `n`-th occurrence (counting from `1`);
    /// `None` where there are fewer than `n`.
    pub fn select(&self, value: I, n: usize) -> (r: Option<usize>)
        requires
            self.wf(),
            0 < n <= count_eq(self.values(), value.wm_value(), 0, self.values().len() as int) ==>
                exists|j: int| 0 <= j < self.values().len() && #[trigger] self.values()[j] != 0,
        ensures
            r is None <==> count_eq(self.values(), value.wm_value(), 0, self.values().len() as int) < n,
            r matches Some(p) ==> p <= self.values().len() && count_eq(self.values(), value.wm_value(), 0, p as int) == n,
            r matches Some(p) ==> (n == 0 ==> p == 0) && (n > 0 ==> self.values()[p - 1] == value.wm_value()),
    {
        if n == 0 {
            return Some(0);
        }
        let ghost vs = self.values();
        let ghost v = value.wm_value();
        let ghost m = vs.to_multiset();
        let (lt, gt) = self.count_3way_internal(0, self.len, value);
        proof {
            lemma_three_ways(vs, v, 0, self.len as int);
        }
        let count = self.len - (lt + gt);
        if count < n {
            return None;
        }
        proof {
            reveal(top_used);
            let j = choose|j: int| 0 <= j < vs.len() && #[trigger] vs[j] != 0;
            if self.bitlen == 0 {
                vstd::arithmetic::power2::lemma2_to64();
                assert(vs[j] < pow2(0));
            }
            // some value equals `v`, so it is below `pow2(bitlen)`
            if !(exists|p: int| 0 <= p < vs.len() && vs[p] == v) {
                lemma_count_none(at_eq(vs, v), 0, vs.len() as int);
            }
            let p = choose|p: int| 0 <= p < vs.len() && vs[p] == v;
            assert(vs[p] < pow2(self.bitlen as nat));
        }
        let si = self.start_pos(value);
        let bit0 = value.test(0);
        let value0: u64 = if bit0 { 1 } else { 0 };
        let ghost s0 = self.levels@[0];
        let ghost t = part(s0, 0);
        proof {
            assert(self.level_ok(0));
            let en = choose|en: int| si <= en <= vs.len()
                && self.levels@[0].subrange(si as int, en).to_multiset() == m.filter(eq_at(v, 1));
            lemma_level_step(s0, 0, si as int, en, m, v,
                m.filter(lt_at(v, 1)).len() as int, m.filter(gt_at(v, 1)).len() as int);
            lemma_rank_filter(s0, 0, si as int);
            let z = s0.filter(zero_at(0)).len() as int;
            let st2: int = if nbit(v, 0) { z + s0.take(si as int).filter(one_at(0)).len() } else { s0.take(si as int).filter(zero_at(0)).len() as int };
            let en2: int = if nbit(v, 0) { z + s0.take(en).filter(one_at(0)).len() } else { s0.take(en).filter(zero_at(0)).len() as int };
            lemma_ms_part(s0, 0);
            assert(0 <= st2 <= en2 <= t.len());
            // the block holds only `v`, and all of them
            assert forall|x: nat| #[trigger] eq_at(v, 0)(x) == (x == v) by {
                lemma_high_none(x);
                lemma_high_none(v);
            }
            assert forall|j: int| st2 <= j < en2 implies #[trigger] t[j] == v by {
                let b = t.subrange(st2, en2);
                assert(b[j - st2] == t[j]);
                assert(b.to_multiset().count(t[j]) > 0);
            }
            self.lemma_levels_ms(0);
            lemma_ms_part(s0, 0);
            lemma_counts_ms(t, v, 0, t.len() as int);
            assert(t.subrange(0, t.len() as int) =~= t);
            assert(m.filter(eq_at(v, 0)) =~= m.filter(|x: nat| x == v));
            lemma_counts_ms(vs, v, 0, vs.len() as int);
            assert(vs.subrange(0, vs.len() as int) =~= vs);
            assert(n <= en2 - st2);
            lemma_block(t, v, st2, en2, n as int);
            lemma_rank_filter(s0, 0, s0.len() as int);
            assert(s0.take(s0.len() as int) =~= s0);
            lemma_filter_split(s0, zero_at(0), one_at(0));
        }
        let mut q = n + self.buf[0].rank(si, value0);
        proof {
            lemma_rank_filter(s0, 0, si as int);
        }
        q = self.buf[0].select(value0, q).unwrap();
        proof {
            lemma_rank_filter(s0, 0, q as int);
            let z = s0.filter(zero_at(0)).len() as int;
            let st2: int = if nbit(v, 0) { z + s0.take(si as int).filter(one_at(0)).len() } else { s0.take(si as int).filter(zero_at(0)).len() as int };
            lemma_up(s0, 0, v, st2 + n, n as int, q as int);
        }
        let mut i: usize = 1;
        while i < self.bitlen
            invariant
                self.wf(),
                vs == self.values(),
                v == value.wm_value(),
                1 <= i <= self.bitlen,
                1 <= q <= vs.len(),
                self.levels@[i - 1][q - 1] == v,
                count_eq(self.levels@[i - 1], v, 0, q as int) == n,
            decreases self.bitlen - i,
        {
            let ghost sl = self.levels@[i as int];
            let ghost q0 = q;
            proof {
                assert(self.level_ok(i as int));
                assert(self.levels@[i - 1] == part(sl, i as nat));
                lemma_ms_part(sl, i as nat);
            }
            proof {
                lemma_filter_split(sl, zero_at(i as nat), one_at(i as nat));
                lemma_rank_filter(sl, i as nat, sl.len() as int);
                assert(sl.take(sl.len() as int) =~= sl);
            }
            if !value.test(i) {
                proof {
                    let z = sl.filter(zero_at(i as nat)).len() as int;
                    if q0 > z {
                        let t = part(sl, i as nat);
                        assert(t[q0 - 1] == sl.filter(one_at(i as nat))[q0 - 1 - z]);
                        assert(one_at(i as nat)(sl.filter(one_at(i as nat))[q0 - 1 - z]));
                    }
                }
                q = self.buf[i].select(0, q).unwrap();
            } else {
                proof {
                    if q0 <= sl.filter(zero_at(i as nat)).len() {
                        let t = part(sl, i as nat);
                        assert(t[q0 - 1] == sl.filter(zero_at(i as nat))[q0 - 1]);
                        assert(zero_at(i as nat)(sl.filter(zero_at(i as nat))[q0 - 1]));
                    }
                }
                q -= self.zeros[i];
                q = self.buf[i].select(1, q).unwrap();
            }
            proof {
                lemma_rank_filter(sl, i as nat, q as int);
                lemma_up(sl, i as nat, v, q0 as int, n as int, q as int);
            }
            i += 1;
        }
        proof {
            assert(self.levels@[self.bitlen - 1] == vs);
        }
        Some(q)
    }

    /// The position of the `n`-th occurrence of `value` (counting from `0`)
    /// from `start` on; `None` where there are no more than `n` there.
    pub fn find_nth(&self, start: usize, value: I, n: usize) -> (r: Option<usize>)
        requires
            self.wf(),
            start <= self.values().len(),
            n + start < usize::MAX,
            n < count_eq(self.values(), value.wm_value(), start as int, self.values().len() as int) ==>
                exists|j: int| 0 <= j < self.values().len() && #[trigger] self.values()[j] != 0,
        ensures
            r is None <==> count_eq(self.values(), value.wm_value(), start as int, self.values().len() as int) <= n,
            r matches Some(p) ==> start <= p < self.values().len() && self.values()[p as int] == value.wm_value()
                && count_eq(self.values(), value.wm_value(), start as int, p as int) == n,
    {
        let ghost vs = self.values();
        let ghost v = value.wm_value();
        let ghost f = at_eq(vs, v);
        let (lt, gt) = self.count_3way_internal(0, start, value);
        proof {
            lemma_three_ways(vs, v, 0, start as int);
            crate::counting::lemma_count_split(f, 0, start as int, vs.len() as int);
        }
        let offset = start - (lt + gt);
        match self.select(value, n + offset + 1) {
            Some(q) => {
                let p = q - 1;
                proof {
                    assert(count_eq(vs, v, 0, (p + 1) as int) == count_eq(vs, v, 0, p as int) + 1) by {
                        assert(f(p as int));
                    }
                    if p < start {
                        lemma_count_mono_at(f, 0, (p + 1) as int, start as int);
                    }
                    crate::counting::lemma_count_split(f, 0, start as int, p as int);
                }
                Some(p)
            },
            None => None,
        }
    }
}

/// Counting can only grow with the range.
proof fn lemma_count_mono_at(f: spec_fn(int) -> bool, lo: int, a: int, b: int)
    requires
        lo <= a <= b,
    ensures
        crate::counting::count_of(f, lo, a) <= crate::counting::count_of(f, lo, b),
{
    crate::counting::lemma_count_split(f, lo, a, b);
}

} // verus!
