//! Algebraic structures: the laws a binary operation obeys, stated over
//! its specification and proved by every implementation.
use vstd::prelude::*;

verus! {

/// A magma: a set `M` with a binary operation `op` closed on it.
pub trait Magma {
    /// The carrier set.
    type Set;

    /// What `op` computes.
    spec fn op_spec(x: Self::Set, y: Self::Set) -> Self::Set;

    /// Returns `x ∘ y`.
    fn op(x: Self::Set, y: Self::Set) -> (r: Self::Set)
        ensures
            r == Self::op_spec(x, y),
    ;
}

/// The operation is associative: `(x ∘ y) ∘ z = x ∘ (y ∘ z)`.
pub trait Associative: Magma {
    proof fn associative_law(x: Self::Set, y: Self::Set, z: Self::Set)
        ensures
            Self::op_spec(Self::op_spec(x, y), z) == Self::op_spec(x, Self::op_spec(y, z)),
    ;
}

/// The operation has an identity `e`: `x ∘ e = e ∘ x = x`.
pub trait Identity: Magma {
    /// The identity element.
    spec fn id_spec() -> Self::Set;

    /// Returns the identity element.
    fn id() -> (e: Self::Set)
        ensures
            e == Self::id_spec(),
    ;

    proof fn identity_law(x: Self::Set)
        ensures
            Self::op_spec(x, Self::id_spec()) == x,
            Self::op_spec(Self::id_spec(), x) == x,
    ;
}

/// The operation is commutative: `x ∘ y = y ∘ x`.
pub trait Commutative: Magma {
    proof fn commutative_law(x: Self::Set, y: Self::Set)
        ensures
            Self::op_spec(x, y) == Self::op_spec(y, x),
    ;
}

/// Some elements have an inverse.
pub trait PartialRecip: Magma {
    /// The inverse of `x`, where it has one.
    spec fn partial_recip_spec(x: Self::Set) -> Option<Self::Set>;

    fn partial_recip(x: Self::Set) -> (r: Option<Self::Set>)
        ensures
            r == Self::partial_recip_spec(x),
    ;
}

/// Every element has an inverse.
pub trait Recip: PartialRecip {
    proof fn recip_total(x: Self::Set)
        ensures
            Self::partial_recip_spec(x) is Some,
    ;

    /// Returns the inverse of `x`.
    fn recip(x: Self::Set) -> (r: Self::Set)
        ensures
            Self::partial_recip_spec(x) == Some(r),
    {
        proof {
            Self::recip_total(x);
        }
        Self::partial_recip(x).unwrap()
    }
}

/// The operation of `Self` distributes over that of `A`:
/// `x * (y + z) = x * y + x * z` and `(y + z) * x = y * x + z * x`.
pub trait Distributive<A: Magma<Set = Self::Set>>: Magma {
    proof fn distributive_law(x: Self::Set, y: Self::Set, z: Self::Set)
        ensures
            Self::op_spec(x, A::op_spec(y, z)) == A::op_spec(Self::op_spec(x, y), Self::op_spec(x, z)),
            Self::op_spec(A::op_spec(y, z), x) == A::op_spec(Self::op_spec(y, x), Self::op_spec(z, x)),
    ;
}

/// A semigroup.
pub trait Semigroup: Magma {}

impl<G: Magma> Semigroup for G {}

/// A monoid: a semigroup with an identity.
pub trait Monoid: Identity + Semigroup {}

impl<G: Identity + Semigroup> Monoid for G {}

/// A commutative monoid.
pub trait CommutativeMonoid: Commutative + Monoid {}

impl<G: Commutative + Monoid> CommutativeMonoid for G {}

/// A group: a monoid in which every element has an inverse.
pub trait Group: Monoid + Recip {}

impl<G: Monoid + Recip> Group for G {}

/// A commutative group.
pub trait CommutativeGroup: Commutative + Monoid + Recip {}

impl<G: Commutative + Monoid + Recip> CommutativeGroup for G {}

/// A ring: `(R, +, 0)` is a commutative group, `(R, *, 1)` a monoid, and
/// `*` distributes over `+`.
pub trait Ring {
    type Set;
    type Additive: CommutativeGroup<Set = Self::Set>;
    type Multiplicative: Monoid<Set = Self::Set> + Distributive<Self::Additive>;

    /// Returns `x + y`.
    fn add(x: Self::Set, y: Self::Set) -> (r: Self::Set)
        ensures
            r == <Self::Additive as Magma>::op_spec(x, y),
    {
        <Self::Additive as Magma>::op(x, y)
    }

    /// Returns `0`.
    fn zero() -> (r: Self::Set)
        ensures
            r == <Self::Additive as Identity>::id_spec(),
    {
        <Self::Additive as Identity>::id()
    }

    /// Returns `-x`.
    fn neg(x: Self::Set) -> (r: Self::Set)
        ensures
            <Self::Additive as PartialRecip>::partial_recip_spec(x) == Some(r),
    {
        <Self::Additive as Recip>::recip(x)
    }

    /// Returns `x * y`.
    fn mul(x: Self::Set, y: Self::Set) -> (r: Self::Set)
        ensures
            r == <Self::Multiplicative as Magma>::op_spec(x, y),
    {
        <Self::Multiplicative as Magma>::op(x, y)
    }

    /// Returns `1`.
    fn one() -> (r: Self::Set)
        ensures
            r == <Self::Multiplicative as Identity>::id_spec(),
    {
        <Self::Multiplicative as Identity>::id()
    }
}


/// A commutative ring: a ring whose multiplication is commutative.
pub trait CommutativeRing: Ring where Self::Multiplicative: Commutative {}

/// A field: a ring in which every element but `0` has a multiplicative
/// inverse.
pub trait Field: Ring where Self::Multiplicative: PartialRecip {
    proof fn nonzero_has_recip(x: Self::Set)
        requires
            x != <Self::Additive as Identity>::id_spec(),
        ensures
            <Self::Multiplicative as PartialRecip>::partial_recip_spec(x) is Some,
    ;

    /// Returns the multiplicative inverse of `x`, which must not be `0`.
    fn recip(x: Self::Set) -> (r: Self::Set)
        requires
            x != <Self::Additive as Identity>::id_spec(),
        ensures
            <Self::Multiplicative as PartialRecip>::partial_recip_spec(x) == Some(r),
    {
        proof {
            Self::nonzero_has_recip(x);
        }
        <Self::Multiplicative as PartialRecip>::partial_recip(x).unwrap()
    }
}

/// The additive identity `0` of a type.
pub trait Zero: Sized {
    spec fn zero_spec() -> Self;

    fn zero() -> (r: Self)
        ensures
            r == Self::zero_spec(),
    ;
}

/// Addition on the type is associative.
pub trait AddAssoc: Sized {}

/// Addition on the type is commutative.
pub trait AddComm: Sized {}

/// The multiplicative identity `1` of a type.
pub trait One: Sized {
    spec fn one_spec() -> Self;

    fn one() -> (r: Self)
        ensures
            r == Self::one_spec(),
    ;
}

/// The multiplicative inverse on a type.
pub trait MulRecip {
    type Output;

    fn mul_recip(self) -> Self::Output;
}

/// Multiplication on the type is associative.
pub trait MulAssoc: Sized {}

/// Multiplication on the type is commutative.
pub trait MulComm: Sized {}

/// The additive structure of a number type.
pub struct Additive<T> {
    _t: core::marker::PhantomData<T>,
}

/// The multiplicative structure of a number type.
pub struct Multiplicative<T> {
    _t: core::marker::PhantomData<T>,
}

/// `2^64`, the modulus of arithmetic on `u64`.
pub open spec fn u64_modulus() -> int {
    0x1_0000_0000_0000_0000
}

/// Addition on `u64` modulo `2^64`.
pub open spec fn u64_add(x: u64, y: u64) -> u64 {
    ((x as int + y as int) % u64_modulus()) as u64
}

/// Multiplication on `u64` modulo `2^64`.
pub open spec fn u64_mul(x: u64, y: u64) -> u64 {
    ((x as int * y as int) % u64_modulus()) as u64
}

/// Negation on `u64` modulo `2^64`.
pub open spec fn u64_neg(x: u64) -> u64 {
    ((u64_modulus() - x as int) % u64_modulus()) as u64
}

impl Zero for u64 {
    open spec fn zero_spec() -> Self {
        0
    }

    fn zero() -> (r: Self) {
        0
    }
}

impl One for u64 {
    open spec fn one_spec() -> Self {
        1
    }

    fn one() -> (r: Self) {
        1
    }
}

impl AddAssoc for u64 {}

impl AddComm for u64 {}

impl MulAssoc for u64 {}

impl MulComm for u64 {}

impl Magma for Additive<u64> {
    type Set = u64;

    open spec fn op_spec(x: u64, y: u64) -> u64 {
        u64_add(x, y)
    }

    fn op(x: u64, y: u64) -> (r: u64) {
        x.wrapping_add(y)
    }
}

impl Associative for Additive<u64> {
    proof fn associative_law(x: u64, y: u64, z: u64) {
    }
}

impl Commutative for Additive<u64> {
    proof fn commutative_law(x: u64, y: u64) {
    }
}

impl Identity for Additive<u64> {
    open spec fn id_spec() -> u64 {
        0
    }

    fn id() -> (e: u64) {
        0
    }

    proof fn identity_law(x: u64) {
    }
}

impl PartialRecip for Additive<u64> {
    open spec fn partial_recip_spec(x: u64) -> Option<u64> {
        Some(u64_neg(x))
    }

    fn partial_recip(x: u64) -> (r: Option<u64>) {
        Some(0u64.wrapping_sub(x))
    }
}

impl Recip for Additive<u64> {
    proof fn recip_total(x: u64) {
    }
}

impl Magma for Multiplicative<u64> {
    type Set = u64;

    open spec fn op_spec(x: u64, y: u64) -> u64 {
        u64_mul(x, y)
    }

    fn op(x: u64, y: u64) -> (r: u64) {
        x.wrapping_mul(y)
    }
}

impl Associative for Multiplicative<u64> {
    proof fn associative_law(x: u64, y: u64, z: u64) {
        let m = u64_modulus();
        let xy = x as int * y as int;
        let yz = y as int * z as int;
        vstd::arithmetic::div_mod::lemma_mul_mod_noop_left(xy, z as int, m);
        vstd::arithmetic::div_mod::lemma_mul_mod_noop_right(x as int, yz, m);
        vstd::arithmetic::mul::lemma_mul_is_associative(x as int, y as int, z as int);
    }
}

impl Commutative for Multiplicative<u64> {
    proof fn commutative_law(x: u64, y: u64) {
        vstd::arithmetic::mul::lemma_mul_is_commutative(x as int, y as int);
    }
}

impl Identity for Multiplicative<u64> {
    open spec fn id_spec() -> u64 {
        1
    }

    fn id() -> (e: u64) {
        1
    }

    proof fn identity_law(x: u64) {
    }
}

impl Distributive<Additive<u64>> for Multiplicative<u64> {
    proof fn distributive_law(x: u64, y: u64, z: u64) {
        let m = u64_modulus();
        let s = y as int + z as int;
        vstd::arithmetic::div_mod::lemma_mul_mod_noop_right(x as int, s, m);
        vstd::arithmetic::div_mod::lemma_mul_mod_noop_left(s, x as int, m);
        vstd::arithmetic::mul::lemma_mul_is_distributive_add(x as int, y as int, z as int);
        vstd::arithmetic::mul::lemma_mul_is_distributive_add_other_way(x as int, y as int, z as int);
        vstd::arithmetic::div_mod::lemma_add_mod_noop(x as int * y as int, x as int * z as int, m);
        vstd::arithmetic::div_mod::lemma_add_mod_noop(y as int * x as int, z as int * x as int, m);
    }
}

/// The ring of integers modulo `2^64`, carried by `u64`.
pub struct WrappingU64;

impl Ring for WrappingU64 {
    type Set = u64;
    type Additive = Additive<u64>;
    type Multiplicative = Multiplicative<u64>;
}

impl CommutativeRing for WrappingU64 {}

} // verus!
