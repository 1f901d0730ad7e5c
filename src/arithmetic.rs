//! Field and curve abstractions shared by the concrete curves of the cycle.

pub mod curves;

pub use curves::{Coordinates, CurveAffine, CurveExt};

use vstd::arithmetic::div_mod::{
    lemma_add_mod_noop, lemma_mod_self_0, lemma_mod_twice, lemma_mul_mod_noop_left,
    lemma_mul_mod_noop_right, lemma_small_mod,
};
use vstd::arithmetic::mul::{lemma_mul_is_associative, lemma_mul_is_distributive_add};
use vstd::arithmetic::power2::{
    lemma2_to64, lemma_pow2_adds, lemma_pow2_strictly_increases, pow2,
};
use vstd::prelude::*;

verus! {

/// A prime field, with every element seen as its canonical integer
/// representative in `0 .. modulus()`.
pub trait FieldExt: Sized + Copy {
    /// The characteristic of the field.
    spec fn modulus() -> nat;

    /// The canonical integer that this element stands for.
    spec fn value(&self) -> nat;

    /// The primitive cube root of unity that the curve endomorphism uses.
    spec fn zeta_spec() -> Self;

    /// The modulus is an odd prime below `2²⁵⁵`.
    proof fn lemma_modulus()
        ensures
            Self::modulus() > 2,
            Self::modulus() % 2 == 1,
            Self::modulus() < pow2(255),
    ;

    /// Every element is canonical: its value is below the modulus.
    proof fn lemma_canonical(&self)
        ensures
            self.value() < Self::modulus(),
    ;

    /// Distinct elements have distinct values.
    proof fn lemma_value_injective(a: Self, b: Self)
        requires
            a.value() == b.value(),
        ensures
            a == b,
    ;

    /// In a prime field the only square roots of `b²` are `b` and `-b`.
    proof fn lemma_square_roots(a: int, b: int)
        requires
            0 <= a < Self::modulus(),
            0 <= b < Self::modulus(),
            (a * a) % (Self::modulus() as int) == (b * b) % (Self::modulus() as int),
        ensures
            a == b || a + b == Self::modulus(),
    ;

    /// The additive identity.
    fn zero() -> (r: Self)
        ensures
            r.value() == 0,
    ;

    /// `ZETA` is a primitive cube root of unity: `ZETA³ = 1` and `ZETA ≠ 1`.
    proof fn lemma_zeta()
        ensures
            Self::zeta_spec().value() != 1,
            ({
                let z = Self::zeta_spec().value() as int;
                (z * z * z) % (Self::modulus() as int) == 1
            }),
    ;

    /// Returns `ZETA`.
    fn zeta() -> (r: Self)
        ensures
            r == Self::zeta_spec(),
    ;

    /// Whether `a = 0`.
    fn is_zero(&self) -> (r: bool)
        ensures
            r == (self.value() == 0),
    ;

    /// Constant-time equality.
    fn ct_eq(&self, other: &Self) -> (r: bool)
        ensures
            r == (self.value() == other.value()),
    ;

    /// `a + b`.
    fn add(&self, b: &Self) -> (r: Self)
        ensures
            r.value() == add_mod(self.value() as int, b.value() as int, Self::modulus() as int),
    ;

    /// `a · b`.
    fn mul(&self, b: &Self) -> (r: Self)
        ensures
            r.value() == mul_mod(self.value() as int, b.value() as int, Self::modulus() as int),
    ;

    /// `a²`.
    fn square(&self) -> (r: Self)
        ensures
            r.value() == mul_mod(self.value() as int, self.value() as int, Self::modulus() as int),
    ;

    /// `-a`.
    fn neg(&self) -> (r: Self)
        ensures
            r.value() == neg_mod(self.value() as int, Self::modulus() as int),
    ;

    /// The inverse of `a` and whether it exists, which is exactly when
    /// `a ≠ 0`.
    fn invert(&self) -> (r: (Self, bool))
        ensures
            r.1 == (self.value() != 0),
            r.1 ==> mul_mod(self.value() as int, r.0.value() as int, Self::modulus() as int) == 1,
    ;

    /// A square root of `a` and whether `a` is a square; the root is only
    /// meaningful when it is.
    fn sqrt(&self) -> (r: (Self, bool))
        ensures
            r.1 == is_square_mod(self.value() as int, Self::modulus() as int),
            r.1 ==> mul_mod(r.0.value() as int, r.0.value() as int, Self::modulus() as int)
                == self.value(),
            self.value() == 0 ==> r.0.value() == 0,
    ;

    /// The canonical 32-byte little-endian encoding. The modulus is below
    /// `2²⁵⁵`, so the top bit of the last byte is always clear.
    fn to_repr(&self) -> (r: [u8; 32])
        ensures
            le_value(r@) == self.value(),
            r@[31] < 128,
    ;

    /// Decodes a 32-byte little-endian integer, failing exactly when it is not
    /// below the modulus.
    fn from_repr(bytes: [u8; 32]) -> (r: Option<Self>)
        ensures
            r is Some <==> le_value(bytes@) < Self::modulus(),
            r matches Some(f) ==> f.value() == le_value(bytes@),
    ;

    /// Constant-time selection: `b` when `choice` is set, `a` otherwise.
    fn conditional_select(a: &Self, b: &Self, choice: bool) -> (r: Self)
        ensures
            r == (if choice { *b } else { *a }),
    ;
}

/// The unsigned integer that little-endian bytes stand for.
pub open spec fn le_value(bytes: Seq<u8>) -> nat
    decreases bytes.len(),
{
    if bytes.len() == 0 {
        0
    } else {
        bytes[0] as nat + 256 * le_value(bytes.subrange(1, bytes.len() as int))
    }
}

/// `a` is a square modulo `m`.
pub open spec fn is_square_mod(a: int, m: int) -> bool {
    exists|w: int| 0 <= w < m && #[trigger] ((w * w) % m) == a
}

/// `a + b` modulo `m`.
pub open spec fn add_mod(a: int, b: int, m: int) -> int {
    (a + b) % m
}

/// `a · b` modulo `m`.
pub open spec fn mul_mod(a: int, b: int, m: int) -> int {
    (a * b) % m
}

/// `-a` modulo `m`.
pub open spec fn neg_mod(a: int, m: int) -> int {
    (m - a) % m
}

/// Addition and multiplication are associative and commutative, and
/// multiplication distributes over addition.
pub proof fn lemma_ring_laws<F: FieldExt>(a: F, b: F, c: F)
    ensures
        ({
            let (x, y, z, m) = (a.value() as int, b.value() as int, c.value() as int, F::modulus() as int);
            &&& add_mod(x, y, m) == add_mod(y, x, m)
            &&& add_mod(add_mod(x, y, m), z, m) == add_mod(x, add_mod(y, z, m), m)
            &&& mul_mod(x, y, m) == mul_mod(y, x, m)
            &&& mul_mod(mul_mod(x, y, m), z, m) == mul_mod(x, mul_mod(y, z, m), m)
            &&& mul_mod(x, add_mod(y, z, m), m) == add_mod(mul_mod(x, y, m), mul_mod(x, z, m), m)
        }),
{
    let (x, y, z, m) = (a.value() as int, b.value() as int, c.value() as int, F::modulus() as int);
    F::lemma_modulus();
    a.lemma_canonical();
    b.lemma_canonical();
    c.lemma_canonical();
    assert(x * y == y * x) by (nonlinear_arith);
    lemma_add_mod_noop(x + y, z, m);
    lemma_add_mod_noop(x, y + z, m);
    lemma_mod_twice(x + y, m);
    lemma_mod_twice(y + z, m);
    lemma_small_mod(z as nat, m as nat);
    lemma_small_mod(x as nat, m as nat);
    assert((x + y) + z == x + (y + z));
    lemma_mul_mod_noop_left(x * y, z, m);
    lemma_mul_mod_noop_right(x, y * z, m);
    lemma_mul_is_associative(x, y, z);
    lemma_mul_mod_noop_right(x, y + z, m);
    lemma_mul_is_distributive_add(x, y, z);
    lemma_add_mod_noop(x * y, x * z, m);
}

/// `a + (-a) = 0`, and `a · a⁻¹ = 1` whenever `a⁻¹` exists.
pub proof fn lemma_inverses<F: FieldExt>(a: F, inv: F)
    requires
        mul_mod(a.value() as int, inv.value() as int, F::modulus() as int) == 1,
    ensures
        add_mod(a.value() as int, neg_mod(a.value() as int, F::modulus() as int), F::modulus() as int)
            == 0,
        mul_mod(a.value() as int, inv.value() as int, F::modulus() as int) == 1,
{
    let (x, m) = (a.value() as int, F::modulus() as int);
    F::lemma_modulus();
    a.lemma_canonical();
    lemma_mod_self_0(m);
    if x == 0 {
        lemma_small_mod(0, m as nat);
        assert(neg_mod(x, m) == 0);
    } else {
        lemma_small_mod((m - x) as nat, m as nat);
        assert(x + neg_mod(x, m) == m);
    }
}

/// The square root of a square exists, and squares back to it.
pub proof fn lemma_sqrt_of_square<F: FieldExt>(a: F, square: F, root: F, is_square: bool)
    requires
        square.value() == mul_mod(a.value() as int, a.value() as int, F::modulus() as int),
        is_square == is_square_mod(square.value() as int, F::modulus() as int),
        is_square ==> mul_mod(root.value() as int, root.value() as int, F::modulus() as int)
            == square.value(),
    ensures
        is_square,
        mul_mod(root.value() as int, root.value() as int, F::modulus() as int) == square.value(),
{
    let (x, m) = (a.value() as int, F::modulus() as int);
    a.lemma_canonical();
    assert((x * x) % m == square.value());
}

/// `n` bytes of `0xFF` stand for `2⁸ⁿ - 1`.
proof fn lemma_le_all_ones(n: nat)
    ensures
        le_value(Seq::new(n, |i: int| 0xFFu8)) == pow2(8 * n) - 1,
    decreases n,
{
    lemma2_to64();
    if n > 0 {
        let s = Seq::new(n, |i: int| 0xFFu8);
        assert(s.subrange(1, n as int) =~= Seq::new((n - 1) as nat, |i: int| 0xFFu8));
        lemma_le_all_ones((n - 1) as nat);
        lemma_pow2_adds(8, (8 * (n - 1)) as nat);
        assert(8 + 8 * (n - 1) == 8 * n);
    }
}

/// Thirty-two bytes of `0xFF` are not the encoding of any element: their
/// integer is above the modulus, so decoding them fails.
pub proof fn lemma_all_ones_rejected<F: FieldExt>()
    ensures
        le_value(Seq::new(32, |i: int| 0xFFu8)) >= F::modulus(),
{
    F::lemma_modulus();
    lemma_le_all_ones(32);
    lemma_pow2_strictly_increases(255, 256);
}

/// Decoding the canonical encoding of an element gives the element back.
pub proof fn lemma_repr_round_trip<F: FieldExt>(a: F, bytes: Seq<u8>, r: Option<F>)
    requires
        le_value(bytes) == a.value(),
        r is Some <==> le_value(bytes) < F::modulus(),
        r matches Some(f) ==> f.value() == le_value(bytes),
    ensures
        r == Some(a),
{
    a.lemma_canonical();
    F::lemma_value_injective(r->0, a);
}

} // verus!
