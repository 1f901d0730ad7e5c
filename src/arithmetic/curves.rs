//! The projective (`CurveExt`) and affine (`CurveAffine`) curve abstractions
//! that let generic code work over either curve of the cycle.

use super::{is_square_mod, mul_mod, FieldExt};

use vstd::arithmetic::div_mod::{
    lemma_add_mod_noop, lemma_mod_twice, lemma_mul_mod_noop,
    lemma_mul_mod_noop_left, lemma_mul_mod_noop_right, lemma_small_mod,
};
use vstd::prelude::*;

verus! {

/// `(x, y)` satisfies `y² = x³ + a·x + b` in the field.
pub open spec fn on_affine_curve<F: FieldExt>(x: F, y: F, a: F, b: F) -> bool {
    let m = F::modulus() as int;
    let (xv, yv, av, bv) = (x.value() as int, y.value() as int, a.value() as int, b.value() as int);
    (yv * yv) % m == (xv * xv * xv + av * xv + bv) % m
}

/// The Jacobian triple `(X, Y, Z)` is the identity (`Z = 0`) or satisfies
/// `Y² = X³ + a·X·Z⁴ + b·Z⁶` in the field, i.e. `(X/Z², Y/Z³)` is on the curve.
pub open spec fn on_jacobian_curve<F: FieldExt>(p: (F, F, F), a: F, b: F) -> bool {
    let m = F::modulus() as int;
    let (xv, yv, zv) = (p.0.value() as int, p.1.value() as int, p.2.value() as int);
    let (av, bv) = (a.value() as int, b.value() as int);
    let z2 = zv * zv;
    let z4 = z2 * z2;
    let z6 = z4 * z2;
    zv == 0 || (yv * yv) % m == (xv * xv * xv + av * xv * z4 + bv * z6) % m
}

/// The Jacobian triple `(X, Y, Z)` stands for the affine point `(x, y)`:
/// `Z ≠ 0`, `X = x·Z²` and `Y = y·Z³`.
pub open spec fn scales_to<F: FieldExt>(p: (F, F, F), x: F, y: F) -> bool {
    let m = F::modulus() as int;
    let z = p.2.value() as int;
    let z2 = mul_mod(z, z, m);
    let z3 = mul_mod(z2, z, m);
    &&& z != 0
    &&& p.0.value() == mul_mod(x.value() as int, z2, m)
    &&& p.1.value() == mul_mod(y.value() as int, z3, m)
}

/// The affine form of a curve of the cycle, used for storage, encoding and
/// inspection of coordinates.
pub trait CurveAffine: Sized + Copy {
    /// The scalar field of the curve.
    type ScalarExt: FieldExt;
    /// The base field over which the curve is defined.
    type Base: FieldExt;

    /// Whether this is the point at infinity.
    spec fn is_identity_spec(&self) -> bool;

    /// The x-coordinate (zero for the identity).
    spec fn x_spec(&self) -> Self::Base;

    /// The y-coordinate (zero for the identity).
    spec fn y_spec(&self) -> Self::Base;

    /// The curve constant `a`.
    spec fn a_spec() -> Self::Base;

    /// The curve constant `b`.
    spec fn b_spec() -> Self::Base;

    /// Every point is valid: the identity has zero coordinates, any other
    /// point satisfies the curve equation.
    proof fn lemma_valid(&self)
        ensures
            self.is_identity_spec() ==> self.x_spec().value() == 0 && self.y_spec().value() == 0,
            !self.is_identity_spec() ==> on_affine_curve(
                self.x_spec(),
                self.y_spec(),
                Self::a_spec(),
                Self::b_spec(),
            ),
    ;

    /// A point is determined by whether it is the identity and by its
    /// coordinates.
    proof fn lemma_determined(p: Self, q: Self)
        requires
            p.is_identity_spec() == q.is_identity_spec(),
            p.is_identity_spec() || (p.x_spec() == q.x_spec() && p.y_spec() == q.y_spec()),
        ensures
            p == q,
    ;

    /// The point at infinity.
    fn identity() -> (r: Self)
        ensures
            r.is_identity_spec(),
    ;

    /// Gets the coordinates of this point: `None` exactly for the identity.
    fn coordinates(&self) -> (r: Option<Coordinates<Self>>)
        ensures
            r is Some <==> !self.is_identity_spec(),
            r matches Some(c) ==> c.x == self.x_spec() && c.y == self.y_spec(),
    ;

    /// Obtains the point `(x, y)`, failing exactly when it is not on the curve.
    fn from_xy(x: Self::Base, y: Self::Base) -> (r: Option<Self>)
        ensures
            r is Some <==> on_affine_curve(x, y, Self::a_spec(), Self::b_spec()),
            r matches Some(p) ==> !p.is_identity_spec() && p.x_spec() == x && p.y_spec() == y,
    ;

    /// Whether this point is the identity or satisfies the curve equation.
    fn is_on_curve(&self) -> (r: bool)
        ensures
            r == (self.is_identity_spec() || on_affine_curve(
                self.x_spec(),
                self.y_spec(),
                Self::a_spec(),
                Self::b_spec(),
            )),
    ;

    /// Returns the curve constant `a`.
    fn a() -> (r: Self::Base)
        ensures
            r == Self::a_spec(),
    ;

    /// Returns the curve constant `b`.
    fn b() -> (r: Self::Base)
        ensures
            r == Self::b_spec(),
    ;
}

/// The projective (Jacobian) form of a curve of the cycle, in which the
/// group arithmetic is done.
pub trait CurveExt: Sized + Copy {
    /// The scalar field of the curve.
    type ScalarExt: FieldExt;
    /// The base field over which the curve is defined.
    type Base: FieldExt;
    /// The affine form of the curve.
    type AffineExt: CurveAffine<Base = Self::Base, ScalarExt = Self::ScalarExt>;

    /// The Jacobian coordinates `(X, Y, Z)` of this point.
    spec fn jacobian(&self) -> (Self::Base, Self::Base, Self::Base);

    /// The curve constant `a`.
    spec fn a_spec() -> Self::Base;

    /// The curve constant `b`.
    spec fn b_spec() -> Self::Base;

    /// The curve identifier used in the hash-to-curve domain separation tag.
    spec fn curve_id_spec() -> Seq<char>;

    /// The point that hash-to-curve gives for a domain prefix and a message.
    spec fn hashed(domain_prefix: Seq<char>, message: Seq<u8>) -> Self;

    /// Returns the curve identifier used for hash-to-curve.
    fn curve_id() -> (r: &'static str)
        ensures
            r@ == Self::curve_id_spec(),
    ;

    /// Applies the curve endomorphism, multiplying the x-coordinate by an
    /// element of multiplicative order 3: `(X, Y, Z) ↦ (ζ·X, Y, Z)`.
    fn endo(&self) -> (r: Self)
        ensures
            r.jacobian().0.value() == mul_mod(
                Self::Base::zeta_spec().value() as int,
                self.jacobian().0.value() as int,
                Self::Base::modulus() as int,
            ),
            r.jacobian().1 == self.jacobian().1,
            r.jacobian().2 == self.jacobian().2,
    ;

    /// The affine form of this point: the identity exactly when `Z = 0`,
    /// otherwise `(X/Z², Y/Z³)`.
    fn to_affine(&self) -> (r: Self::AffineExt)
        ensures
            r.is_identity_spec() == (self.jacobian().2.value() == 0),
            !r.is_identity_spec() ==> scales_to(self.jacobian(), r.x_spec(), r.y_spec()),
    ;

    /// The Jacobian form of an affine point: `Z = 0` for the identity,
    /// otherwise `(x, y, 1)`.
    fn from_affine(a: Self::AffineExt) -> (r: Self)
        ensures
            a.is_identity_spec() ==> r.jacobian().2.value() == 0,
            !a.is_identity_spec() ==> r.jacobian().0 == a.x_spec() && r.jacobian().1 == a.y_spec()
                && r.jacobian().2.value() == 1,
    ;

    /// Returns the Jacobian coordinates of this point.
    fn jacobian_coordinates(&self) -> (r: (Self::Base, Self::Base, Self::Base))
        ensures
            r == self.jacobian(),
    ;

    /// Hashes `message` to a point of the curve under `domain_prefix`, without
    /// building a hasher first. The result depends on the two inputs alone
    /// and is always on the curve.
    fn unboxed_hash_to_curve(domain_prefix: &str, message: &[u8]) -> (r: Self)
        ensures
            r == Self::hashed(domain_prefix@, message@),
            on_jacobian_curve(r.jacobian(), Self::a_spec(), Self::b_spec()),
    ;

    /// Whether this point is the identity or satisfies the curve equation.
    fn is_on_curve(&self) -> (r: bool)
        ensures
            r == on_jacobian_curve(self.jacobian(), Self::a_spec(), Self::b_spec()),
    ;

    /// Returns the curve constant `a`.
    fn a() -> (r: Self::Base)
        ensures
            r == Self::a_spec(),
    ;

    /// Returns the curve constant `b`.
    fn b() -> (r: Self::Base)
        ensures
            r == Self::b_spec(),
    ;

    /// Obtains the point with Jacobian coordinates `X : Y : Z`, failing
    /// exactly when they are not on the curve.
    fn new_jacobian(x: Self::Base, y: Self::Base, z: Self::Base) -> (r: Option<Self>)
        ensures
            r is Some <==> on_jacobian_curve((x, y, z), Self::a_spec(), Self::b_spec()),
            r matches Some(p) ==> p.jacobian() == (x, y, z),
    ;
}

/// Converting an affine point to Jacobian form and back gives the point.
pub proof fn lemma_affine_round_trip<C: CurveExt>(a: C::AffineExt, p: C, back: C::AffineExt)
    requires
        a.is_identity_spec() ==> p.jacobian().2.value() == 0,
        !a.is_identity_spec() ==> p.jacobian().0 == a.x_spec() && p.jacobian().1 == a.y_spec()
            && p.jacobian().2.value() == 1,
        back.is_identity_spec() == (p.jacobian().2.value() == 0),
        !back.is_identity_spec() ==> scales_to(p.jacobian(), back.x_spec(), back.y_spec()),
    ensures
        back == a,
{
    if !a.is_identity_spec() {
        let m = C::Base::modulus() as int;
        C::Base::lemma_modulus();
        back.x_spec().lemma_canonical();
        back.y_spec().lemma_canonical();
        lemma_small_mod(1, m as nat);
        lemma_small_mod(back.x_spec().value(), m as nat);
        lemma_small_mod(back.y_spec().value(), m as nat);
        assert(mul_mod(1, 1, m) == 1);
        C::Base::lemma_value_injective(back.x_spec(), a.x_spec());
        C::Base::lemma_value_injective(back.y_spec(), a.y_spec());
    }
    C::AffineExt::lemma_determined(back, a);
}

/// Whether `(x, y)` satisfies `y² = x³ + a·x + b`: the computation behind
/// `CurveAffine::from_xy` and `CurveAffine::is_on_curve`.
pub fn affine_is_on_curve<F: FieldExt>(x: &F, y: &F, a: &F, b: &F) -> (r: bool)
    ensures
        r == on_affine_curve(*x, *y, *a, *b),
{
    let lhs = y.square();
    let x3 = x.square().mul(x);
    let rhs = x3.add(&a.mul(x)).add(b);
    proof {
        let m = F::modulus() as int;
        F::lemma_modulus();
        let (xv, av, bv) = (x.value() as int, a.value() as int, b.value() as int);
        b.lemma_canonical();
        lemma_mul_mod_noop_left(xv * xv, xv, m);
        lemma_add_mod_noop(xv * xv * xv, av * xv, m);
        lemma_small_mod(bv as nat, m as nat);
        lemma_add_mod_noop(xv * xv * xv + av * xv, bv, m);
    }
    lhs.ct_eq(&rhs)
}

/// Whether `(X, Y, Z)` is the identity (`Z = 0`) or satisfies
/// `Y² = X³ + a·X·Z⁴ + b·Z⁶`: the computation behind `CurveExt::new_jacobian` and
/// `CurveExt::is_on_curve`.
pub fn jacobian_is_on_curve<F: FieldExt>(x: &F, y: &F, z: &F, a: &F, b: &F) -> (r: bool)
    ensures
        r == on_jacobian_curve((*x, *y, *z), *a, *b),
{
    let z2 = z.square();
    let z4 = z2.square();
    let z6 = z4.mul(&z2);
    let lhs = y.square();
    let x3 = x.square().mul(x);
    let axz4 = a.mul(x).mul(&z4);
    let bz6 = b.mul(&z6);
    let rhs = x3.add(&axz4).add(&bz6);
    proof {
        let m = F::modulus() as int;
        F::lemma_modulus();
        let (xv, zv, av, bv) = (x.value() as int, z.value() as int, a.value() as int, b.value() as int);
        let (s2, s4) = (zv * zv, zv * zv * (zv * zv));
        let s6 = s4 * s2;
        lemma_mul_mod_noop(s2, s2, m);
        assert(z4.value() == s4 % m);
        lemma_mul_mod_noop(s4, s2, m);
        assert(z6.value() == s6 % m);
        lemma_mul_mod_noop_left(xv * xv, xv, m);
        assert(x3.value() == (xv * xv * xv) % m);
        lemma_mul_mod_noop(av * xv, s4, m);
        assert(axz4.value() == (av * xv * s4) % m);
        lemma_mul_mod_noop_right(bv, s6, m);
        assert(bz6.value() == (bv * s6) % m);
        lemma_add_mod_noop(xv * xv * xv, av * xv * s4, m);
        lemma_add_mod_noop(xv * xv * xv + av * xv * s4, bv * s6, m);
        lemma_mod_twice(xv * xv * xv + av * xv * s4, m);
        lemma_mod_twice(bv * s6, m);
        assert(rhs.value() == (xv * xv * xv + av * xv * s4 + bv * s6) % m);
    }
    z.is_zero() || lhs.ct_eq(&rhs)
}

/// On a curve with `a = 0` the endomorphism `(X, Y, Z) ↦ (ζ·X, Y, Z)` keeps
/// points on the curve, since `(ζ·X)³ = X³`.
pub proof fn lemma_endo_on_curve<C: CurveExt>(p: C, q: C)
    requires
        C::a_spec().value() == 0,
        on_jacobian_curve(p.jacobian(), C::a_spec(), C::b_spec()),
        q.jacobian().0.value() == mul_mod(
            C::Base::zeta_spec().value() as int,
            p.jacobian().0.value() as int,
            C::Base::modulus() as int,
        ),
        q.jacobian().1 == p.jacobian().1,
        q.jacobian().2 == p.jacobian().2,
    ensures
        on_jacobian_curve(q.jacobian(), C::a_spec(), C::b_spec()),
{
    let m = C::Base::modulus() as int;
    C::Base::lemma_modulus();
    C::Base::lemma_zeta();
    let t = C::Base::zeta_spec().value() as int;
    let x = p.jacobian().0.value() as int;
    let qx = (t * x) % m;
    lemma_mul_mod_noop(t * x, t * x, m);
    lemma_mul_mod_noop((t * x) * (t * x), t * x, m);
    assert(qx * qx * qx % m == (t * x) * (t * x) * (t * x) % m) by {
        lemma_mul_mod_noop_left(qx * qx, qx, m);
        lemma_mul_mod_noop_right((t * x) * (t * x), qx, m);
        lemma_mul_mod_noop(t * x, t * x, m);
        lemma_mul_mod_noop_left((t * x) * (t * x), t * x, m);
    };
    assert((t * x) * (t * x) * (t * x) == (t * t * t) * (x * x * x)) by (nonlinear_arith);
    lemma_mul_mod_noop_left(t * t * t, x * x * x, m);
    lemma_small_mod(1, m as nat);
    let z = p.jacobian().2.value() as int;
    let b6 = C::b_spec().value() as int * (z * z * (z * z) * (z * z));
    assert(x * x * x + 0 * x * (z * z * (z * z)) + b6 == x * x * x + b6) by (nonlinear_arith);
    assert(qx * qx * qx + 0 * qx * (z * z * (z * z)) + b6 == qx * qx * qx + b6) by (nonlinear_arith);
    lemma_add_mod_noop(qx * qx * qx, b6, m);
    lemma_add_mod_noop(x * x * x, b6, m);
}

/// A point with `x = 0` is `(0, y)` with `y² = b`: `from_xy` accepts it, and
/// it exists only where `b` is a square.
pub proof fn lemma_from_xy_zero<C: CurveAffine>(x: C::Base, y: C::Base, r: Option<C>)
    requires
        x.value() == 0,
        mul_mod(y.value() as int, y.value() as int, C::Base::modulus() as int)
            == C::b_spec().value(),
        r is Some <==> on_affine_curve(x, y, C::a_spec(), C::b_spec()),
    ensures
        r is Some,
        is_square_mod(C::b_spec().value() as int, C::Base::modulus() as int),
{
    let m = C::Base::modulus() as int;
    C::Base::lemma_modulus();
    C::b_spec().lemma_canonical();
    y.lemma_canonical();
    lemma_small_mod(C::b_spec().value(), m as nat);
    let yv = y.value() as int;
    let (xv, av, bv) = (x.value() as int, C::a_spec().value() as int, C::b_spec().value() as int);
    assert(xv * xv * xv + av * xv + bv == bv) by (nonlinear_arith)
        requires
            xv == 0,
    ;
    assert((yv * yv) % m == bv);
}

/// The affine coordinates of a point on an elliptic curve. The fields are
/// public so that implementors of `CurveAffine` can build the record.
pub struct Coordinates<C: CurveAffine> {
    pub x: C::Base,
    pub y: C::Base,
}

impl<C: CurveAffine> Clone for Coordinates<C> {
    fn clone(&self) -> (r: Self)
        ensures
            r == *self,
    {
        Coordinates { x: self.x, y: self.y }
    }
}

impl<C: CurveAffine> Copy for Coordinates<C> {

}

impl<C: CurveAffine> Coordinates<C> {
    /// Returns the x-coordinate.
    ///
    /// Equivalent to `Coordinates::u`.
    pub fn x(&self) -> (r: &C::Base)
        ensures
            *r == self.x,
    {
        &self.x
    }

    /// Returns the y-coordinate.
    ///
    /// Equivalent to `Coordinates::v`.
    pub fn y(&self) -> (r: &C::Base)
        ensures
            *r == self.y,
    {
        &self.y
    }

    /// Returns the u-coordinate.
    ///
    /// Equivalent to `Coordinates::x`.
    pub fn u(&self) -> (r: &C::Base)
        ensures
            *r == self.x,
    {
        &self.x
    }

    /// Returns the v-coordinate.
    ///
    /// Equivalent to `Coordinates::y`.
    pub fn v(&self) -> (r: &C::Base)
        ensures
            *r == self.y,
    {
        &self.y
    }

    /// Constant-time selection of a whole record: `b` when `choice` is set,
    /// `a` otherwise, coordinate by coordinate.
    pub fn conditional_select(a: &Self, b: &Self, choice: bool) -> (r: Self)
        ensures
            r.x == (if choice { b.x } else { a.x }),
            r.y == (if choice { b.y } else { a.y }),
    {
        Coordinates {
            x: C::Base::conditional_select(&a.x, &b.x, choice),
            y: C::Base::conditional_select(&a.y, &b.y, choice),
        }
    }
}

} // verus!
