//! The compressed 32-byte encoding of affine points: the x-coordinate in
//! little-endian order, with the parity of y in the top bit of the last byte;
//! the identity is all zeros.

use crate::arithmetic::curves::on_affine_curve;
use crate::arithmetic::{is_square_mod, le_value, CurveAffine, FieldExt};

use vstd::arithmetic::div_mod::{
    lemma_add_mod_noop, lemma_mod_multiples_vanish, lemma_mul_mod_noop_left, lemma_small_mod,
};
use vstd::prelude::*;

verus! {

/// The bytes with the top bit of the last byte cleared.
pub open spec fn clear_top(bytes: Seq<u8>) -> Seq<u8> {
    bytes.update(31, (bytes[31] % 128) as u8)
}

/// The top bit of the last byte.
pub open spec fn sign_bit(bytes: Seq<u8>) -> bool {
    bytes[31] >= 128
}

/// `x³ + a·x + b` reduced modulo `m`.
pub open spec fn curve_rhs(x: int, a: int, b: int, m: int) -> int {
    (x * x * x + a * x + b) % m
}

/// `bytes` is the compressed encoding of `p`.
pub open spec fn encodes<C: CurveAffine>(p: C, bytes: Seq<u8>) -> bool {
    &&& bytes.len() == 32
    &&& p.is_identity_spec() ==> bytes == Seq::new(32, |i: int| 0u8)
    &&& !p.is_identity_spec() ==> le_value(clear_top(bytes)) == p.x_spec().value() && sign_bit(bytes)
        == (p.y_spec().value() % 2 == 1)
}

/// `r` is what decoding `bytes` gives. With `x` the integer of the bytes with
/// the top bit cleared and `s` that bit: all zeros is the identity; otherwise
/// the point is `(x, y)` with `y² = x³ + a·x + b` and `y` of parity `s`.
/// Decoding fails when `x` is not below the modulus, when `x³ + a·x + b` is not
/// a square, or when it is zero and `s` asks for an odd `y`.
pub open spec fn decodes<C: CurveAffine>(bytes: Seq<u8>, r: Option<C>) -> bool {
    let x = le_value(clear_top(bytes)) as int;
    let s = sign_bit(bytes);
    let m = C::Base::modulus() as int;
    let rhs = curve_rhs(x, C::a_spec().value() as int, C::b_spec().value() as int, m);
    &&& (r is Some) <==> (x < m && ((x == 0 && !s) || (is_square_mod(rhs, m) && !(rhs == 0 && s))))
    &&& r matches Some(p) ==> if x == 0 && !s {
        p.is_identity_spec()
    } else {
        &&& !p.is_identity_spec()
        &&& p.x_spec().value() == x
        &&& (p.y_spec().value() * p.y_spec().value()) as int % m == rhs
        &&& (p.y_spec().value() % 2 == 1) == s
    }
}

/// Little-endian zeros stand for zero.
proof fn lemma_le_zeros(bytes: Seq<u8>)
    requires
        forall|i: int| 0 <= i < bytes.len() ==> bytes[i] == 0,
    ensures
        le_value(bytes) == 0,
    decreases bytes.len(),
{
    if bytes.len() > 0 {
        lemma_le_zeros(bytes.subrange(1, bytes.len() as int));
    }
}

/// The parity of a little-endian integer is that of its first byte.
proof fn lemma_le_parity(bytes: Seq<u8>)
    requires
        bytes.len() > 0,
    ensures
        le_value(bytes) % 2 == bytes[0] % 2,
{
    let rest = le_value(bytes.subrange(1, bytes.len() as int));
    assert((bytes[0] as int + 256 * rest) % 2 == bytes[0] % 2) by (nonlinear_arith);
}

/// Computing `x³ + a·x + b` one reduced step at a time gives the reduced
/// whole.
proof fn lemma_rhs_steps(x: int, a: int, b: int, m: int)
    requires
        m > 0,
        0 <= b < m,
    ensures
        ((((x * x) % m) * x) % m + (a * x) % m) % m == (x * x * x + a * x) % m,
        ((x * x * x + a * x) % m + b) % m == curve_rhs(x, a, b, m),
{
    lemma_mul_mod_noop_left(x * x, x, m);
    lemma_add_mod_noop(x * x * x, a * x, m);
    lemma_small_mod(b as nat, m as nat);
    lemma_add_mod_noop(x * x * x + a * x, b, m);
}

/// `-v` and `v` have the same square; for `v ≠ 0` and an odd modulus they
/// have different parities.
proof fn lemma_neg(v: int, m: int)
    requires
        0 <= v < m,
        m % 2 == 1,
    ensures
        (((m - v) % m) * ((m - v) % m)) % m == (v * v) % m,
        v != 0 ==> ((m - v) % m) % 2 != v % 2,
        v == 0 ==> (m - v) % m == 0,
{
    if v == 0 {
        assert(m % m == 0) by (nonlinear_arith)
            requires
                m > 0,
        ;
    } else {
        lemma_small_mod((m - v) as nat, m as nat);
        assert((m - v) * (m - v) == m * (m - 2 * v) + v * v) by (nonlinear_arith);
        lemma_mod_multiples_vanish(m - 2 * v, v * v, m);
    }
}

/// Whether the integer of a canonical encoding is odd.
fn is_odd<F: FieldExt>(f: &F) -> (r: bool)
    ensures
        r == (f.value() % 2 == 1),
{
    let bytes = f.to_repr();
    proof {
        lemma_le_parity(bytes@);
    }
    let low = bytes[0];
    assert((low & 1 == 1) == (low % 2 == 1)) by (bit_vector);
    low & 1 == 1
}

/// Encodes a point in compressed form.
pub fn to_bytes<C: CurveAffine>(p: &C) -> (r: [u8; 32])
    ensures
        encodes(*p, r@),
{
    match p.coordinates() {
        None => {
            let r = [0u8; 32];
            assert(r@ =~= Seq::new(32, |i: int| 0u8));
            r
        },
        Some(c) => {
            let x = c.x.to_repr();
            let odd = is_odd(&c.y);
            let mut r = x;
            let top = x[31];
            let sign: u8 = if odd {
                128
            } else {
                0
            };
            r[31] = top | sign;
            assert((top | sign) % 128 == top && ((top | sign) >= 128) == (sign == 128)) by (bit_vector)
                requires
                    top < 128,
                    sign == 0 || sign == 128,
            ;
            assert(clear_top(r@) =~= x@);
            r
        },
    }
}

/// Decodes a compressed point (see `decodes`). Every point it gives is the
/// identity or on the curve.
pub fn from_bytes<C: CurveAffine>(bytes: &[u8; 32]) -> (r: Option<C>)
    ensures
        decodes(bytes@, r),
        r matches Some(p) ==> p.is_identity_spec() || on_affine_curve(
            p.x_spec(),
            p.y_spec(),
            C::a_spec(),
            C::b_spec(),
        ),
{
    let mut tmp = *bytes;
    let top = tmp[31];
    let ysign = top >= 128;
    tmp[31] = top & 0x7f;
    assert(top & 0x7f == top % 128) by (bit_vector);
    assert(tmp@ =~= clear_top(bytes@));
    let x = match C::Base::from_repr(tmp) {
        None => {
            return None;
        },
        Some(x) => x,
    };
    if x.is_zero() && !ysign {
        return Some(C::identity());
    }
    let a = C::a();
    let b = C::b();
    let rhs = x.square().mul(&x).add(&a.mul(&x)).add(&b);
    let ghost m = C::Base::modulus() as int;
    proof {
        C::Base::lemma_modulus();
        b.lemma_canonical();
        lemma_rhs_steps(x.value() as int, a.value() as int, b.value() as int, m);
    }
    assert(rhs.value() == curve_rhs(x.value() as int, a.value() as int, b.value() as int, m));
    let (root, is_sq) = rhs.sqrt();
    if !is_sq {
        return None;
    }
    let negated = root.neg();
    proof {
        root.lemma_canonical();
        lemma_neg(root.value() as int, m);
    }
    let flip = is_odd(&root) != ysign;
    let y = C::Base::conditional_select(&root, &negated, flip);
    if is_odd(&y) != ysign {
        proof {
            if root.value() == 0 {
                assert((0int * 0int) % m == 0) by (nonlinear_arith)
                    requires
                        m > 0,
                ;
            }
        }
        return None;
    }
    C::from_xy(x, y)
}

/// Decoding the encoding of a point gives the point back. The one exception
/// is a point `(0, y)` with `y` even, whose encoding is that of the identity;
/// such a point exists only where the curve constant `b` is a square.
pub proof fn lemma_round_trip<C: CurveAffine>(p: C, bytes: Seq<u8>, r: Option<C>)
    requires
        encodes(p, bytes),
        decodes(bytes, r),
        p.is_identity_spec() || p.x_spec().value() != 0 || p.y_spec().value() % 2 == 1,
    ensures
        r == Some(p),
{
    let m = C::Base::modulus() as int;
    C::Base::lemma_modulus();
    p.lemma_valid();
    if p.is_identity_spec() {
        assert(clear_top(bytes) =~= bytes);
        lemma_le_zeros(bytes);
        let q = r->0;
        C::lemma_determined(q, p);
    } else {
        let xv = p.x_spec().value() as int;
        let yv = p.y_spec().value() as int;
        p.x_spec().lemma_canonical();
        p.y_spec().lemma_canonical();
        let rhs = curve_rhs(xv, C::a_spec().value() as int, C::b_spec().value() as int, m);
        assert((yv * yv) % m == rhs);
        assert(is_square_mod(rhs, m));
        if rhs == 0 {
            assert((0int * 0int) % m == 0) by (nonlinear_arith)
                requires
                    m > 0,
            ;
            C::Base::lemma_square_roots(yv, 0);
        }
        let q = r->0;
        let qy = q.y_spec().value() as int;
        q.y_spec().lemma_canonical();
        C::Base::lemma_value_injective(q.x_spec(), p.x_spec());
        C::Base::lemma_square_roots(qy, yv);
        C::Base::lemma_value_injective(q.y_spec(), p.y_spec());
        C::lemma_determined(q, p);
    }
}

} // verus!
