//! A reusable hash-to-curve hasher bound to a domain prefix.

use crate::arithmetic::curves::on_jacobian_curve;
use crate::arithmetic::{CurveExt, FieldExt};
use core::marker::PhantomData;

use vstd::prelude::*;

verus! {

/// Hashes messages to points of the curve `C` (base field `F`, isogenous
/// curve `I`) under a fixed domain prefix. It holds no other state, so every
/// call with the same message gives the same point.
#[derive(Debug)]
pub struct Hasher<'a, F, C, I> {
    domain_prefix: &'a str,
    _marker1: PhantomData<F>,
    _marker2: PhantomData<C>,
    _marker3: PhantomData<I>,
}

impl<'a, F, C, I> Clone for Hasher<'a, F, C, I> {
    fn clone(&self) -> (r: Self)
        ensures
            r == *self,
    {
        Hasher {
            domain_prefix: self.domain_prefix,
            _marker1: PhantomData,
            _marker2: PhantomData,
            _marker3: PhantomData,
        }
    }
}

impl<'a, F, C, I> Copy for Hasher<'a, F, C, I> {

}

impl<'a, F, C, I> Hasher<'a, F, C, I> {
    /// The domain prefix that this hasher was built with.
    pub closed spec fn prefix(&self) -> Seq<char> {
        self.domain_prefix@
    }

    /// A hasher bound to `domain_prefix`.
    pub fn new(domain_prefix: &'a str) -> (r: Self)
        ensures
            r.prefix() == domain_prefix@,
    {
        Hasher {
            domain_prefix: domain_prefix,
            _marker1: PhantomData,
            _marker2: PhantomData,
            _marker3: PhantomData,
        }
    }

    /// Returns the domain prefix that this hasher was built with.
    pub fn domain_prefix(&self) -> (r: &'a str)
        ensures
            r@ == self.prefix(),
    {
        self.domain_prefix
    }
}

impl<'a, F: FieldExt, C: CurveExt<Base = F>, I: CurveExt<Base = F>> Hasher<'a, F, C, I> {
    /// The point that this hasher gives for `message`.
    pub open spec fn spec_call(&self, message: Seq<u8>) -> C {
        C::hashed(self.prefix(), message)
    }

    /// Hashes `message` to a point of the curve: the point depends on the
    /// domain prefix and the message alone, and satisfies the curve equation.
    pub fn call(&self, message: &[u8]) -> (r: C)
        ensures
            r == self.spec_call(message@),
            on_jacobian_curve(r.jacobian(), C::a_spec(), C::b_spec()),
    {
        C::unboxed_hash_to_curve(self.domain_prefix, message)
    }

    /// Hashes `message`, consuming the hasher.
    pub fn call_once(self, message: &[u8]) -> (r: C)
        ensures
            r == self.spec_call(message@),
            on_jacobian_curve(r.jacobian(), C::a_spec(), C::b_spec()),
    {
        self.call(message)
    }

    /// Hashes `message` through a mutable borrow, which leaves the hasher as
    /// it was.
    pub fn call_mut(&mut self, message: &[u8]) -> (r: C)
        ensures
            *final(self) == *old(self),
            r == old(self).spec_call(message@),
            on_jacobian_curve(r.jacobian(), C::a_spec(), C::b_spec()),
    {
        self.call(message)
    }
}

/// Hashing is deterministic: two hashers with the same domain prefix give the
/// same point for the same message, however often they are called.
pub proof fn lemma_hash_deterministic<'a, 'b, F: FieldExt, C: CurveExt<Base = F>, I: CurveExt<Base = F>>(
    h1: Hasher<'a, F, C, I>,
    h2: Hasher<'b, F, C, I>,
    message: Seq<u8>,
)
    requires
        h1.prefix() == h2.prefix(),
    ensures
        h1.spec_call(message) == h2.spec_call(message),
{
}

} // verus!
