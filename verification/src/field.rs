//! Trusted view of the BLS12-381 scalar field.
//!
//! A `Scalar` wraps an `ark_bls12_381::Fr` element and is modelled by
//! `fr_val`, its canonical integer residue in `[0, fr_order())`.  Each
//! wrapper states, over that view, exactly what the `ark_ff` operation
//! computes: arithmetic modulo the prime order in `modular::fr_order`.

use vstd::prelude::*;
use vstd::arithmetic::power::pow;
use vstd::arithmetic::power2::pow2;
use crate::modular::rmod;

verus! {

/// An element of the BLS12-381 scalar field.
///
/// Opaque to the verifier; its meaning is the residue `fr_val` gives.
/// The `inner` field is exposed so that unverified callers can convert
/// between this type and the underlying `ark` element.
#[verifier::external_body]
pub struct Scalar {
    pub inner: ark_bls12_381::Fr,
}

impl Clone for Scalar {
    #[verifier::external_body]
    fn clone(&self) -> (r: Self)
        ensures
            fr_val(r) == fr_val(*self),
    {
        Scalar { inner: self.inner }
    }
}

impl Copy for Scalar {

}

/// The canonical integer residue that a scalar stands for.
pub uninterp spec fn fr_val(x: Scalar) -> int;

/// The sequence of residues behind a sequence of scalars.
pub open spec fn pview(s: Seq<Scalar>) -> Seq<int> {
    s.map_values(|x: Scalar| fr_val(x))
}

/// Relies on `ark_ff`'s `Add` for `Fp`: field addition modulo the order.
#[verifier::external_body]
pub(crate) fn fr_add(a: Scalar, b: Scalar) -> (r: Scalar)
    ensures
        fr_val(r) == rmod(fr_val(a) + fr_val(b)),
{
    Scalar { inner: a.inner + b.inner }
}

/// Relies on `ark_ff`'s `Sub` for `Fp`: field subtraction modulo the order.
#[verifier::external_body]
pub(crate) fn fr_sub(a: Scalar, b: Scalar) -> (r: Scalar)
    ensures
        fr_val(r) == rmod(fr_val(a) - fr_val(b)),
{
    Scalar { inner: a.inner - b.inner }
}

/// Relies on `ark_ff`'s `Mul` for `Fp`: field multiplication modulo the order.
#[verifier::external_body]
pub(crate) fn fr_mul(a: Scalar, b: Scalar) -> (r: Scalar)
    ensures
        fr_val(r) == rmod(fr_val(a) * fr_val(b)),
{
    Scalar { inner: a.inner * b.inner }
}

/// Relies on `ark_ff`'s `Neg` for `Fp`: field negation modulo the order.
#[verifier::external_body]
pub(crate) fn fr_neg(a: Scalar) -> (r: Scalar)
    ensures
        fr_val(r) == rmod(-fr_val(a)),
{
    Scalar { inner: -a.inner }
}

/// Relies on `ark_ff::Field::inverse`: `Some` exactly on nonzero field
/// elements, and the result multiplies back to one.
#[verifier::external_body]
pub(crate) fn fr_inverse(a: &Scalar) -> (r: Option<Scalar>)
    ensures
        r is Some <==> rmod(fr_val(*a)) != 0,
        r is Some ==> rmod(fr_val(r.unwrap()) * fr_val(*a)) == 1,
{
    ark_ff::Field::inverse(&a.inner).map(|x| Scalar { inner: x })
}

/// Relies on `ark_ff::Zero::is_zero` for `Fp`: tests equality with the
/// zero element.
#[verifier::external_body]
pub(crate) fn fr_is_zero(a: &Scalar) -> (r: bool)
    ensures
        r <==> rmod(fr_val(*a)) == 0,
{
    ark_ff::Zero::is_zero(&a.inner)
}

/// Relies on `ark_ff::Zero::zero` for `Fp`: the additive identity.
#[verifier::external_body]
pub(crate) fn fr_zero() -> (r: Scalar)
    ensures
        fr_val(r) == 0,
{
    Scalar { inner: ark_ff::Zero::zero() }
}

/// Relies on `ark_ff::One::one` for `Fp`: the multiplicative identity.
#[verifier::external_body]
pub(crate) fn fr_one() -> (r: Scalar)
    ensures
        fr_val(r) == 1,
{
    Scalar { inner: ark_ff::One::one() }
}

/// Relies on `From<u64>` for `Fp`: embeds an integer, reduced modulo
/// the order.
#[verifier::external_body]
pub fn scalar_from_u64(n: u64) -> (r: Scalar)
    ensures
        fr_val(r) == rmod(n as int),
{
    Scalar { inner: ark_bls12_381::Fr::from(n) }
}

/// Relies on `ark_ff::FftField::TWO_ADIC_ROOT_OF_UNITY` for the
/// BLS12-381 scalar field: a primitive root of unity of order `2^32`,
/// the field's two-adicity.
#[verifier::external_body]
pub(crate) fn fr_two_adic_root() -> (r: Scalar)
    ensures
        rmod(pow(fr_val(r), pow2(32))) == 1,
        rmod(pow(fr_val(r), pow2(31))) != 1,
{
    Scalar { inner: <ark_bls12_381::Fr as ark_ff::FftField>::TWO_ADIC_ROOT_OF_UNITY }
}

} // verus!
