//! Trusted view of the two BLS12-381 pairing groups.
//!
//! `G1Point` and `G2Point` wrap `ark` projective curve points.  A
//! point is modelled by its discrete logarithm with respect to the
//! canonical prime-order-subgroup generator (`g1_val` / `g2_val`),
//! taken modulo the scalar-field order, and `g1_in` / `g2_in` say that
//! the point lies in the prime-order subgroup, where the pairing is
//! bilinear.  Group arithmetic acts componentwise, in particular on
//! the prime-order component, so the arithmetic contracts hold for
//! every representable point.

use vstd::prelude::*;
use crate::modular::rmod;
use crate::field::{Scalar, fr_val};

verus! {

/// An element of the first pairing group.
///
/// Opaque to the verifier; its meaning is the logarithm `g1_val`
/// gives.  The `inner` field is exposed so that unverified callers
/// can convert between this type and the underlying `ark` point.
#[verifier::external_body]
pub struct G1Point {
    pub inner: ark_bls12_381::G1Projective,
}

impl Clone for G1Point {
    #[verifier::external_body]
    fn clone(&self) -> (r: Self)
        ensures
            g1_val(r) == g1_val(*self),
            g1_in(r) == g1_in(*self),
    {
        G1Point { inner: self.inner }
    }
}

impl Copy for G1Point {

}

/// An element of the second pairing group.
///
/// Opaque to the verifier; its meaning is the logarithm `g2_val`
/// gives.  The `inner` field is exposed so that unverified callers
/// can convert between this type and the underlying `ark` point.
#[verifier::external_body]
pub struct G2Point {
    pub inner: ark_bls12_381::G2Projective,
}

impl Clone for G2Point {
    #[verifier::external_body]
    fn clone(&self) -> (r: Self)
        ensures
            g2_val(r) == g2_val(*self),
            g2_in(r) == g2_in(*self),
    {
        G2Point { inner: self.inner }
    }
}

impl Copy for G2Point {

}

/// Discrete logarithm of a point's prime-order-subgroup component.
pub uninterp spec fn g1_val(p: G1Point) -> int;

/// Whether a point lies in the prime-order subgroup.
pub uninterp spec fn g1_in(p: G1Point) -> bool;

/// Discrete logarithm of a point's prime-order-subgroup component.
pub uninterp spec fn g2_val(p: G2Point) -> int;

/// Whether a point lies in the prime-order subgroup.
pub uninterp spec fn g2_in(p: G2Point) -> bool;

/// Relies on `ark_ec`'s `Add` for `Projective`: point addition, which
/// adds discrete logarithms.
#[verifier::external_body]
pub(crate) fn g1_add(a: G1Point, b: G1Point) -> (r: G1Point)
    ensures
        g1_val(r) == rmod(g1_val(a) + g1_val(b)),
        g1_in(a) && g1_in(b) ==> g1_in(r),
{
    G1Point { inner: a.inner + b.inner }
}

/// Relies on `ark_ec`'s `Sub` for `Projective`: point subtraction,
/// which subtracts discrete logarithms.
#[verifier::external_body]
pub(crate) fn g1_sub(a: G1Point, b: G1Point) -> (r: G1Point)
    ensures
        g1_val(r) == rmod(g1_val(a) - g1_val(b)),
        g1_in(a) && g1_in(b) ==> g1_in(r),
{
    G1Point { inner: a.inner - b.inner }
}

/// Relies on `ark_ec`'s `Mul<Fr>` for `Projective`: scalar
/// multiplication, which multiplies the discrete logarithm by the
/// scalar.
#[verifier::external_body]
pub(crate) fn g1_mul(p: G1Point, s: Scalar) -> (r: G1Point)
    ensures
        g1_val(r) == rmod(g1_val(p) * fr_val(s)),
        g1_in(p) ==> g1_in(r),
{
    G1Point { inner: p.inner * s.inner }
}

/// Relies on `ark_ec`'s `Add` for `Projective`: point addition, which
/// adds discrete logarithms.
#[verifier::external_body]
pub(crate) fn g2_add(a: G2Point, b: G2Point) -> (r: G2Point)
    ensures
        g2_val(r) == rmod(g2_val(a) + g2_val(b)),
        g2_in(a) && g2_in(b) ==> g2_in(r),
{
    G2Point { inner: a.inner + b.inner }
}

/// Relies on `ark_ec`'s `Sub` for `Projective`: point subtraction,
/// which subtracts discrete logarithms.
#[verifier::external_body]
pub(crate) fn g2_sub(a: G2Point, b: G2Point) -> (r: G2Point)
    ensures
        g2_val(r) == rmod(g2_val(a) - g2_val(b)),
        g2_in(a) && g2_in(b) ==> g2_in(r),
{
    G2Point { inner: a.inner - b.inner }
}

/// Relies on `ark_ec`'s `Mul<Fr>` for `Projective`: scalar
/// multiplication, which multiplies the discrete logarithm by the
/// scalar.
#[verifier::external_body]
pub(crate) fn g2_mul(p: G2Point, s: Scalar) -> (r: G2Point)
    ensures
        g2_val(r) == rmod(g2_val(p) * fr_val(s)),
        g2_in(p) ==> g2_in(r),
{
    G2Point { inner: p.inner * s.inner }
}

/// Relies on `ark_ec::pairing::Pairing::pairing` for BLS12-381, called
/// once on each pair, and on `PartialEq` for its output: the pairing
/// is bilinear and non-degenerate on the prime-order subgroups, so the
/// two outputs are equal exactly when the products of the arguments'
/// logarithms agree modulo the group order.
#[verifier::external_body]
pub(crate) fn pairing_eq(a1: G1Point, b1: G2Point, a2: G1Point, b2: G2Point) -> (r: bool)
    requires
        g1_in(a1),
        g2_in(b1),
        g1_in(a2),
        g2_in(b2),
    ensures
        r <==> rmod(g1_val(a1) * g2_val(b1)) == rmod(g1_val(a2) * g2_val(b2)),
{
    let lhs = <ark_bls12_381::Bls12_381 as ark_ec::pairing::Pairing>::pairing(a1.inner, b1.inner);
    let rhs = <ark_bls12_381::Bls12_381 as ark_ec::pairing::Pairing>::pairing(a2.inner, b2.inner);
    lhs == rhs
}

} // verus!
