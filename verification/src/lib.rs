//! KZG polynomial commitments over BLS12-381, with an aggregatable
//! subvector commitment (ASVC) built on the same trusted setup.
//!
//! The scheme is verified against a mathematical model of the curve:
//! scalars are integers modulo the scalar-field order, and group
//! elements are tracked by their discrete logarithms with respect to
//! the canonical generators.

use vstd::prelude::*;

pub mod field;
pub mod group;
pub mod modular;
pub mod poly;
pub mod kzg;
pub mod asvc;

verus! {

/// Failure conditions that commitment-scheme operations report.
/// Verification outcomes are booleans, never errors.
#[derive(Clone, Copy, Debug, PartialEq, Eq, Structural)]
pub enum Error {
    /// The divisor polynomial is empty or identically zero.
    DivisionByZero,
    /// A polynomial or vector length does not match what the
    /// configured degree or domain size demands.
    DimensionMismatch,
    /// commit/open/verify was invoked before the trusted setup ran.
    UninitializedCRS,
    /// An ASVC index set is empty, has a duplicate, or holds an
    /// index outside the evaluation domain.
    InvalidIndexSet,
}

} // verus!
