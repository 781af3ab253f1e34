//! (k, n) threshold secret sharing over a prime field.
//!
//! A secret is hidden as the constant term of a polynomial of degree k - 1
//! whose other coefficients are drawn uniformly at random; evaluating the
//! polynomial at x = 1..n yields n shares, and any k of them with distinct
//! x-coordinates recover the secret by Lagrange interpolation. The crate
//! holds the field adapter, the polynomial arithmetic, the interpolator and
//! the sharing protocol, each operation with a contract over sequences of
//! field values. One policy choice: an empty coefficient list is accepted
//! and treated as the zero polynomial rather than rejected, so no
//! invalid-polynomial error arises.

use vstd::prelude::*;

pub mod field;
pub mod poly;
pub mod interp;
pub mod shamir;
pub mod evals;

verus! {

/// Errors raised by the secret-sharing engine.
#[derive(Clone, Copy, PartialEq, Eq, Structural, Debug)]
pub enum ShamirError {
    /// Interpolation was called with repeated x-coordinates.
    DuplicateEvaluationPoint,
    /// A Lagrange denominator evaluated to the field's zero (defensive check).
    SingularInterpolation,
    /// A multiplicative inverse was requested on the field's zero.
    NotInvertible,
}

} // verus!
