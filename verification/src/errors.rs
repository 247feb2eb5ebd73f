//! Errors of the sharing schemes.

use vstd::prelude::*;

verus! {

/// Errors of Shamir sharing and Lagrange reconstruction.
#[derive(Debug, PartialEq, Eq)]
pub enum ShamirError {
    /// The threshold exceeds the number of shares.
    ThresholdGreaterThanNbOfShares { threshold: usize, number_of_shares: usize },
    /// The threshold is below 2.
    ThresholdTooSmall,
    /// There are fewer values than interpolation coefficients.
    TooFewCoefs,
    /// Two Lagrange abscissas are equal.
    IdenticalAbsc,
    /// A Lagrange denominator has no inverse modulo the field modulus. For the
    /// prime modulus this happens only for a zero denominator.
    NotInvertible,
}

/// Errors of Birkhoff sharing and reconstruction.
#[derive(Debug, PartialEq, Eq)]
pub enum BirkhoffError {
    /// The protocol's parameters do not allow the secret to be recovered.
    ProtocolNonSolvable,
    /// The linear system is malformed.
    LinearSystem { e: String },
    /// Fewer equations than the degree requires.
    NbEqnsTooLow,
}

} // verus!
