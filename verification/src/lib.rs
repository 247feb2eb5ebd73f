//! Finite-field arithmetic over the Mersenne prime field of size 2^9689 - 1,
//! Shamir and packed secret sharing with Lagrange reconstruction, Birkhoff
//! (derivative-based) secret sharing, and the MULTISS protocols that combine
//! them to store a secret across several QKD networks.

use vstd::prelude::*;

pub mod algebra;
pub mod birkhoff;
pub mod bytes;
pub mod errors;
pub mod field;
pub mod implementations;
pub mod interpolation;
pub mod multiss;
pub mod natural;
pub mod packed;
pub mod rng;
pub mod secret_sharing;

verus! {

/// Number of bytes needed to hold any element of the field.
pub const MODULO_BYTE_SIZE: usize = 1212;

/// Size in bytes of a serialized share: the field size rounded up to a
/// multiple of 8, so that it splits evenly into 64-bit limbs.
pub const SHARE_BYTE_SIZE: usize = 1216;

/// A serialized field element, big-endian and left-padded with zeros.
pub type Share = [u8; SHARE_BYTE_SIZE];

/// Smallest threshold that a sharing scheme accepts.
pub const MIN_THRESHOLD: usize = 2;

/// Exponent of the Mersenne prime 2^e - 1 used as the field modulus.
pub const MERSENNE_EXP: usize = 9689;

/// The known Mersenne exponents: the e for which 2^e - 1 is prime.
pub const ALLOWED: [usize; 52] = [
    2, 3, 5, 7, 13, 17, 19, 31, 61, 89, 107, 127, 521, 607, 1279, 2203, 2281, 3217, 4253, 4423,
    9689, 9941, 11213, 19937, 21701, 23209, 44497, 86243, 110503, 132049, 216091, 756839, 859433,
    1257787, 1398269, 2976221, 3021377, 6972593, 13466917, 20996011, 24036583, 25964951, 30402457,
    32582657, 37156667, 42643801, 43112609, 57885161, 74207281, 77232917, 82589933, 136279841,
];

/// The exponent of the field modulus is one of the known Mersenne exponents.
pub proof fn lemma_exponent_allowed()
    ensures
        ALLOWED@.contains(MERSENNE_EXP),
{
    assert(ALLOWED@[20] == MERSENNE_EXP);
}

/// The byte sizes follow from the exponent: the modulus takes
/// ceil(e / 8) bytes, and a share is that rounded up to a multiple of 8.
pub proof fn lemma_byte_sizes()
    ensures
        MODULO_BYTE_SIZE == (MERSENNE_EXP + 7) / 8,
        SHARE_BYTE_SIZE % 8 == 0,
        MODULO_BYTE_SIZE <= SHARE_BYTE_SIZE < MODULO_BYTE_SIZE + 8,
{
}

/// Returns whether `x` occurs in `xs`.
pub fn contains(xs: &[usize], x: usize) -> (r: bool)
    ensures
        r == xs@.contains(x),
{
    let mut i: usize = 0;
    while i < xs.len()
        invariant
            i <= xs.len(),
            forall|j: int| 0 <= j < i ==> xs@[j] != x,
        decreases xs.len() - i,
    {
        if xs[i] == x {
            return true;
        }
        i += 1;
    }
    false
}

} // verus!
