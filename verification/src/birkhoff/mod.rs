//! Birkhoff secret sharing: shares are values of derivatives of the sharing
//! polynomial, and the secret is recovered by solving a linear system.

pub mod linear;
pub mod primitives;
pub mod protocol;
