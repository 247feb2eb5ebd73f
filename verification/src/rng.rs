//! The ChaCha20 random generator of `rand_chacha`, behind trusted wrappers.

use crate::Share;
use rand::RngCore;
use rand::SeedableRng;
use rand_chacha::ChaCha20Rng;
use vstd::prelude::*;

verus! {

/// The ChaCha20 generator of `rand_chacha`, carried through unopened.
#[verifier::external_type_specification]
#[verifier::external_body]
pub struct ExChaCha20Rng(ChaCha20Rng);

/// A generator seeded from the operating system (`SeedableRng::from_os_rng`).
/// Nothing is stated of its state: it depends on the operating system's
/// entropy, and the call panics only if the operating system cannot supply it.
#[verifier::external_body]
pub(crate) fn os_seeded_rng() -> ChaCha20Rng {
    ChaCha20Rng::from_os_rng()
}

/// Overwrites every byte of `buf` with output of the generator
/// (`RngCore::fill_bytes`). What the bytes are is left unsaid: they depend on
/// the generator's hidden state.
#[verifier::external_body]
pub(crate) fn fill_random_share(rng: &mut ChaCha20Rng, buf: &mut Share) {
    rng.fill_bytes(buf)
}

} // verus!
