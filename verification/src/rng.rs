//! The random source of key generation, encryption and proofs.

use rand::RngCore;
use rand_chacha::ChaCha20Rng;
use vstd::prelude::*;

verus! {

/// The ChaCha20 generator of `rand_chacha`, carried through opaquely.
#[verifier::external_type_specification]
#[verifier::external_body]
pub struct ExChaCha20Rng(ChaCha20Rng);

/// Draws 64 bits from the generator with `RngCore::next_u64`. Nothing is
/// promised of the value: it is random.
#[verifier::external_body]
pub(crate) fn next_u64(rng: &mut ChaCha20Rng) -> u64 {
    rng.next_u64()
}

/// Draws 32 bits from the generator with `RngCore::next_u32`. Nothing is
/// promised of the value: it is random.
#[verifier::external_body]
pub(crate) fn next_u32(rng: &mut ChaCha20Rng) -> u32 {
    rng.next_u32()
}

} // verus!
