use vstd::prelude::*;
use rand::Rng;
use rand_chacha::rand_core::SeedableRng;

verus! {

/// Declares rand_chacha's `ChaCha20Rng` so that the generator can be held
/// and passed around; its state stays opaque to the verifier.
#[verifier::external_type_specification]
#[verifier::external_body]
pub struct ExChaCha20Rng(rand_chacha::ChaCha20Rng);

/// Relies on rand_core's `SeedableRng::from_seed` for rand_chacha's
/// `ChaCha20Rng`: builds a generator whose stream is determined by the
/// 32-byte key alone, here one byte repeated.
#[verifier::external_body]
pub(crate) fn rng_from_seed(seed: u8) -> rand_chacha::ChaCha20Rng {
    rand_chacha::ChaCha20Rng::from_seed([seed; 32])
}

/// Relies on rand's `Rng::gen_range` over the range `0..bound`: returns a
/// uniformly drawn value below `bound` and advances the generator. It panics
/// only on an empty range, which `requires` rules out.
#[verifier::external_body]
pub(crate) fn draw_index(rng: &mut rand_chacha::ChaCha20Rng, bound: usize) -> (r: usize)
    requires
        0 < bound,
    ensures
        r < bound,
{
    rng.gen_range(0..bound)
}

} // verus!
