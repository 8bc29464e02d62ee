//! The source of randomness: the thread-local generator of the `rand` crate.
//! Nothing here is proved; each item says what it takes on trust.

use rand::Rng;
use vstd::prelude::*;

verus! {

/// `rand::rngs::ThreadRng`, the handle to the thread-local generator, taken
/// as an opaque value.
#[verifier::external_type_specification]
#[verifier::external_body]
pub struct ExThreadRng(rand::rngs::ThreadRng);

/// `rand::thread_rng`: hands out the handle. Nothing is claimed of it. The
/// call takes no argument, so no `requires` can rule out its one way to fail:
/// on first use in a thread the generator is seeded from the operating system
/// and registers a fork handler, and it panics where either is refused.
pub assume_specification[ rand::thread_rng ]() -> (rng: rand::rngs::ThreadRng);

/// `Rng::gen::<u32>`: the next 32 random bits. Nothing is claimed of them:
/// every `u32` may come back. The generator reseeds itself from the operating
/// system from time to time and panics where that fails; this depends on no
/// argument, so no `requires` can rule it out.
#[verifier::external_body]
pub(crate) fn next_draw(rng: &mut rand::rngs::ThreadRng) -> (bits: u32) {
    rng.gen::<u32>()
}

} // verus!
