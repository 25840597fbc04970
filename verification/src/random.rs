//! The source of randomness: the thread-local generator of the `rand` crate.

use rand::rngs::ThreadRng;
use rand::Rng;
use vstd::prelude::*;

verus! {

/// `rand::rngs::ThreadRng`, the generator of the calling thread. Nothing is
/// known of its state.
#[verifier::external_type_specification]
#[verifier::external_body]
pub struct ExThreadRng(ThreadRng);

/// Calls `rand::thread_rng`, which hands out the calling thread's generator.
/// Nothing is claimed of it.
#[verifier::external_body]
pub(crate) fn thread_source() -> ThreadRng {
    rand::thread_rng()
}

/// Calls `Rng::gen` for four words of 32 bits, one per direction: left, up,
/// right, down. They are random, so nothing is claimed of them.
#[verifier::external_body]
pub(crate) fn draw_samples(rng: &mut ThreadRng) -> [u32; 4] {
    rng.gen()
}

} // verus!
