use rand::rngs::ThreadRng;
use rand::Rng;
use vstd::prelude::*;

verus! {

/// The generator of rand that each thread keeps, seeded by the system.
#[verifier::external_type_specification]
#[verifier::external_body]
pub struct ExThreadRng(rand::rngs::ThreadRng);

/// Relies on rand::thread_rng: it hands out the calling thread's generator
/// (it panics only where the system gives no entropy to seed it).
pub assume_specification[ rand::thread_rng ]() -> rand::rngs::ThreadRng;

/// Relies on rand's `Rng::gen::<usize>`: it returns an arbitrary `usize`, of
/// which nothing is promised.
#[verifier::external_body]
pub(crate) fn draw_usize(rng: &mut ThreadRng) -> usize {
    rng.gen::<usize>()
}

} // verus!
