use vstd::prelude::*;
use rand::Rng;

verus! {

// The thread's random number generator of `rand`, as the skip list and the
// shuffle draw from it.

/// Lets `rand::rngs::ThreadRng` stand in signatures and fields; nothing in
/// it is visible.
#[verifier::external_type_specification]
#[verifier::external_body]
pub struct ExThreadRng(rand::rngs::ThreadRng);

/// `rand::thread_rng()`: a handle on the thread's random number generator.
/// Nothing is claimed of it.
#[verifier::external_body]
pub(crate) fn thread_rng_handle() -> rand::rngs::ThreadRng {
    rand::thread_rng()
}

/// `Rng::gen::<u32>()` on the thread's generator.  Nothing is claimed of the
/// number drawn.
#[verifier::external_body]
pub(crate) fn random_u32(rng: &mut rand::rngs::ThreadRng) -> u32 {
    rng.gen::<u32>()
}

} // verus!
