//! The coin that decides how many lanes a record takes part in: the calls
//! into `rand`, whose outcomes nothing here is proved about.

use vstd::prelude::*;

verus! {

/// `rand::rngs::ThreadRng`: a handle to this thread's generator. Nothing of
/// what it holds is visible here.
#[verifier::external_type_specification]
#[verifier::external_body]
pub struct ExThreadRng(rand::rngs::ThreadRng);

/// `rand::thread_rng`: hands out this thread's generator, which the
/// operating system seeds on first use; the call panics where the system
/// has no seed to give. Nothing is claimed of the value.
pub assume_specification[ rand::thread_rng ]() -> (rng: rand::rngs::ThreadRng);

/// `rand::Rng::gen::<bool>` on the thread's generator: one coin flip. The
/// outcome is random, so nothing is claimed of it.
#[verifier::external_body]
pub(crate) fn flip(rng: &mut rand::rngs::ThreadRng) -> (heads: bool) {
    rand::Rng::gen::<bool>(rng)
}

} // verus!
