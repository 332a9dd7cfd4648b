//! The one source of chance: the random number generator of the `rand`
//! crate.

use vstd::prelude::*;

verus! {

/// The generator of the current thread, `rand::rngs::ThreadRng`. Verus sees
/// nothing inside it; the library only carries it from where it is obtained
/// to where a number is drawn.
#[verifier::external_type_specification]
#[verifier::external_body]
pub struct ExThreadRng(rand::rngs::ThreadRng);

/// `rand::thread_rng` hands out the generator of the current thread.
/// Nothing is claimed of the generator. The call takes no argument; it
/// panics only where the operating system has no entropy to seed the
/// generator with.
pub assume_specification[ rand::thread_rng ]() -> rand::rngs::ThreadRng;

/// Draws a number below `bound` from `generator`.
///
/// This calls `rand::Rng::gen_range` with the range `0..bound`. Verus does
/// not read it; it takes from this contract that the number drawn lies in
/// the range, as `gen_range` documents. `gen_range` panics on an empty
/// range, which the precondition rules out. Nothing is said of which number
/// comes: two calls with the same bound may differ.
#[verifier::external_body]
pub(crate) fn random_below(generator: &mut rand::rngs::ThreadRng, bound: usize) -> (drawn: usize)
    requires
        bound > 0,
    ensures
        drawn < bound,
{
    rand::Rng::gen_range(generator, 0..bound)
}

} // verus!
