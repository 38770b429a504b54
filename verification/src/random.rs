//! The one source of chance of the game.

use rand::Rng;
use vstd::prelude::*;

verus! {

/// Draws a number below `bound` from the thread's random generator, by
/// `rand::Rng::gen_range(0, bound)` on `rand::thread_rng()`. Of every
/// outcome the contract claims only that it lies in `0..bound`, which is
/// what `gen_range` returns for a non-empty range; with `bound == 0`
/// `gen_range` panics, so the call is refused there.
#[verifier::external_body]
pub(crate) fn random_below(bound: usize) -> (r: usize)
    requires
        0 < bound,
    ensures
        r < bound,
{
    rand::thread_rng().gen_range(0, bound)
}

} // verus!
