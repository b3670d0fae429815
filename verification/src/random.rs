//! The one source of chance of the game.

use rand::Rng;
use vstd::prelude::*;

verus! {

/// Draws an index below `bound` from the random number generator of the
/// current thread, by `rand::thread_rng` and `rand::Rng::gen_range` with the
/// bounds 0 and `bound`.
///
/// Not proved: `gen_range` returns a value that is at least its lower bound
/// and below its upper bound. It panics where the upper bound is not above
/// the lower one, so `bound` must not be 0. Nothing is claimed about which
/// index is drawn. `thread_rng` panics where the system gives the generator
/// no seed, whatever `bound` is.
#[verifier::external_body]
pub(crate) fn random_index(bound: usize) -> (index: usize)
    requires
        bound > 0,
    ensures
        index < bound,
{
    rand::thread_rng().gen_range(0, bound)
}

} // verus!
