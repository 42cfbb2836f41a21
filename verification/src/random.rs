//! The random source of the search.
//!
//! The search shuffles the moves of a new node and picks the moves of a
//! play-out with a generator of the `rand` crate, which its caller hands
//! in. What the generator gives is taken on trust, and no more is claimed
//! of it than holds whatever it gives.

use vstd::prelude::*;
use rand::rngs::StdRng;
use rand::seq::SliceRandom;
use rand::Rng;
use crate::othello::play::Play;

verus! {

/// The generator `rand::rngs::StdRng`. Nothing is known of its state.
#[verifier::external_type_specification]
#[verifier::external_body]
pub struct ExStdRng(StdRng);

/// `Rng::gen_range` of rand, called with zero and `bound`: a number drawn
/// from zero up to `bound`, which is left out. The call panics on an empty
/// range, so `bound` must not be zero. Which number comes out depends on
/// the generator, so nothing more is claimed.
#[verifier::external_body]
pub(crate) fn random_index(rng: &mut StdRng, bound: usize) -> (index: usize)
    requires
        bound > 0,
    ensures
        index < bound,
{
    rng.gen_range(0, bound)
}

/// `SliceRandom::shuffle` of rand: the moves are put in a random order, in
/// place. The call swaps elements and does nothing else, so the vector
/// holds the same moves as before, each as often as before.
#[verifier::external_body]
pub(crate) fn shuffle_plays(plays: &mut Vec<Play>, rng: &mut StdRng)
    ensures
        final(plays)@.to_multiset() == old(plays)@.to_multiset(),
{
    plays.shuffle(rng)
}

} // verus!
