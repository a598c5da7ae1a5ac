//! The library's two draws of chance.

use rand::seq::SliceRandom;
use vstd::prelude::*;

verus! {

/// Tosses a coin.
///
/// Calls `rand::random::<bool>()`, which samples the thread-local generator.
/// Nothing is claimed of the outcome.
#[verifier::external_body]
pub(crate) fn coin_flip() -> (heads: bool) {
    rand::random::<bool>()
}

/// Draws one of `candidates` at random.
///
/// Calls `SliceRandom::choose` on the slice with `rand::thread_rng()`. As
/// that method documents, the draw is `None` exactly for an empty slice and
/// otherwise one of the slice's elements; which one is left open.
#[verifier::external_body]
pub(crate) fn choose_one(candidates: &Vec<usize>) -> (drawn: Option<usize>)
    ensures
        candidates.len() == 0 ==> drawn is None,
        candidates.len() > 0 ==> drawn is Some && candidates@.contains(drawn.unwrap()),
{
    candidates.choose(&mut rand::thread_rng()).copied()
}

} // verus!
