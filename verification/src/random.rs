//! The random choices of the game: shuffling and picking, from `rand`.

use vstd::prelude::*;
use rand::seq::SliceRandom;

verus! {

/// Shuffles the vector in place with the thread-local generator
/// (`rand::seq::SliceRandom::shuffle` with `rand::thread_rng`).
/// The contract claims what holds of every outcome: the result is a
/// permutation of the input. Which permutation comes out is left unsaid.
#[verifier::external_body]
pub(crate) fn shuffle_vec<T>(v: &mut Vec<T>)
    ensures
        final(v)@.len() == old(v)@.len(),
        final(v)@.to_multiset() == old(v)@.to_multiset(),
{
    v.shuffle(&mut rand::thread_rng());
}

/// Picks one element of a non-empty slice at random
/// (`rand::seq::SliceRandom::choose` with `rand::thread_rng`).
/// The contract claims only that the element is one of the slice; which one
/// comes out is left unsaid.
#[verifier::external_body]
pub(crate) fn choose_from<T>(items: &[T]) -> (res: &T)
    requires
        items@.len() > 0,
    ensures
        items@.contains(*res),
{
    items.choose(&mut rand::thread_rng()).unwrap()
}

} // verus!
