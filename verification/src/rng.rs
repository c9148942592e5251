//! Randomness for dealing: the thread-local generator of `rand` and its
//! in-place shuffle.

use vstd::prelude::*;
use rand::seq::SliceRandom;

verus! {

/// The thread-local random number generator of `rand`.
#[verifier::external_type_specification]
#[verifier::external_body]
pub struct ExThreadRng(rand::rngs::ThreadRng);

/// Calls `rand::rng()`, which hands out the thread-local generator.
/// Nothing is promised about the generator it returns: its state depends on
/// the operating system's entropy.
#[verifier::external_body]
pub(crate) fn thread_rng() -> rand::rngs::ThreadRng {
    rand::rng()
}

/// Calls `SliceRandom::shuffle` on the elements of `items`.
/// `rand` documents it as shuffling the slice in place; its body swaps
/// elements two by two (Fisher-Yates), so the result is a permutation of the
/// input: same length, same elements with the same multiplicities. Which
/// permutation comes out depends on the generator and is left unsaid.
#[verifier::external_body]
pub(crate) fn shuffle<T>(items: &mut Vec<T>, rng: &mut rand::rngs::ThreadRng)
    ensures
        final(items)@.len() == old(items)@.len(),
        final(items)@.to_multiset() == old(items)@.to_multiset(),
{
    items.as_mut_slice().shuffle(rng);
}

} // verus!
