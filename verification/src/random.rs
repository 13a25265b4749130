//! Randomness, from the `rand` crate's thread-local generator.
//!
//! Nothing is known of the values drawn beyond their ranges; the functions
//! that decide with them take them as arguments elsewhere in the crate.

use vstd::prelude::*;
use crate::cards::Card;

verus! {

/// Calls `rand::random_range(low..=high)`: a value in the inclusive range.
/// The function panics on an empty range, so `low <= high` is required.
#[verifier::external_body]
pub(crate) fn random_between(low: u32, high: u32) -> (r: u32)
    requires
        low <= high,
    ensures
        low <= r <= high,
{
    rand::random_range(low..=high)
}

/// Calls `rand::random::<u8>()`: any byte.
#[verifier::external_body]
pub(crate) fn random_byte() -> (r: u8) {
    rand::random::<u8>()
}

/// Calls `SliceRandom::shuffle` with `rand::rng()`: the cards are put in a
/// random order, so the result is a permutation of the input.
#[verifier::external_body]
pub(crate) fn shuffle_cards(cards: &mut Vec<Card>)
    ensures
        final(cards)@.len() == old(cards)@.len(),
        final(cards)@.to_multiset() == old(cards)@.to_multiset(),
{
    rand::seq::SliceRandom::shuffle(cards.as_mut_slice(), &mut rand::rng())
}

} // verus!
