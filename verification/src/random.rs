//! Chance: shuffling the deck.

use rand::seq::SliceRandom;
use vstd::prelude::*;

use crate::card::Card;

verus! {

/// Wraps `SliceRandom::shuffle` from `rand`, driven by the thread's random
/// number generator `rand::rng()`: the cards end in a random order, and the
/// same cards are there as before. Which order comes out is not stated.
#[verifier::external_body]
pub(crate) fn shuffle_cards(cards: &mut Vec<Card>)
    ensures
        final(cards)@.to_multiset() == old(cards)@.to_multiset(),
{
    let mut rng = rand::rng();
    cards.shuffle(&mut rng);
}

} // verus!
