//! The trusted boundary to the process randomness source. Everything else in
//! the library is verified against the two contracts below.

use vstd::prelude::*;

use rand::seq::SliceRandom;
use rand::Rng;

use crate::cards::Card;

verus! {

/// Relies on rand's `SliceRandom::shuffle` (with `rand::thread_rng` as the
/// source): it permutes the slice in place, so the cards present and their
/// number are unchanged; nothing is promised of their order.
#[verifier::external_body]
pub(crate) fn shuffle_cards(deck: &mut Vec<Card>)
    ensures
        final(deck)@.len() == old(deck)@.len(),
        final(deck)@.to_multiset() == old(deck)@.to_multiset(),
{
    let mut rng = rand::thread_rng();
    deck.shuffle(&mut rng);
}

/// Relies on rand's `Rng::gen` for `bool` (with `rand::thread_rng` as the
/// source): a coin flip; nothing is promised of the result.
#[verifier::external_body]
pub(crate) fn coin_flip() -> bool {
    let mut rng = rand::thread_rng();
    rng.gen::<bool>()
}

} // verus!
