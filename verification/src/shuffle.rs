use vstd::prelude::*;
use crate::card::Card;
use rand::seq::SliceRandom;

verus! {

/// Relies on rand's `SliceRandom::shuffle`: a Fisher-Yates shuffle that
/// permutes the slice in place by swapping elements, so the deck afterwards
/// holds exactly the cards it held before, in some order.  Nothing is
/// assumed about which order comes out.
#[verifier::external_body]
pub fn shuffle_cards(deck: &mut Vec<Card>)
    ensures
        final(deck)@.len() == old(deck)@.len(),
        final(deck)@.to_multiset() == old(deck)@.to_multiset(),
{
    let mut rng = rand::rng();
    deck.shuffle(&mut rng);
}

} // verus!
