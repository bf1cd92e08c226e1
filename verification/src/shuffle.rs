//! The randomness boundary: a seedable generator and a uniform shuffle,
//! both supplied by the `rand` crate and taken on trust.

use vstd::prelude::*;

use crate::engine::ids_of;
use crate::types::Card;
use rand::seq::SliceRandom;

verus! {

#[verifier::external_type_specification]
#[verifier::external_body]
pub struct ExStdRng(rand::rngs::StdRng);

/// Relies on rand::SeedableRng::seed_from_u64: builds a generator whose
/// stream is a function of the seed alone, so a session can be replayed.
/// Nothing is claimed of the stream itself.
#[verifier::external_body]
pub(crate) fn rng_from_seed(seed: u64) -> rand::rngs::StdRng {
    rand::SeedableRng::seed_from_u64(seed)
}

/// Relies on rand::seq::SliceRandom::shuffle: a Fisher-Yates pass that
/// reorders the slice in place by element swaps. The order that comes out is
/// random; the multiset of cards -- and so of their ids -- is exactly kept.
#[verifier::external_body]
pub(crate) fn shuffle_cards(rng: &mut rand::rngs::StdRng, cards: &mut Vec<Card>)
    ensures
        final(cards)@.to_multiset() == old(cards)@.to_multiset(),
        final(cards)@.len() == old(cards)@.len(),
        ids_of(final(cards)@).to_multiset() == ids_of(old(cards)@).to_multiset(),
{
    cards.shuffle(rng);
}

} // verus!
