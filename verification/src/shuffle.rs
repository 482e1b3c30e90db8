//! Randomness: the thread's random generator and shuffling a deck with it.
use vstd::prelude::*;

use rand::rngs::ThreadRng;
use rand::seq::SliceRandom;

use crate::card::Card;

verus! {

#[verifier::external_type_specification]
#[verifier::external_body]
pub struct ExThreadRng(ThreadRng);

/// `rand::rng`: a handle to the thread's random generator. Nothing is claimed
/// of the generator's state; the call panics only when the operating system's
/// random source cannot be read, which no argument can rule out.
#[verifier::external_body]
pub(crate) fn thread_rng() -> ThreadRng {
    rand::rng()
}

/// `SliceRandom::shuffle` on the deck: the cards come out in an order chosen by
/// `rng`, as a permutation of the cards that went in (the source swaps
/// elements only). Which order comes out is left unsaid: it rests on chance.
/// The call panics only if the generator must reseed from the operating
/// system's random source and cannot read it, which no argument can rule out.
#[verifier::external_body]
pub(crate) fn shuffle_cards(deck: &mut Vec<Card>, rng: &mut ThreadRng)
    ensures
        final(deck)@.to_multiset() == old(deck)@.to_multiset(),
{
    deck.shuffle(rng);
}

} // verus!
