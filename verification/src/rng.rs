//! The random number generator behind the deal and the bots, and the two
//! calls into `rand` that the engine makes with it.

use vstd::prelude::*;
use crate::card::Card;
use rand::seq::{IndexedRandom, SliceRandom};
use rand::SeedableRng;
use rand_chacha::ChaCha8Rng;

verus! {

/// `rand_chacha::ChaCha8Rng`, carried through the engine as an opaque value.
#[verifier::external_type_specification]
#[verifier::external_body]
pub struct ExChaCha8Rng(ChaCha8Rng);

/// `ChaCha8Rng`'s derived `Clone`: the clone copies every field of the
/// generator, so it is a generator in the same state.
pub assume_specification[ <ChaCha8Rng as Clone>::clone ](rng: &ChaCha8Rng) -> (r: ChaCha8Rng)
    ensures
        r == *rng,
;

/// The order in which a generator freshly seeded with `seed` shuffles
/// `cards`. ChaCha generators are reproducible on every platform and rand's
/// shuffle draws only from its generator, so this order depends on the cards
/// and the seed alone.
pub uninterp spec fn seeded_shuffle(cards: Seq<Card>, seed: u64) -> Seq<Card>;

/// Seeds a `ChaCha8Rng` with `ChaCha8Rng::seed_from_u64(seed)`, shuffles the
/// cards with it by `SliceRandom::shuffle`, and hands back the generator
/// for later draws. The cards come out in the order `seeded_shuffle` names,
/// which is a permutation of the cards before (rand shuffles by element
/// swaps). Nothing is claimed about the generator's state afterwards.
#[verifier::external_body]
pub(crate) fn shuffle_seeded(cards: &mut Vec<Card>, seed: u64) -> (rng: ChaCha8Rng)
    ensures
        final(cards)@ == seeded_shuffle(old(cards)@, seed),
        final(cards)@.to_multiset() == old(cards)@.to_multiset(),
        final(cards)@.len() == old(cards)@.len(),
{
    let mut rng = ChaCha8Rng::seed_from_u64(seed);
    cards.shuffle(&mut rng);
    rng
}

/// Calls `SliceRandom::shuffle` on the cards. rand shuffles in place by a
/// sequence of element swaps (Fisher–Yates), so the claim is that the cards
/// afterwards are a permutation of the cards before; which permutation
/// depends on the generator's state and is not stated.
#[verifier::external_body]
pub(crate) fn shuffle_cards(cards: &mut Vec<Card>, rng: &mut ChaCha8Rng)
    ensures
        final(cards)@.to_multiset() == old(cards)@.to_multiset(),
        final(cards)@.len() == old(cards)@.len(),
{
    cards.shuffle(rng);
}

/// Calls `IndexedRandom::choose` on the slot list: `None` exactly when the
/// list is empty, otherwise one of its elements. Which element depends on
/// the generator's state and is not stated.
#[verifier::external_body]
pub(crate) fn choose_slot(slots: &Vec<u8>, rng: &mut ChaCha8Rng) -> (r: Option<u8>)
    ensures
        r is None <==> slots@.len() == 0,
        r matches Some(s) ==> slots@.contains(s),
{
    slots.choose(rng).copied()
}

} // verus!
