//! The random sources of a match, from the rand crate. Nothing is promised of
//! their values beyond what holds of every outcome.

use rand::rngs::StdRng;
use rand::seq::SliceRandom;
use rand::Rng;
use rand::SeedableRng;
use vstd::prelude::*;

use crate::card::Card;

verus! {

#[verifier::external_type_specification]
#[verifier::external_body]
pub struct ExStdRng(StdRng);

/// Relies on rand's `SeedableRng::seed_from_u64`: a generator whose draws
/// follow from the seed.
#[verifier::external_body]
pub(crate) fn seeded_rng(seed: u64) -> StdRng {
    StdRng::seed_from_u64(seed)
}

/// Relies on rand's `SeedableRng::from_entropy`: a generator seeded by the
/// operating system.
#[verifier::external_body]
pub(crate) fn entropy_rng() -> StdRng {
    StdRng::from_entropy()
}

/// Relies on rand's `SliceRandom::shuffle`, which only swaps elements: the
/// cards stay the same, in some order.
#[verifier::external_body]
pub(crate) fn shuffle_cards(cards: &mut Vec<Card>, rng: &mut StdRng)
    ensures
        final(cards)@.len() == old(cards)@.len(),
        final(cards)@.to_multiset() == old(cards)@.to_multiset(),
{
    cards.shuffle(rng)
}

/// Relies on rand's `Rng::gen_range` on `0..n`, which panics only on an
/// empty range: some number below `n`.
#[verifier::external_body]
pub(crate) fn random_below(rng: &mut StdRng, n: usize) -> (r: usize)
    requires
        n > 0,
    ensures
        r < n,
{
    rng.gen_range(0..n)
}

/// Relies on rand's `SliceRandom::choose` on a slice: `None` for an empty
/// slice, else a reference to one of its elements.
#[verifier::external_body]
pub(crate) fn choose_from<'a, T>(rng: &mut StdRng, items: &'a Vec<T>) -> (r: Option<&'a T>)
    ensures
        items@.len() == 0 <==> r is None,
        r matches Some(x) ==> items@.contains(*x),
{
    items.as_slice().choose(rng)
}

/// Relies on rand's `Rng::gen::<bool>`: a coin flip.
#[verifier::external_body]
pub(crate) fn random_bool(rng: &mut StdRng) -> bool {
    rng.gen::<bool>()
}

} // verus!
