//! Seeded random numbers, from the `rand` crate.

use rand::rngs::StdRng;
use rand::seq::SliceRandom;
use rand::{Rng, SeedableRng};
use vstd::prelude::*;

verus! {

/// The seeded random number generator of the `rand` crate.
#[verifier::external_type_specification]
#[verifier::external_body]
pub struct ExStdRng(StdRng);

/// The state of a generator seeded with `seed`.
pub uninterp spec fn seeded_state(seed: u64) -> StdRng;

/// Calls `StdRng::seed_from_u64`: the generator's state depends on the seed alone.
#[verifier::external_body]
pub(crate) fn seeded(seed: u64) -> (rng: StdRng)
    ensures
        rng == seeded_state(seed),
{
    StdRng::seed_from_u64(seed)
}

/// What a generator in state `rng` draws from the bytes up to and including `max`, and
/// its state after that.
pub uninterp spec fn byte_drawn(rng: StdRng, max: u8) -> (u8, StdRng);

/// Calls `Rng::gen_range(0..=max)` for bytes: the byte drawn is in the range, and it and
/// the state of the generator after the call depend on its state before the call and on
/// the range alone.
#[verifier::external_body]
pub(crate) fn draw_byte(rng: &mut StdRng, max: u8) -> (x: u8)
    ensures
        x <= max,
        (x, *final(rng)) == byte_drawn(*old(rng), max),
{
    rng.gen_range(0..=max)
}

/// What a generator in state `rng` draws from the numbers up to and including `max`,
/// and its state after that.
pub uninterp spec fn number_drawn(rng: StdRng, max: u64) -> (u64, StdRng);

/// Calls `Rng::gen_range(0..=max)` for numbers of 64 bits: the number drawn is in the
/// range, and it and the state of the generator after the call depend on its state
/// before the call and on the range alone.
#[verifier::external_body]
pub(crate) fn draw_number(rng: &mut StdRng, max: u64) -> (x: u64)
    ensures
        x <= max,
        (x, *final(rng)) == number_drawn(*old(rng), max),
{
    rng.gen_range(0..=max)
}

/// The order into which a generator in state `rng` shuffles `items`, and its state after
/// that.
pub uninterp spec fn shuffled(items: Seq<u64>, rng: StdRng) -> (Seq<u64>, StdRng);

/// Calls `SliceRandom::shuffle`: the same items stay, in an order that depends on what
/// they are and on the state of the generator before the call alone, as its state after
/// the call does.
#[verifier::external_body]
pub(crate) fn shuffle(items: &mut Vec<u64>, rng: &mut StdRng)
    ensures
        (final(items)@, *final(rng)) == shuffled(old(items)@, *old(rng)),
        final(items)@.to_multiset() == old(items)@.to_multiset(),
{
    items.shuffle(rng);
}

} // verus!
