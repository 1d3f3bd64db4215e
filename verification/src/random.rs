use rand::{Rng, SeedableRng};
use rand::rngs::{OsRng, StdRng};
use rand::seq::SliceRandom;
use vstd::prelude::*;
use crate::algorithms::point::Point;

verus! {

/// `rand::rngs::StdRng`, the generator that every randomised algorithm of
/// the library draws from. Nothing is known of its state.
#[verifier::external_type_specification]
#[verifier::external_body]
pub struct ExStdRng(StdRng);

/// `rand::Error`, what a source of random bytes reports when it fails.
/// Nothing is known of what it holds.
#[verifier::external_type_specification]
#[verifier::external_body]
pub struct ExRandError(rand::Error);

/// Calls `SeedableRng::from_rng` for `StdRng` with `OsRng`: a generator
/// seeded by the operating system, or the error of the system's source
/// where it has no entropy to give. Nothing is claimed of either.
#[verifier::external_body]
pub(crate) fn system_rng() -> (drawn: Result<StdRng, rand::Error>) {
    StdRng::from_rng(OsRng)
}

/// The generator that `SeedableRng::seed_from_u64` makes for `StdRng` from
/// `seed`. It expands the seed by a fixed recurrence into the key of the
/// generator, so the same seed gives the same generator, wherever it runs.
pub uninterp spec fn seeded_generator(seed: u64) -> StdRng;

/// Calls `SeedableRng::seed_from_u64` for `StdRng`. The claim: the
/// generator is the one that the seed fixes. Nothing is claimed of what it
/// will draw.
#[verifier::external_body]
pub(crate) fn seeded_rng(seed: u64) -> (rng: StdRng)
    ensures
        rng == seeded_generator(seed),
{
    StdRng::seed_from_u64(seed)
}

/// Calls `Rng::gen_range` with the half-open range `low..high`. The claim
/// is the one of its documentation: the value lies in the range. An empty
/// range, on which it panics, is left out.
#[verifier::external_body]
pub(crate) fn random_in_range(rng: &mut StdRng, low: usize, high: usize) -> (value: usize)
    requires
        low < high,
    ensures
        low <= value < high,
{
    rng.gen_range(low..high)
}

/// Calls `Rng::gen_ratio`. The claim is the one of its documentation for
/// the two certain cases: with equal numerator and denominator the answer
/// is `true`, with numerator 0 it is `false`. The inputs on which it
/// panics are left out.
#[verifier::external_body]
pub(crate) fn random_ratio(rng: &mut StdRng, numerator: u32, denominator: u32) -> (yes: bool)
    requires
        denominator > 0,
        numerator <= denominator,
    ensures
        numerator == denominator ==> yes,
        numerator == 0 ==> !yes,
{
    rng.gen_ratio(numerator, denominator)
}

/// Calls `SliceRandom::shuffle` on the items. The claim: it only swaps
/// items, so the same items are there afterwards, each as often as before.
#[verifier::external_body]
pub(crate) fn shuffle<T>(items: &mut Vec<T>, rng: &mut StdRng)
    ensures
        final(items)@.to_multiset() == old(items)@.to_multiset(),
{
    items.shuffle(rng)
}

/// Calls `SliceRandom::choose_multiple` on the offsets and asks for as many
/// as there are. The claim: it samples that many distinct positions, so the
/// result holds the same offsets, each as often as in `items`. Lists too
/// long for the 32-bit positions that it samples are left out.
#[verifier::external_body]
pub(crate) fn choose_all(items: &Vec<(i32, i32)>, rng: &mut StdRng) -> (chosen: Vec<(i32, i32)>)
    requires
        items.len() <= u32::MAX,
    ensures
        chosen@.to_multiset() == items@.to_multiset(),
{
    items.choose_multiple(rng, items.len()).cloned().collect()
}

/// Calls `SliceRandom::choose` on the points. The claim is the one of its
/// documentation: no point for an empty list, else one of the points.
#[verifier::external_body]
pub(crate) fn choose_point(points: &Vec<Point>, rng: &mut StdRng) -> (chosen: Option<Point>)
    ensures
        chosen is None <==> points.len() == 0,
        chosen is Some ==> points@.contains(chosen->0),
{
    points.choose(rng).copied()
}

} // verus!
