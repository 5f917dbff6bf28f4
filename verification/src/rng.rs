//! Trusted access to the `rand` crate's seedable standard generator.
//!
//! The entropy solver draws noise decisions and candidate shuffles from an
//! explicit, seedable generator so that searches are reproducible.

use rand::Rng;
use rand::SeedableRng;
use rand::seq::SliceRandom;
use vstd::prelude::*;

verus! {

#[verifier::external_type_specification]
#[verifier::external_body]
pub struct ExStdRng(rand::rngs::StdRng);

/// Relies on rand's `StdRng::seed_from_u64`: builds a generator determined
/// by the seed. The generator is opaque; nothing is claimed about it.
#[verifier::external_body]
pub(crate) fn rng_from_seed(seed: u64) -> rand::rngs::StdRng {
    rand::rngs::StdRng::seed_from_u64(seed)
}

/// Relies on rand's `Rng::next_u32`: returns the generator's next 32-bit
/// draw. Nothing can be promised of a random value.
#[verifier::external_body]
pub(crate) fn next_u32(rng: &mut rand::rngs::StdRng) -> u32 {
    rng.next_u32()
}

/// Relies on rand's `SliceRandom::shuffle`: permutes the elements in place,
/// so the collection of values, with multiplicity, is unchanged. Which order
/// comes out is random, and nothing is claimed about it.
#[verifier::external_body]
pub(crate) fn shuffle_values<A>(rng: &mut rand::rngs::StdRng, items: &mut Vec<A>)
    ensures
        final(items)@.to_multiset() == old(items)@.to_multiset(),
{
    items.shuffle(rng);
}

} // verus!
