//! Trusted boundary to the pseudo-random number generator.
//!
//! The session keeps a PCG-32 generator from the `rand_pcg` crate and asks
//! the `rand` crate for index samples and in-place shuffles. The generator
//! is opaque here; every contract states only what holds of any outcome,
//! and the grouping logic is verified for every value those calls return.

use rand::seq::SliceRandom;
use rand::SeedableRng;
use vstd::prelude::*;

verus! {

/// rand_pcg's PCG-32 generator, declared so that it can be held and passed.
#[verifier::external_type_specification]
#[verifier::external_body]
pub struct ExLcg64Xsh32(rand_pcg::Lcg64Xsh32);

/// Relies on rand_core::SeedableRng::seed_from_u64: builds a generator
/// deterministically from a 64-bit seed; never fails.
#[verifier::external_body]
pub(crate) fn pcg_from_seed(seed: u64) -> rand_pcg::Pcg32 {
    rand_pcg::Pcg32::seed_from_u64(seed)
}

/// Relies on rand::random: a machine-entropy value; nothing is promised of it.
#[verifier::external_body]
pub(crate) fn random_seed() -> u64 {
    rand::random::<u64>()
}

/// Relies on rand::seq::index::sample: exactly `amount` distinct indices
/// from `0..length`, in random order. It panics when `amount > length`,
/// so that case is excluded here.
#[verifier::external_body]
pub(crate) fn sample_indices(rng: &mut rand_pcg::Pcg32, length: usize, amount: usize) -> (idxs: Vec<
    usize,
>)
    requires
        amount <= length,
    ensures
        idxs@.len() == amount,
        forall|i: int| 0 <= i < idxs@.len() ==> idxs@[i] < length,
        forall|i: int, j: int| 0 <= i < j < idxs@.len() ==> idxs@[i] != idxs@[j],
{
    rand::seq::index::sample(rng, length, amount).into_vec()
}

/// Relies on rand::seq::SliceRandom::shuffle: permutes the slice in place
/// (a Fisher-Yates pass), so the contents are kept as a multiset.
#[verifier::external_body]
pub(crate) fn shuffle_vec<T>(rng: &mut rand_pcg::Pcg32, items: &mut Vec<T>)
    ensures
        final(items)@.len() == old(items)@.len(),
        final(items)@.to_multiset() == old(items)@.to_multiset(),
{
    items.shuffle(rng)
}

} // verus!
