//! The pseudorandom sources of level layout and pickup drops, from the
//! `rand` and `pcg_rand` crates. A stream seeded with a given seed is the
//! same in every run, so the draws of the level layout are named as
//! functions of the seed; of a single draw nothing is promised beyond its
//! range.

use vstd::prelude::*;
use pcg_rand::Pcg32Basic;
use rand::distributions::{Bernoulli, Distribution};
use rand::{Rng, SeedableRng};
use rand_core::RngCore;

verus! {

#[verifier::external_type_specification]
#[verifier::external_body]
pub struct ExPcg32Basic(Pcg32Basic);

/// The first `n` coin flips, with chance `numerator` in `denominator`,
/// that the generator seeded with `seed` gives after it has handed out
/// one 64-bit seed.
pub uninterp spec fn root_flips(seed: u64, numerator: u32, denominator: u32, n: nat) -> Seq<bool>;

/// The first `n` coin flips, with chance `numerator` in `denominator`, of
/// the generator seeded with the first 64 bits that the generator seeded
/// with `seed` hands out.
pub uninterp spec fn child_flips(seed: u64, numerator: u32, denominator: u32, n: nat) -> Seq<bool>;

/// Relies on `SeedableRng::seed_from_u64` for pcg_rand's `Pcg32Basic`: a
/// generator whose stream the seed determines.
#[verifier::external_body]
pub(crate) fn seeded(seed: u64) -> Pcg32Basic {
    Pcg32Basic::seed_from_u64(seed)
}

/// Relies on `Pcg32Basic::seed_from_u64`, `RngCore::next_u64`,
/// `Bernoulli::from_ratio` (which succeeds when `numerator <= denominator`
/// and `denominator > 0`) and `Distribution::sample_iter`: `n` flips of the
/// root generator after the child seed is drawn, a function of the
/// arguments alone.
#[verifier::external_body]
pub(crate) fn root_flip_stream(seed: u64, numerator: u32, denominator: u32, n: usize) -> (r: Vec<bool>)
    requires
        numerator <= denominator,
        denominator > 0,
    ensures
        r@ == root_flips(seed, numerator, denominator, n as nat),
        r@.len() == n,
{
    let mut root = Pcg32Basic::seed_from_u64(seed);
    root.next_u64();
    Bernoulli::from_ratio(numerator, denominator).unwrap().sample_iter(root).take(n).collect()
}

/// Relies on the same calls: `n` flips of the child generator, seeded with
/// the root generator's first 64 bits, a function of the arguments alone.
#[verifier::external_body]
pub(crate) fn child_flip_stream(seed: u64, numerator: u32, denominator: u32, n: usize) -> (r: Vec<bool>)
    requires
        numerator <= denominator,
        denominator > 0,
    ensures
        r@ == child_flips(seed, numerator, denominator, n as nat),
        r@.len() == n,
{
    let mut root = Pcg32Basic::seed_from_u64(seed);
    let child = Pcg32Basic::seed_from_u64(root.next_u64());
    Bernoulli::from_ratio(numerator, denominator).unwrap().sample_iter(child).take(n).collect()
}

/// Relies on rand's `Rng::gen_range` on `0..n`: a number below `n` (the
/// call panics on an empty range, which `n > 0` rules out).
#[verifier::external_body]
pub(crate) fn below(rng: &mut Pcg32Basic, n: u32) -> (r: u32)
    requires
        n > 0,
    ensures
        r < n,
{
    rng.gen_range(0..n)
}

} // verus!
