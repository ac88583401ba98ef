//! Sources of randomness.
//!
//! The simulation draws everything from deterministically seeded
//! `StdRng`s, as the arkworks test helpers do; nothing here is
//! cryptographically secure. Of a random draw the contracts state only what
//! holds of every outcome.
use crate::field::Fe;
use ark_bls12_381::Fr;
use ark_ff::PrimeField;
use ark_poly::{DenseMultilinearExtension, MultilinearExtension, SparseMultilinearExtension};
use ark_std::rand::rngs::StdRng;
use ark_std::rand::{Rng, SeedableRng};
use ark_std::UniformRand;
use vstd::arithmetic::power2::pow2;
use vstd::prelude::*;

verus! {

/// The generator type `StdRng` of `rand`, as re-exported by `ark_std`:
/// opaque, it is only handed to the drawing functions below.
#[verifier::external_type_specification]
#[verifier::external_body]
pub struct ExStdRng(StdRng);

/// Calls `StdRng::from_seed`. Nothing is stated of the generator.
#[verifier::external_body]
fn rng_from_seed(seed: [u8; 32]) -> StdRng {
    StdRng::from_seed(seed)
}

/// The generator `ark_std::test_rng` returns when it is deterministic: a
/// `StdRng` from its fixed seed, so it yields the same stream.
pub fn deterministic_rng() -> StdRng {
    rng_from_seed([
        1, 0, 0, 0, 23, 0, 0, 0, 200, 1, 0, 0, 210, 30, 0, 0, 0, 0, 0, 0, 0, 0, 0, 0, 0, 0, 0, 0,
        0, 0, 0, 0,
    ])
}

/// Calls `StdRng::seed_from_u64`. Nothing is stated of the generator.
#[verifier::external_body]
pub(crate) fn seeded_rng(seed: u64) -> StdRng {
    StdRng::seed_from_u64(seed)
}

/// Calls `Fr::rand`: a field element drawn from `rng`. Nothing is stated of
/// its value (every element lies in `[0, p)` in any case).
#[verifier::external_body]
pub(crate) fn random_fe(rng: &mut StdRng) -> Fe {
    Fe::from_limbs(Fr::rand(rng).into_bigint().0)
}

/// Calls `Rng::gen_ratio(numerator, denominator)`, which panics unless
/// `0 < denominator` and `numerator <= denominator`: `true` with chance
/// `numerator / denominator`, always where the two are equal and never where
/// `numerator` is zero.
#[verifier::external_body]
pub(crate) fn random_ratio(rng: &mut StdRng, numerator: u32, denominator: u32) -> (r: bool)
    requires
        0 < denominator,
        numerator <= denominator,
    ensures
        numerator == denominator ==> r,
        numerator == 0 ==> !r,
{
    rng.gen_ratio(numerator, denominator)
}

/// Calls `Rng::gen_range(0..n)`, which panics on an empty range: an index
/// below `n`.
#[verifier::external_body]
pub(crate) fn random_below(rng: &mut StdRng, n: usize) -> (r: usize)
    requires
        n > 0,
    ensures
        r < n,
{
    rng.gen_range(0..n)
}

/// Calls `DenseMultilinearExtension::<Fr>::rand`: the `2^num_vars` values of
/// a random table, drawn in order from `rng`. It builds the table from the
/// range `0..(1 << num_vars)` of `i32`, so it panics from `num_vars = 31` on.
#[verifier::external_body]
pub(crate) fn random_dense_evaluations(num_vars: usize, rng: &mut StdRng) -> (r: Vec<Fe>)
    requires
        num_vars <= 30,
    ensures
        r.len() == pow2(num_vars as nat),
{
    let m = DenseMultilinearExtension::<Fr>::rand(num_vars, rng);
    m.evaluations.iter().map(|x| Fe::from_limbs(x.into_bigint().0)).collect()
}

/// Calls `SparseMultilinearExtension::<Fr>::rand_with_config`, which panics
/// unless `count <= 2^num_vars`: `count` entries at distinct random indices
/// of the hypercube (the keys of a map), with random values.
#[verifier::external_body]
pub(crate) fn random_sparse_entries(num_vars: usize, count: usize, rng: &mut StdRng) -> (r: Vec<(usize, Fe)>)
    requires
        pow2(num_vars as nat) <= usize::MAX,
        count <= pow2(num_vars as nat),
    ensures
        r.len() == count,
        forall|k: int| 0 <= k < r.len() ==> #[trigger] r@[k].0 < pow2(num_vars as nat),
        crate::mle::distinct_indices(r@),
{
    let m = SparseMultilinearExtension::<Fr>::rand_with_config(num_vars, count, rng);
    m.evaluations.iter().map(|(i, x)| (*i, Fe::from_limbs(x.into_bigint().0))).collect()
}

} // verus!
