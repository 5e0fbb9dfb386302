use rand::rngs::SmallRng;
use rand::Rng;
use rand::RngCore;
use vstd::prelude::*;

verus! {

/// The small, fast pseudo-random generator of `rand` that drives the
/// simulation. Verus sees nothing inside it.
#[verifier::external_type_specification]
#[verifier::external_body]
pub struct ExSmallRng(SmallRng);

/// Calls `rand::Rng::gen_range(0..n)` on `rng`: a site index drawn uniformly
/// from `0..n`. `rand` asserts that the range is not empty, so `n > 0` is
/// required; what is claimed is only that the index lies in the range.
#[verifier::external_body]
pub(crate) fn random_site(rng: &mut SmallRng, n: usize) -> (i: usize)
    requires
        n > 0,
    ensures
        i < n,
{
    rng.gen_range(0..n)
}

/// Calls `rand::RngCore::next_u64` on `rng`: the next 64 pseudo-random bits.
/// Nothing is claimed of the value, which depends on the generator's state.
#[verifier::external_body]
pub(crate) fn random_bits(rng: &mut SmallRng) -> u64 {
    rng.next_u64()
}

} // verus!
