use vstd::prelude::*;

verus! {

/// The number of Monte Carlo sweeps spent at one temperature, as the pair
/// (thermalisation sweeps, measurement sweeps), for a lattice of linear size `l`.
pub open spec fn spec_sweep_counts(l: int) -> (int, int) {
    if l <= 16 {
        (1_000, 10_000)
    } else if l <= 32 {
        (3_000, 30_000)
    } else {
        (8_000, 80_000)
    }
}

/// Thermalisation and measurement sweep counts for linear size `l`.
/// The autocorrelation time of local updates grows as `L^z` with `z ≈ 2`
/// near the critical point, so larger lattices get longer runs.
pub fn sweep_counts(l: usize) -> (counts: (usize, usize))
    ensures
        (counts.0 as int, counts.1 as int) == spec_sweep_counts(l as int),
{
    if l <= 16 {
        (1_000, 10_000)
    } else if l <= 32 {
        (3_000, 30_000)
    } else {
        (8_000, 80_000)
    }
}

} // verus!
