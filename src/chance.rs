//! Random draws, from the thread-local generator of the `rand` crate.
use rand::Rng;
use vstd::prelude::*;

verus! {

/// Relies on `rand::Rng::gen_range` (rand 0.7) on `rand::thread_rng()`:
/// a value in `[low, high)`; it panics when `low >= high`, which the
/// precondition rules out.
#[verifier::external_body]
pub(crate) fn random_range(low: u64, high: u64) -> (r: u64)
    requires
        low < high,
    ensures
        low <= r < high,
{
    rand::thread_rng().gen_range(low, high)
}

} // verus!
