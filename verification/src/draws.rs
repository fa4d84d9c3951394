//! Seeded draws from the simulation: the two sources of chance the library
//! reads itself.
use vstd::prelude::*;

verus! {

/// A per-seed tunable, drawn by `moonpool_sim::chaos::buggify::buggify_knob_internal`
/// under `location`: the default, or, where the seed activates the knob, a
/// value in `low..high` (`low` itself if that range is empty). Which of them is
/// the simulation's choice.
#[verifier::external_body]
pub(crate) fn knob(default: u64, low: u64, high: u64, location: &'static str) -> (value: u64)
    ensures
        value == default || low <= value < high || (high <= low && value == low),
{
    moonpool_sim::chaos::buggify::buggify_knob_internal(default, low..high, location)
}

/// One value of the simulation's random stream, drawn by
/// `moonpool_sim::sim_random`. Nothing is claimed of it.
#[verifier::external_body]
pub(crate) fn sim_draw() -> u64 {
    moonpool_sim::sim_random::<u64>()
}

} // verus!
