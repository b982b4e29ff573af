//! The one source of chance in the game.

use rand::Rng;
use vstd::prelude::*;

verus! {

/// Draws an integer between `low` and `high`, both included.
///
/// This calls `Rng::gen_range` of the `rand` crate on its thread-local
/// generator (`thread_rng`) with the inclusive range `low..=high`. The
/// contract is believed, not proved. It claims only that the draw lies in
/// the range: the sampler of `rand` adds to `low` an offset smaller than the
/// size of the range. `rand` documents the draw as uniform over the range;
/// no contract can say so, and nothing here does. `gen_range` panics on an
/// empty range, which the precondition rules out. The generator itself
/// panics if the operating system cannot seed it; no input causes or
/// prevents that.
#[verifier::external_body]
pub(crate) fn random_in_range(low: i32, high: i32) -> (r: i32)
    requires
        low <= high,
    ensures
        low <= r <= high,
{
    rand::thread_rng().gen_range(low..=high)
}

} // verus!
