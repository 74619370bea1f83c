//! The one source of chance: a uniform draw from the thread-local generator.

use vstd::prelude::*;

verus! {

/// Relies on `rand::thread_rng` and `rand::Rng::gen_range` (rand 0.7): the
/// draw lies in `[low, high)`; `gen_range` panics when `low >= high`.
#[verifier::external_body]
pub(crate) fn draw_in_range(low: i32, high: i32) -> (r: i32)
    requires
        low < high,
    ensures
        low <= r < high,
{
    rand::Rng::gen_range(&mut rand::thread_rng(), low, high)
}

} // verus!
