//! The source of random draws.

use vstd::prelude::*;
use rand::distributions::{IndependentSample, Range};

verus! {

/// A uniform draw from `0..bound`, taken from `rand`'s thread-local generator
/// through `Range::new(0, bound)` and `ind_sample`.
///
/// `Range::new` panics on an empty range, which `requires` leaves out; for
/// integers `ind_sample` returns a value of the half-open range. Which value
/// comes back is not stated: two calls may differ.
#[verifier::external_body]
pub(crate) fn uniform_below(bound: u32) -> (draw: u32)
    requires
        0 < bound,
    ensures
        draw < bound,
{
    Range::new(0, bound).ind_sample(&mut rand::thread_rng())
}

} // verus!
