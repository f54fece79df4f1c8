//! Anti-detection timing: jittered delays between browser actions.

use vstd::prelude::*;

verus! {

/// Clamp a sampled delay into the configured jitter window.
///
/// The session sleeps a randomized duration between `min_millis` and
/// `max_millis` before each action; when the window is empty
/// (`min_millis >= max_millis`) the lower bound alone is used.
pub fn jitter_millis(min_millis: u64, max_millis: u64, sample: u64) -> (d: u64)
    ensures
        min_millis >= max_millis ==> d == min_millis,
        min_millis < max_millis ==> min_millis <= d < max_millis,
{
    if min_millis >= max_millis {
        min_millis
    } else if sample < min_millis || sample >= max_millis {
        min_millis
    } else {
        sample
    }
}

/// Relies on rand's `random_range`: a uniform draw in `[lo, hi)`; it
/// panics on an empty range, so one is ruled out here.
#[verifier::external_body]
fn sample_millis(lo: u64, hi: u64) -> (r: u64)
    requires
        lo < hi,
    ensures
        lo <= r < hi,
{
    rand::random_range(lo..hi)
}

/// A randomized delay in the configured window, for human-like pacing:
/// within `[min_millis, max_millis)` when the window is non-empty, exactly
/// `min_millis` otherwise.
pub fn jittered_delay(min_millis: u64, max_millis: u64) -> (d: u64)
    ensures
        min_millis >= max_millis ==> d == min_millis,
        min_millis < max_millis ==> min_millis <= d < max_millis,
{
    if min_millis >= max_millis {
        min_millis
    } else {
        let sample = sample_millis(min_millis, max_millis);
        jitter_millis(min_millis, max_millis, sample)
    }
}

} // verus!
