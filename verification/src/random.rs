//! The source of randomness.

use rand::Rng;
use vstd::prelude::*;

verus! {

/// Draws a number below `bound` with `rand::Rng::gen_range` on the thread's
/// generator. Trusted: the result lies in `0 .. bound`; nothing is claimed of
/// which number it is. The call panics on an empty range, so `bound` must be
/// positive.
#[verifier::external_body]
pub(crate) fn random_below(bound: usize) -> (r: usize)
    requires
        bound > 0,
    ensures
        r < bound,
{
    rand::thread_rng().gen_range(0..bound)
}

} // verus!
