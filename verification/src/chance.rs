//! The one source of chance: the thread's random number generator.

use rand::Rng;
use vstd::prelude::*;

verus! {

/// A draw from `0..bound`.
///
/// Calls `rand::Rng::gen_range` with the half-open range `0..bound` on
/// `rand::thread_rng()`. That function panics on an empty range, hence the
/// `requires`; the value it returns lies in the range. Which value is a matter of
/// chance, so nothing more is claimed.
#[verifier::external_body]
pub(crate) fn random_below(bound: usize) -> (r: usize)
    requires
        bound > 0,
    ensures
        r < bound,
{
    rand::thread_rng().gen_range(0..bound)
}

} // verus!
