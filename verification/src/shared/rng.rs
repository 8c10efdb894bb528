//! The process-level randomness source behind match simulation and roster
//! synthesis.

use rand::Rng;
use vstd::prelude::*;

verus! {

/// Relies on rand's `Rng::gen_range` on the thread-local generator: called
/// on the non-empty range `lo..hi` it returns a value of that range and
/// does not panic. Nothing else is assumed of the outcome.
#[verifier::external_body]
pub(crate) fn random_in_range(lo: i32, hi: i32) -> (r: i32)
    requires
        lo < hi,
    ensures
        lo <= r < hi,
{
    rand::thread_rng().gen_range(lo..hi)
}

} // verus!
