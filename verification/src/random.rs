//! Random choices.

use vstd::prelude::*;

verus! {

/// `rand::Rng::gen_range` on the thread's generator: some integer in `0..bound`. An empty
/// range panics.
#[verifier::external_body]
pub(crate) fn random_below(bound: usize) -> (index: usize)
    requires
        bound > 0,
    ensures
        index < bound,
{
    rand::Rng::gen_range(&mut rand::thread_rng(), 0, bound)
}

} // verus!
