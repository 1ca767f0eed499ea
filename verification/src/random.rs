//! Random numbers, drawn from the `rand` crate.

use vstd::prelude::*;
use rand::distributions::IndependentSample;

verus! {

/// A number drawn uniformly in `[0, n)`.
///
/// Calls `rand::distributions::Range::new(0, n).ind_sample` on the thread
/// local generator `rand::thread_rng()`. The contract claims only the
/// documented range of the result (`Range::new` asserts `0 < n`, which
/// `requires` keeps). `thread_rng` panics when the system offers no entropy;
/// nothing here rules that out.
#[verifier::external_body]
pub(crate) fn random_below(n: usize) -> (r: usize)
    requires
        n > 0,
    ensures
        r < n,
{
    rand::distributions::Range::new(0, n).ind_sample(&mut rand::thread_rng())
}

} // verus!
