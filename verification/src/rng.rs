//! Randomness, drawn from the process-wide generator of the `fastrand`
//! crate — the shared pseudo-random source behind shuffling and rollout
//! tie-breaking. Nothing is assumed about which value comes out, only
//! about its range or, for a shuffle, about the contents as a whole.

use vstd::prelude::*;

verus! {

/// Relies on fastrand::usize over `0..n`: a draw from that range. The
/// call panics on an empty range, which the precondition rules out.
#[verifier::external_body]
pub(crate) fn random_below(n: usize) -> (r: usize)
    requires
        n > 0,
    ensures
        r < n,
{
    fastrand::usize(0..n)
}

/// Relies on fastrand::shuffle, which reorders a slice by in-place
/// swaps only: the same entries come back, in some order.
#[verifier::external_body]
pub(crate) fn shuffle(v: &mut Vec<usize>)
    ensures
        final(v)@.to_multiset() == old(v)@.to_multiset(),
{
    fastrand::shuffle(v.as_mut_slice());
}

} // verus!
