use vstd::prelude::*;

verus! {

/// `fastrand::usize(0..n)`: a random index below `n`. fastrand's source panics on an
/// empty range, so `n` must be positive; which index comes back is left to chance.
#[verifier::external_body]
pub(crate) fn random_below(n: usize) -> (r: usize)
    requires
        n > 0,
    ensures
        r < n,
{
    fastrand::usize(0..n)
}

/// `fastrand::bool()`: a random boolean; either value may come back.
#[verifier::external_body]
pub(crate) fn random_bool() -> bool {
    fastrand::bool()
}

/// `fastrand::shuffle` on the sixteen steps: fastrand's source swaps each element with
/// a randomly chosen one at or before it, so the result holds the same elements in an
/// order left to chance.
#[verifier::external_body]
pub(crate) fn shuffle_steps(steps: &mut [usize; 16])
    ensures
        final(steps)@.to_multiset() == old(steps)@.to_multiset(),
{
    fastrand::shuffle(steps)
}

} // verus!
