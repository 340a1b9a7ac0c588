//! Random choices, drawn from the thread-local generator of `rand`.
use rand::seq::SliceRandom;
use rand::Rng;
use vstd::prelude::*;

verus! {

/// Relies on rand's `SliceRandom::shuffle` (with `thread_rng`): it only swaps
/// elements, so the result is a permutation of the input.
#[verifier::external_body]
pub(crate) fn shuffle_indices(v: &mut Vec<usize>)
    ensures
        final(v)@.len() == old(v)@.len(),
        final(v)@.to_multiset() == old(v)@.to_multiset(),
{
    v.shuffle(&mut rand::thread_rng());
}

/// Relies on rand's `Rng::gen_range` (with `thread_rng`) on `0..n`: a value below `n`.
/// It panics on an empty range, hence `n > 0`.
#[verifier::external_body]
pub(crate) fn random_below(n: usize) -> (r: usize)
    requires
        n > 0,
    ensures
        r < n,
{
    rand::thread_rng().gen_range(0..n)
}

} // verus!
