//! The random choices of the game, drawn through `rand` from the thread-local
//! generator. Nothing is promised of which value comes out, only of the set it
//! comes from.
use vstd::prelude::*;
use rand::seq::SliceRandom;

verus! {

/// Relies on `rand::seq::SliceRandom::shuffle` (rand 0.8): it reorders the
/// slice in place by swapping elements, so the result is a permutation of it.
#[verifier::external_body]
pub(crate) fn shuffle(v: &mut Vec<usize>)
    ensures
        final(v)@.to_multiset() == old(v)@.to_multiset(),
{
    v.as_mut_slice().shuffle(&mut rand::thread_rng());
}

/// Relies on `rand::seq::SliceRandom::choose` (rand 0.8): `None` for an empty
/// slice, else one of its elements, picked uniformly.
#[verifier::external_body]
pub(crate) fn pick_one(s: &[usize]) -> (r: Option<usize>)
    ensures
        r is None <==> s@.len() == 0,
        r matches Some(x) ==> s@.contains(x),
{
    s.choose(&mut rand::thread_rng()).copied()
}

} // verus!
