use vstd::prelude::*;
use rand::seq::SliceRandom;
use rand::RngExt;

verus! {

/// Relies on rand::seq::SliceRandom::shuffle: it permutes the slice in
/// place, drawing the permutation uniformly, so the elements after the call
/// are a rearrangement of the elements before it.
#[verifier::external_body]
pub(crate) fn shuffle<T>(v: &mut Vec<T>)
    ensures
        final(v)@.len() == old(v)@.len(),
        final(v)@.to_multiset() == old(v)@.to_multiset(),
{
    v.as_mut_slice().shuffle(&mut rand::rng());
}

/// Relies on rand::RngExt::random_range: it returns a value drawn from the
/// given range, and the inclusive range of lowercase letters is never
/// empty, so the call does not panic.
#[verifier::external_body]
pub(crate) fn random_lowercase_letter() -> (c: char)
    ensures
        'a' <= c && c <= 'z',
{
    rand::rng().random_range('a'..='z')
}

} // verus!
