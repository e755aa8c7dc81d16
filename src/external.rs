use rand::seq::SliceRandom;
use vstd::prelude::*;

verus! {

/// Relies on rand's `SliceRandom::shuffle` (Fisher–Yates by swaps): the
/// result is a permutation of the input.
#[verifier::external_body]
pub(crate) fn shuffle<T>(v: &mut Vec<T>)
    ensures
        final(v)@.to_multiset() == old(v)@.to_multiset(),
{
    v.shuffle(&mut rand::thread_rng());
}

/// Relies on `rand::random::<u64>`: any value may come back.
#[verifier::external_body]
pub(crate) fn random_token() -> (r: u64) {
    rand::random::<u64>()
}

/// Relies on `uuid::Uuid::new_v4` and its hyphenated `Display` form.
#[verifier::external_body]
pub(crate) fn new_id() -> (r: String)
    ensures
        r@.len() == 36,
{
    uuid::Uuid::new_v4().to_string()
}

} // verus!
