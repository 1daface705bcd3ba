use vstd::prelude::*;
use rand::seq::SliceRandom;

verus! {

/// rand's thread-local generator, declared so it can appear in signatures.
#[verifier::external_type_specification]
#[verifier::external_body]
pub struct ExThreadRng(rand::rngs::ThreadRng);

/// Relies on rand::thread_rng: obtains the thread-local generator, seeded by
/// the system. Nothing is promised of it.
#[verifier::external_body]
pub fn new_rng() -> rand::rngs::ThreadRng {
    rand::thread_rng()
}

/// Relies on rand::seq::SliceRandom::shuffle: a Fisher-Yates in-place
/// permutation built from swaps, so the slice afterwards holds exactly the
/// elements it held before, with multiplicity; which order comes out is
/// random and nothing more is promised.
#[verifier::external_body]
pub fn shuffle_in_place(v: &mut Vec<(Vec<Vec<u8>>, Vec<u8>)>, rng: &mut rand::rngs::ThreadRng)
    ensures
        final(v)@.to_multiset() == old(v)@.to_multiset(),
        final(v)@.len() == old(v)@.len(),
{
    v.as_mut_slice().shuffle(rng)
}

} // verus!
