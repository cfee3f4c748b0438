//! Randomness, kept behind a small trusted boundary. The solver and the
//! generators are verified for every outcome these functions can hand back,
//! so each contract states only what the `rand` crate documents of every
//! call: nothing is assumed of which outcome comes.

use vstd::prelude::*;

verus! {

/// Declares rand's thread-local generator handle so that it can be passed
/// between the wrappers below; nothing is assumed of its contents.
#[verifier::external_type_specification]
#[verifier::external_body]
pub struct ExThreadRng(rand::rngs::ThreadRng);

/// Relies on rand::thread_rng: yields a handle to the thread-local generator.
#[verifier::external_body]
pub(crate) fn fresh_rng() -> rand::rngs::ThreadRng {
    rand::thread_rng()
}

/// Relies on rand::seq::SliceRandom::shuffle: reorders the elements in
/// place, so the multiset of elements is kept.
#[verifier::external_body]
pub(crate) fn shuffle_bytes(rng: &mut rand::rngs::ThreadRng, v: &mut Vec<u8>)
    ensures
        final(v)@.to_multiset() == old(v)@.to_multiset(),
{
    rand::seq::SliceRandom::shuffle(v.as_mut_slice(), rng)
}

/// Relies on rand::Rng::gen_range: returns a value of the given non-empty
/// half-open range.
#[verifier::external_body]
pub(crate) fn random_in_range(rng: &mut rand::rngs::ThreadRng, lo: usize, hi: usize) -> (r: usize)
    requires
        lo < hi,
    ensures
        lo <= r < hi,
{
    rand::Rng::gen_range(rng, lo..hi)
}

/// Relies on rand::seq::index::sample: returns `amount` distinct indices
/// drawn from `0..length`, in some order.
#[verifier::external_body]
pub(crate) fn sample_indices(rng: &mut rand::rngs::ThreadRng, length: usize, amount: usize) -> (r:
    Vec<usize>)
    requires
        amount <= length,
    ensures
        r@.len() == amount,
        forall|i: int| 0 <= i < r@.len() ==> r@[i] < length,
        r@.no_duplicates(),
{
    rand::seq::index::sample(rng, length, amount).into_vec()
}

} // verus!
