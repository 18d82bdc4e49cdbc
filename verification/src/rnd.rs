use vstd::prelude::*;
use rand::Rng;
use rand::seq::SliceRandom;

verus! {

/// Relies on rand's SliceRandom::shuffle: an in-place permutation of the
/// vector, so no element is added, lost or duplicated. Nothing more can be
/// said of a random rearrangement.
#[verifier::external_body]
pub(crate) fn shuffle_vec<T>(v: &mut Vec<T>)
    ensures
        final(v)@.len() == old(v)@.len(),
        final(v)@.to_multiset() == old(v)@.to_multiset(),
{
    v.shuffle(&mut rand::thread_rng());
}

/// Relies on rand's Rng::gen_range: a value sampled from the range, which
/// for the non-empty range 0..n lies strictly below n.
#[verifier::external_body]
pub(crate) fn random_index(n: usize) -> (r: usize)
    requires
        n > 0,
    ensures
        r < n,
{
    rand::thread_rng().gen_range(0..n)
}

/// Relies on nanoid's format with its default generator and URL-safe
/// alphabet: an identifier of exactly the requested number of characters.
#[verifier::external_body]
pub(crate) fn generate_game_id() -> (r: String)
    ensures
        r@.len() == 10,
{
    nanoid::format(nanoid::rngs::default, &nanoid::alphabet::SAFE, 10)
}

} // verus!
