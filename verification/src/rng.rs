//! Trusted access to the process random number generator.

use vstd::prelude::*;
use rand::RngExt;
use rand::seq::SliceRandom;

verus! {

/// Relies on rand::Rng::random_range: a uniformly drawn integer out of the
/// given range comes back, so over `0..2` an integer below 2.
#[verifier::external_body]
pub(crate) fn rand_bit() -> (r: u8)
    ensures
        r < 2,
{
    rand::rng().random_range(0..2u8)
}

/// Relies on rand::seq::SliceRandom::shuffle: the slice is permuted in
/// place, so afterwards it holds the same pairs, in some order.
#[verifier::external_body]
pub(crate) fn shuffle_pairs(v: &mut Vec<(u8, u8)>)
    ensures
        final(v)@.len() == old(v)@.len(),
        final(v)@.to_multiset() == old(v)@.to_multiset(),
{
    v.shuffle(&mut rand::rng());
}

} // verus!
