//! The default shuffle: an in-place random permutation of a card vector.

use vstd::prelude::*;

verus! {

/// Relies on rand's `SliceRandom::shuffle`, a Fisher-Yates in-place
/// permutation: the result holds exactly the input's items, in some order.
#[verifier::external_body]
pub fn default_shuffle<T>(cards: Vec<T>) -> (r: Vec<T>)
    ensures
        r@.to_multiset() == cards@.to_multiset(),
{
    let mut cards = cards;
    rand::seq::SliceRandom::shuffle(cards.as_mut_slice(), &mut rand::thread_rng());
    cards
}

} // verus!
