//! The one place where chance enters: a shuffle from the `rand` crate.

use rand::seq::SliceRandom;
use vstd::prelude::*;

verus! {

/// Puts `items` into a random order with `rand::seq::SliceRandom::shuffle`,
/// drawing from the generator that `rand::rng` hands out. Nothing is proved
/// of that call. The contract claims only what holds of every outcome: the
/// shuffle moves the items by swapping them, so each item is there as often
/// as before. Which order comes out is left open.
#[verifier::external_body]
pub(crate) fn shuffle<T>(items: &mut Vec<T>)
    ensures
        final(items)@.to_multiset() == old(items)@.to_multiset(),
{
    items.shuffle(&mut rand::rng());
}

} // verus!
