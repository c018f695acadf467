//! Random choices, made by the `rand` crate.
//!
//! Which of the possible outcomes comes is the generator's business; what is stated here holds of
//! every outcome.
use rand::rngs::Xoshiro256PlusPlus;
use rand::seq::{IndexedRandom, SliceRandom};
use rand::RngExt;
use vstd::prelude::*;

verus! {

/// The generator `rand::rngs::Xoshiro256PlusPlus`, whose state is opaque here.
#[verifier::external_type_specification]
#[verifier::external_body]
pub struct ExXoshiro256PlusPlus(Xoshiro256PlusPlus);

/// Brings a list into a random order with `rand::seq::SliceRandom::shuffle`.
///
/// `shuffle` documents that the result is a permutation of the slice. Which permutation it is
/// depends on the state of the generator and is left open.
#[verifier::external_body]
pub(crate) fn shuffle<T>(list: &mut Vec<T>, rng: &mut Xoshiro256PlusPlus)
    ensures
        final(list)@.to_multiset() == old(list)@.to_multiset(),
{
    list.shuffle(rng);
}

/// Picks one element with `rand::seq::IndexedRandom::choose`.
///
/// `choose` documents that it returns one of the elements, and `None` only for an empty slice.
/// Which element it is depends on the state of the generator and is left open.
#[verifier::external_body]
pub(crate) fn choose_one(list: &Vec<usize>, rng: &mut Xoshiro256PlusPlus) -> (r: Option<usize>)
    ensures
        match r {
            Some(x) => list@.contains(x),
            None => list@.len() == 0,
        },
{
    list.choose(rng).copied()
}

/// Draws a number with `rand::RngExt::random`. Every number can come, so nothing is stated of it.
#[verifier::external_body]
fn random_seed(rng: &mut Xoshiro256PlusPlus) -> (r: u64) {
    rng.random()
}

/// Draws a seed for each of several workers.
pub fn worker_seeds(n_workers: usize, rng: &mut Xoshiro256PlusPlus) -> (r: Vec<u64>)
    ensures
        r@.len() == n_workers,
{
    let mut r: Vec<u64> = Vec::new();
    let mut i: usize = 0;
    while i < n_workers
        invariant
            i <= n_workers,
            r@.len() == i,
        decreases n_workers - i,
    {
        r.push(random_seed(rng));
        i = i + 1;
    }
    r
}

} // verus!
