//! Pseudo-random draws, made by outside generators. Nothing here is
//! proved: each contract states what the outside function is relied on for.

use vstd::prelude::*;
use rand::seq::SliceRandom;
use rand::SeedableRng;
use weighted_rand::builder::NewBuilder;

verus! {

#[verifier::external_type_specification]
#[verifier::external_body]
pub struct ExStdRng(rand::rngs::StdRng);

/// The sum of the weights.
pub open spec fn total_weight(weights: Seq<u32>) -> int
    decreases weights.len(),
{
    if weights.len() == 0 {
        0
    } else {
        total_weight(weights.drop_last()) + weights.last()
    }
}

/// Calls `StdRng::seed_from_u64`, which builds a generator from a 64-bit
/// seed. Nothing is claimed of the generator.
#[verifier::external_body]
pub(crate) fn seeded_rng(seed: u64) -> (rng: rand::rngs::StdRng) {
    rand::rngs::StdRng::seed_from_u64(seed)
}

/// Calls `SliceRandom::choose` on the slice of `values`, which returns
/// `None` for an empty slice and otherwise one of the slice's elements,
/// at an index drawn from the generator.
#[verifier::external_body]
pub(crate) fn choose_one<T: Copy>(values: &Vec<T>, rng: &mut rand::rngs::StdRng) -> (choice: Option<T>)
    ensures
        values@.len() == 0 <==> choice is None,
        choice is Some ==> values@.contains(choice.unwrap()),
{
    values.as_slice().choose(rng).copied()
}

/// Calls `WalkerTableBuilder::new` on the weights, `build` on the builder
/// and `next` on the table, which draws an index into the weights with the
/// thread's own generator. The builder multiplies each weight by the number
/// of weights and sums the products in 32 bits: the weights must leave that
/// sum within 32 bits, and there must be at least one. The index is then
/// within the weights, and its weight is not 0 unless all weights are 0, in
/// which case the table draws any index; which index it is depends on the
/// draw.
#[verifier::external_body]
pub(crate) fn weighted_index(weights: &Vec<u32>) -> (index: usize)
    requires
        weights@.len() > 0,
        weights@.len() * total_weight(weights@) <= u32::MAX,
    ensures
        index < weights@.len(),
        total_weight(weights@) > 0 ==> weights@[index as int] > 0,
{
    weighted_rand::builder::WalkerTableBuilder::new(weights.as_slice()).build().next()
}

} // verus!
