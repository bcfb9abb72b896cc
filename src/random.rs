use rand::seq::SliceRandom;
use vstd::prelude::*;

verus! {

/// The randomness source that shuffles and picks are drawn from.
#[verifier::external_type_specification]
#[verifier::external_body]
pub struct ExThreadRng(rand::rngs::ThreadRng);

/// Relies on `SliceRandom::shuffle` of rand: it only swaps elements of the
/// slice, so the result is a permutation of the input.
#[verifier::external_body]
pub(crate) fn shuffle(v: &mut Vec<usize>, rng: &mut rand::rngs::ThreadRng)
    ensures
        final(v)@.to_multiset() == old(v)@.to_multiset(),
{
    v.as_mut_slice().shuffle(rng)
}

/// Relies on `SliceRandom::choose` of rand: `None` exactly for an empty
/// slice, else one of its elements.
#[verifier::external_body]
pub(crate) fn pick(v: &Vec<usize>, rng: &mut rand::rngs::ThreadRng) -> (r: Option<usize>)
    ensures
        r is None <==> v@.len() == 0,
        r matches Some(x) ==> v@.contains(x),
{
    v.as_slice().choose(rng).copied()
}

} // verus!
