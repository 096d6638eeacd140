//! The pseudo-random source. Everything proved elsewhere holds for every
//! number that these draws may give back.

use rand::rngs::StdRng;
use rand::rngs::ThreadRng;
use rand::seq::SliceRandom;
use rand::Rng;
use vstd::prelude::*;

verus! {

#[verifier::external_type_specification]
#[verifier::external_body]
pub struct ExStdRng(rand::rngs::StdRng);

/// Calls `rand::seq::SliceRandom::choose` on the items, with a seedable
/// generator.
///
/// Trusted: on a slice that is not empty the call returns one of its
/// elements; on an empty one it returns nothing, which the `requires`
/// leaves out. Nothing is claimed about which element comes back.
#[verifier::external_body]
pub(crate) fn choose_from(rng: &mut StdRng, items: &Vec<usize>) -> (v: usize)
    requires
        items.len() > 0,
    ensures
        items@.contains(v),
{
    *items.choose(rng).unwrap()
}

#[verifier::external_type_specification]
#[verifier::external_body]
pub struct ExThreadRng(rand::rngs::ThreadRng);

/// Calls `rand::thread_rng`, which hands out the generator that the running
/// thread seeds for itself. Nothing is claimed about it.
#[verifier::external_body]
pub(crate) fn thread_source() -> ThreadRng {
    rand::thread_rng()
}

/// Calls `rand::Rng::gen_range(0, bound)` on a thread's generator.
///
/// Trusted: the call panics when the range is empty, hence the `requires`;
/// it samples from the half-open range, so the draw lies below `bound`.
/// Nothing is claimed about which value comes back.
#[verifier::external_body]
pub(crate) fn draw_below(rng: &mut ThreadRng, bound: usize) -> (r: usize)
    requires
        bound > 0,
    ensures
        r < bound,
{
    rng.gen_range(0, bound)
}

} // verus!
