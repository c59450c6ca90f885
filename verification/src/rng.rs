use vstd::prelude::*;
use rand::rngs::ThreadRng;
use rand::seq::SliceRandom;
use rand::Rng;

verus! {

/// The per-thread random generator of `rand`; opaque here.
#[verifier::external_type_specification]
#[verifier::external_body]
pub struct ExThreadRng(ThreadRng);

/// Calls `rand::thread_rng`, which hands out the lazily seeded generator of
/// the calling thread. Nothing is claimed of its state.
#[verifier::external_body]
pub(crate) fn thread_rng() -> ThreadRng {
    rand::thread_rng()
}

/// Calls `SliceRandom::choose` on the elements of `items` and copies out the
/// element it picks. Claimed: on a non-empty slice `choose` returns `Some` of
/// one of its elements (the source indexes the slice at a random position
/// below its length). Which element comes out is left open: it is random.
#[verifier::external_body]
pub(crate) fn pick_one<T: Copy>(items: &Vec<T>, rng: &mut ThreadRng) -> (r: T)
    requires
        items@.len() > 0,
    ensures
        items@.contains(r),
{
    *items.as_slice().choose(rng).unwrap()
}

/// Calls `Rng::gen_range` on the range `0..len`. Claimed: on a non-empty
/// range the source samples a value inside it, so the result lies below
/// `len`. Which value comes out is left open: it is random.
#[verifier::external_body]
pub(crate) fn pick_index(len: usize, rng: &mut ThreadRng) -> (i: usize)
    requires
        len > 0,
    ensures
        i < len,
{
    rng.gen_range(0..len)
}

} // verus!
