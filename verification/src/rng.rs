//! The random numbers used by the experiments, from rand's `StdRng`.

use rand::rngs::StdRng;
use rand::seq::SliceRandom;
use rand::{Rng, SeedableRng};
use vstd::prelude::*;

verus! {

#[verifier::external_type_specification]
#[verifier::external_body]
pub struct ExStdRng(StdRng);

/// rand's `SeedableRng::seed_from_u64` for `StdRng`: a generator whose
/// stream is fixed by `seed`. Nothing is stated of the numbers it yields.
#[verifier::external_body]
pub(crate) fn seeded_rng(seed: u64) -> StdRng {
    StdRng::seed_from_u64(seed)
}

/// rand's `Rng::gen_range` on the inclusive range `lo..=hi`: rand documents a
/// value in the range, and a panic on an empty range, which `requires` rules out.
#[verifier::external_body]
pub(crate) fn gen_range_inclusive(rng: &mut StdRng, lo: usize, hi: usize) -> (r: usize)
    requires
        lo <= hi,
    ensures
        lo <= r <= hi,
{
    rng.gen_range(lo..=hi)
}

/// rand's `SliceRandom::choose`: one element of the slice, or `None` exactly
/// when the slice is empty (as rand documents and its source shows). Which
/// element comes back is left open.
#[verifier::external_body]
pub(crate) fn choose_from<'a, T>(items: &'a [T], rng: &mut StdRng) -> (r: Option<&'a T>)
    ensures
        r is None <==> items@.len() == 0,
        r matches Some(x) ==> items@.contains(*x),
{
    items.choose(rng)
}

} // verus!
