//! The seeded draw stream: `rand`'s small generator behind trusted wrappers.

use rand::rngs::{SmallRng, StdRng};
use rand::seq::SliceRandom;
use rand::{Rng, SeedableRng};
use vstd::prelude::*;

verus! {

#[verifier::external_type_specification]
#[verifier::external_body]
pub struct ExSmallRng(SmallRng);

/// Relies on rand's `SeedableRng::from_seed` for `StdRng` and `SmallRng`
/// and on `Rng::gen` for the 32 bytes between them: the stream that
/// `seed` determines.
#[verifier::external_body]
pub(crate) fn stream_from_seed(seed: [u8; 32]) -> (r: SmallRng) {
    SmallRng::from_seed(StdRng::from_seed(seed).gen())
}

/// Relies on rand's `Rng::gen_range` over an exclusive `i32` range: a value
/// in `[lo, hi)`; it panics on an empty range, which `requires` rules out.
#[verifier::external_body]
pub(crate) fn draw_i32(rng: &mut SmallRng, lo: i32, hi: i32) -> (r: i32)
    requires
        lo < hi,
    ensures
        lo <= r < hi,
{
    rng.gen_range(lo..hi)
}

/// Relies on rand's `Rng::gen_range` over an inclusive `usize` range: a
/// value in `[lo, hi]`; it panics on an empty range, which `requires` rules out.
#[verifier::external_body]
pub(crate) fn draw_usize_inclusive(rng: &mut SmallRng, lo: usize, hi: usize) -> (r: usize)
    requires
        lo <= hi,
    ensures
        lo <= r <= hi,
{
    rng.gen_range(lo..=hi)
}

/// Relies on rand's `SliceRandom::shuffle`: the elements are permuted in
/// place by swaps, so the same values remain.
#[verifier::external_body]
pub(crate) fn shuffle_indices(v: &mut Vec<usize>, rng: &mut SmallRng)
    ensures
        final(v)@.len() == old(v)@.len(),
        final(v)@.to_multiset() == old(v)@.to_multiset(),
{
    v.shuffle(rng)
}

} // verus!
