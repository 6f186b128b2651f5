//! The random source that every generator draws from.
//!
//! The generators only ever see a seeded `StdRng`; each draw goes through one
//! of the small trusted wrappers below, whose contracts say what holds of
//! every possible outcome.
use vstd::prelude::*;
use rand::rngs::StdRng;
use rand::seq::SliceRandom;
use rand::Rng;
use rand::SeedableRng;

verus! {

#[verifier::external_type_specification]
#[verifier::external_body]
pub struct ExStdRng(rand::rngs::StdRng);

/// Relies on `rand::Rng::gen_range`: a value of the half-open range `lo..hi`,
/// which must not be empty.
#[verifier::external_body]
pub(crate) fn below(rng: &mut StdRng, lo: usize, hi: usize) -> (r: usize)
    requires
        lo < hi,
    ensures
        lo <= r < hi,
{
    rng.gen_range(lo..hi)
}

/// Relies on `rand::Rng::gen_ratio`: `true` with probability `num / den`,
/// which is never `true` for `num == 0` and always `true` for `num == den`.
#[verifier::external_body]
pub(crate) fn chance(rng: &mut StdRng, num: u32, den: u32) -> (r: bool)
    requires
        0 < den,
        num <= den,
    ensures
        num == 0 ==> !r,
        num == den ==> r,
{
    rng.gen_ratio(num, den)
}

/// Relies on `rand::seq::SliceRandom::shuffle`: the elements are permuted in
/// place, none added or lost.
#[verifier::external_body]
pub(crate) fn shuffle<T>(rng: &mut StdRng, v: &mut Vec<T>)
    ensures
        final(v)@.len() == old(v)@.len(),
        final(v)@.to_multiset() == old(v)@.to_multiset(),
{
    v.shuffle(rng)
}

/// Relies on `rand::seq::SliceRandom::choose`: an element of a non-empty slice.
#[verifier::external_body]
pub(crate) fn pick<T: Copy>(rng: &mut StdRng, v: &Vec<T>) -> (r: T)
    requires
        v@.len() > 0,
    ensures
        v@.contains(r),
{
    *v.choose(rng).unwrap()
}

/// Relies on `rand::Rng::gen` for `u32`: any value of the type.
#[verifier::external_body]
pub(crate) fn draw_u32(rng: &mut StdRng) -> (r: u32) {
    rng.gen::<u32>()
}

/// Relies on `rand::Rng::fill`: thirty-two bytes drawn from the stream.
#[verifier::external_body]
pub(crate) fn draw_seed(rng: &mut StdRng) -> (r: [u8; 32]) {
    let mut seed = [0u8; 32];
    rng.fill(&mut seed);
    seed
}

/// Relies on `rand::SeedableRng::from_seed` for `StdRng`: a fresh generator
/// started from the given seed.
#[verifier::external_body]
pub(crate) fn seeded(seed: [u8; 32]) -> (r: StdRng) {
    StdRng::from_seed(seed)
}

} // verus!
