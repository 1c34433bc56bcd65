//! The random numbers that effects draw, from `rand`'s thread-local
//! generator.

use vstd::prelude::*;
use rand::Rng;
use rand::rngs::ThreadRng;

verus! {

/// `rand::rngs::ThreadRng`, the thread-local generator, carried through
/// verified code as an opaque value.
#[verifier::external_type_specification]
#[verifier::external_body]
pub struct ExThreadRng(ThreadRng);

/// `Rng::gen_range(lo..hi)` on `usize`: a random value in `lo..hi`. The
/// range must not be empty (the call panics on an empty one). Which value
/// comes is left open.
#[verifier::external_body]
pub(crate) fn random_index(rng: &mut ThreadRng, lo: usize, hi: usize) -> (r: usize)
    requires
        lo < hi,
    ensures
        lo <= r < hi,
{
    rng.gen_range(lo..hi)
}

/// `Rng::gen_range(lo..hi)` on `i32`: a random value in `lo..hi`. The
/// range must not be empty (the call panics on an empty one). Which value
/// comes is left open.
#[verifier::external_body]
pub(crate) fn random_offset(rng: &mut ThreadRng, lo: i32, hi: i32) -> (r: i32)
    requires
        lo < hi,
    ensures
        lo <= r < hi,
{
    rng.gen_range(lo..hi)
}

/// `Rng::gen_ratio(numerator, denominator)`: true with probability
/// `numerator / denominator`; always false for a numerator of 0 and always
/// true when numerator and denominator are equal. It panics for a
/// denominator of 0 or a numerator above the denominator. The outcome of
/// any one call is left open.
#[verifier::external_body]
pub(crate) fn random_ratio(rng: &mut ThreadRng, numerator: u32, denominator: u32) -> (r: bool)
    requires
        0 < denominator,
        numerator <= denominator,
    ensures
        numerator == 0 ==> !r,
        numerator == denominator ==> r,
{
    rng.gen_ratio(numerator, denominator)
}

} // verus!
