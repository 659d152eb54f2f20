//! The random source: an explicitly owned, seedable generator.
use vstd::prelude::*;

verus! {

#[verifier::external_type_specification]
#[verifier::external_body]
pub struct ExXoshiro256Plus(rand_xoshiro::Xoshiro256Plus);

/// Relies on rand's `Rng::gen_range`: a value drawn from the half-open range
/// `lo..hi`, which must not be empty (it panics on an empty range).
#[verifier::external_body]
pub(crate) fn gen_range(rng: &mut rand_xoshiro::Xoshiro256Plus, lo: i64, hi: i64) -> (r: i64)
    requires
        lo < hi,
    ensures
        lo <= r < hi,
{
    rand::Rng::gen_range(rng, lo..hi)
}

} // verus!
