use vstd::prelude::*;
use bracket_random::prelude::RandomNumberGenerator;

verus! {

#[verifier::external_type_specification]
#[verifier::external_body]
pub struct ExRandomNumberGenerator(RandomNumberGenerator);

/// Relies on `RandomNumberGenerator::range`: a draw from the half-open range
/// `[lo, hi)` (it panics on an empty range, hence the `requires`).
#[verifier::external_body]
pub(crate) fn rng_range(rng: &mut RandomNumberGenerator, lo: i32, hi: i32) -> (r: i32)
    requires
        lo < hi,
    ensures
        lo <= r < hi,
{
    rng.range(lo, hi)
}

/// Relies on `RandomNumberGenerator::roll_dice`: the sum of `n` draws from
/// `[1, die_type]`.
#[verifier::external_body]
pub(crate) fn rng_roll_dice(rng: &mut RandomNumberGenerator, n: i32, die_type: i32) -> (r: i32)
    requires
        0 <= n,
        1 <= die_type < i32::MAX,
        n * die_type <= i32::MAX,
    ensures
        n <= r <= n * die_type,
{
    rng.roll_dice(n, die_type)
}

/// Relies on `RandomNumberGenerator::random_slice_index`: `None` for an empty
/// slice, otherwise an index into it.
#[verifier::external_body]
pub(crate) fn rng_slice_index<T>(rng: &mut RandomNumberGenerator, v: &Vec<T>) -> (r: Option<usize>)
    requires
        v@.len() < i32::MAX,
    ensures
        v@.len() == 0 <==> r is None,
        r matches Some(i) ==> i < v@.len(),
{
    rng.random_slice_index(v.as_slice())
}

} // verus!
