//! Trusted access to the global pseudo-random number generator.

use vstd::prelude::*;

verus! {

/// Relies on `quad_rand::gen_range::<usize>`: for `low < high` it returns
/// `low + (high - low) * r` with `r` drawn in `[0, 1)`, cast back to `usize`
/// (truncation toward zero), which for non-negative values stays inside
/// `low..high`.  The bound on `high` keeps the `f64` arithmetic exact and
/// its rounding error well below the gap to `high`.
#[verifier::external_body]
pub(crate) fn random_usize(low: usize, high: usize) -> (r: usize)
    requires
        low < high,
        high <= 0x100000,
    ensures
        low <= r < high,
{
    quad_rand::gen_range(low, high)
}

/// Relies on `quad_rand::gen_range::<i64>`: the draw lies in `[low, high)` as
/// a real number, and the cast toward zero keeps an integer result within
/// `[low, high]` (for negative draws the truncation can round up onto
/// `high`).  The bounds keep the `f64` arithmetic exact and its rounding
/// error below one.
#[verifier::external_body]
pub(crate) fn random_field(low: i64, high: i64) -> (r: i64)
    requires
        low <= high,
        -0x100000 <= low,
        high <= 0x100000,
    ensures
        low <= r <= high,
{
    quad_rand::gen_range(low, high)
}

} // verus!
