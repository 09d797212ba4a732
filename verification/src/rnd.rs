//! Random draws, taken from the process-wide generator of the rand crate.
//!
//! Nothing can be promised of a random value beyond its range, so every
//! contract here states the range alone, and the callers are verified for
//! every outcome.
use rand::Rng;
use vstd::prelude::*;

verus! {

/// Relies on rand's thread_rng and Rng::gen_range over `0..n`, which returns
/// a uniform value below `n` and panics only on an empty range.
#[verifier::external_body]
pub fn rand_index(n: usize) -> (r: usize)
    requires
        n > 0,
    ensures
        r < n,
{
    rand::thread_rng().gen_range(0..n)
}

/// Relies on rand's thread_rng and Rng::gen_range over `0..n`, which returns
/// a uniform value below `n` and panics only on an empty range.
#[verifier::external_body]
pub fn rand_below(n: u64) -> (r: u64)
    requires
        n > 0,
    ensures
        r < n,
{
    rand::thread_rng().gen_range(0..n)
}

/// Relies on rand's thread_rng and Rng::gen_range over `0..n`, which returns
/// a uniform value below `n` and panics only on an empty range.
#[verifier::external_body]
pub fn rand_below_wide(n: u128) -> (r: u128)
    requires
        n > 0,
    ensures
        r < n,
{
    rand::thread_rng().gen_range(0..n)
}

/// Relies on rand's thread_rng and Rng::gen for bool, a fair coin flip.
#[verifier::external_body]
pub fn rand_bool() -> bool {
    rand::thread_rng().gen()
}

} // verus!
