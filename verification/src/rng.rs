//! The engine's one source of randomness: drawing an index below a bound.
//!
//! Random placement (a new snake, a new piece of food) and color picks go
//! through this single draw; everything that follows a draw is verified for
//! every value the draw can return.

use vstd::prelude::*;
use rand::Rng;

verus! {

/// Draws a uniformly random index below `n`.
///
/// Relies on rand's `thread_rng` and `Rng::gen_range`: `gen_range(0..n)`
/// returns a value of the range, which is non-empty because `n >= 1`.
/// Nothing more is promised of the draw: callers hold for every value below
/// `n`.
#[verifier::external_body]
pub(crate) fn random_below(n: usize) -> (r: usize)
    requires
        n >= 1,
    ensures
        r < n,
{
    rand::thread_rng().gen_range(0..n)
}

} // verus!
