//! The random draws that place new enemies and points.

use vstd::prelude::*;
use crate::arith::between;

verus! {

/// A coin flip, from `rand::random`. Nothing is known of the outcome.
#[verifier::external_body]
pub(crate) fn random_flag() -> (flag: bool) {
    rand::random::<bool>()
}

/// A draw from `macroquad::rand::gen_range`, which returns `low` plus a
/// share, below one, of the way to `high`, cut to a whole number: all that is
/// claimed is that the outcome lies between the two bounds, both included.
#[verifier::external_body]
pub(crate) fn random_between(low: i32, high: i32) -> (drawn: i32)
    ensures
        between(drawn as int, low as int, high as int),
{
    macroquad::rand::gen_range(low, high)
}

} // verus!
