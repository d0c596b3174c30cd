//! Points of the plane with saturating integer coordinates.

use vstd::prelude::*;
use crate::arith::{floor_sqrt, floor_sqrt_u128, lemma_square_monotone, saturate, saturate_i64};

verus! {

/// A point of the plane. One unit is a thousandth of a pixel; a move that
/// would leave the range of a coordinate stops at its edge.
#[derive(Clone, Copy, Debug, PartialEq, Eq, Structural)]
pub struct Vec2 {
    pub x: i32,
    pub y: i32,
}

impl Vec2 {
    /// The point reached from `self` by the displacement `(dx, dy)`.
    pub open spec fn moved(self, dx: int, dy: int) -> Vec2 {
        Vec2 { x: saturate(self.x + dx) as i32, y: saturate(self.y + dy) as i32 }
    }

    /// The square of the distance between `self` and `other`.
    pub open spec fn dist_sq(self, other: Vec2) -> int {
        (other.x - self.x) * (other.x - self.x) + (other.y - self.y) * (other.y - self.y)
    }

    /// The distance between `self` and `other`, rounded down.
    pub open spec fn dist(self, other: Vec2) -> int {
        floor_sqrt(self.dist_sq(other))
    }

    /// The point with the coordinates `x` and `y`.
    pub fn new(x: i32, y: i32) -> (v: Vec2)
        ensures
            v.x == x,
            v.y == y,
    {
        Vec2 { x, y }
    }

    /// Moves the point by `(dx, dy)`, stopping at the edge of the range.
    pub fn translate(self, dx: i64, dy: i64) -> (v: Vec2)
        ensures
            v == self.moved(dx as int, dy as int),
    {
        Vec2 { x: shift(self.x, dx), y: shift(self.y, dy) }
    }

    /// The exact displacement that leads from `self` to `other`.
    pub fn delta_to(self, other: Vec2) -> (d: (i64, i64))
        ensures
            d.0 == other.x - self.x,
            d.1 == other.y - self.y,
    {
        (other.x as i64 - self.x as i64, other.y as i64 - self.y as i64)
    }

    /// The square of the distance to `other`.
    pub fn distance_squared(self, other: Vec2) -> (s: u128)
        ensures
            s as int == self.dist_sq(other),
            s < crate::arith::SQUARE_LIMIT,
    {
        let dx: i64 = other.x as i64 - self.x as i64;
        let dy: i64 = other.y as i64 - self.y as i64;
        proof {
            lemma_component_square(dx as int);
            lemma_component_square(dy as int);
        }
        let sx: u128 = (dx as i128 * dx as i128) as u128;
        let sy: u128 = (dy as i128 * dy as i128) as u128;
        sx + sy
    }

    /// The distance to `other`, rounded down to a whole unit.
    pub fn distance(self, other: Vec2) -> (d: u64)
        ensures
            d as int == self.dist(other),
            d * d <= self.dist_sq(other) < (d + 1) * (d + 1),
            d < 0x2_0000_0000,
    {
        floor_sqrt_u128(self.distance_squared(other))
    }
}

/// Neither component of a displacement is longer than its rounded-down length.
pub proof fn lemma_component_within_length(dx: int, dy: int, len: int)
    requires
        crate::arith::is_floor_sqrt(len, dx * dx + dy * dy),
    ensures
        -len <= dx <= len,
        -len <= dy <= len,
{
    assert(dy * dy >= 0) by (nonlinear_arith);
    assert(dx * dx >= 0) by (nonlinear_arith);
    if dx > len {
        lemma_square_monotone(len + 1, dx);
    }
    if -dx > len {
        lemma_square_monotone(len + 1, -dx);
        assert((-dx) * (-dx) == dx * dx) by (nonlinear_arith);
    }
    if dy > len {
        lemma_square_monotone(len + 1, dy);
    }
    if -dy > len {
        lemma_square_monotone(len + 1, -dy);
        assert((-dy) * (-dy) == dy * dy) by (nonlinear_arith);
    }
}

/// The square of a coordinate difference is small enough to be summed.
proof fn lemma_component_square(d: int)
    by (nonlinear_arith)
    requires
        -0x1_0000_0000 < d < 0x1_0000_0000,
    ensures
        0 <= d * d < 0x1_0000_0000_0000_0000,
{
}

/// One coordinate moved by `d`, stopping at the edge of the range.
fn shift(c: i32, d: i64) -> (r: i32)
    ensures
        r as int == saturate(c + d),
{
    if d > 0x1_0000_0000 {
        i32::MAX
    } else if d < -0x1_0000_0000 {
        i32::MIN
    } else {
        saturate_i64(c as i64 + d)
    }
}

} // verus!
