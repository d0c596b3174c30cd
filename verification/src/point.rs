//! The points that the rope collects.

use vstd::prelude::*;
use crate::arena::Arena;
use crate::arith::between;
use crate::chance::random_between;
use crate::params::POINT_RADIUS;
use crate::vector::Vec2;

verus! {

/// A collectible that stays where it appeared until the rope touches it.
#[derive(Clone, Copy, Debug, PartialEq, Eq, Structural)]
pub struct Point {
    pub position: Vec2,
    pub active: bool,
    pub radius: i32,
}

impl Point {
    /// The point that waits for collection at `position`.
    pub open spec fn waiting_at(position: Vec2) -> Point {
        Point { position, active: true, radius: POINT_RADIUS }
    }

    /// A point that waits for collection at `position`.
    pub fn at(position: Vec2) -> (point: Point)
        ensures
            point == Point::waiting_at(position),
    {
        Point { position, active: true, radius: POINT_RADIUS }
    }

    /// A point at a random place of the arena.
    pub fn new(arena: &Arena) -> (point: Point)
        ensures
            point == Point::waiting_at(point.position),
            between(point.position.x as int, arena.left as int, arena.right as int),
            between(point.position.y as int, arena.top as int, arena.bottom as int),
            arena.wf() ==> arena.contains(point.position),
    {
        let x: i32 = random_between(arena.left, arena.right);
        let y: i32 = random_between(arena.top, arena.bottom);
        Point::at(Vec2::new(x, y))
    }
}

} // verus!
