//! The arena: the rectangle in which points appear, on whose border enemies
//! appear, and outside of which enemies are retired.

use vstd::prelude::*;
use crate::arith::div_toward_zero;
use crate::params::{RECTANGLE_HEIGHT, RECTANGLE_WIDTH};
use crate::particle::Particle;
use crate::vector::Vec2;

verus! {

/// An axis-aligned rectangle, edges included.
#[derive(Clone, Copy, Debug, PartialEq, Eq, Structural)]
pub struct Arena {
    pub left: i32,
    pub top: i32,
    pub right: i32,
    pub bottom: i32,
}

impl Arena {
    /// The rectangle is not turned inside out.
    pub open spec fn wf(self) -> bool {
        self.left <= self.right && self.top <= self.bottom
    }

    /// `p` lies in the rectangle or on its border.
    pub open spec fn contains(self, p: Vec2) -> bool {
        self.left <= p.x <= self.right && self.top <= p.y <= self.bottom
    }

    /// `p` lies on the border of the rectangle.
    pub open spec fn on_border(self, p: Vec2) -> bool {
        self.contains(p) && (p.x == self.left || p.x == self.right || p.y == self.top || p.y
            == self.bottom)
    }

    /// The arena of `RECTANGLE_WIDTH` by `RECTANGLE_HEIGHT` in the middle of a
    /// screen of the given size.
    pub fn centered(screen_width: i32, screen_height: i32) -> (arena: Arena)
        ensures
            arena.left == div_toward_zero(screen_width - RECTANGLE_WIDTH, 2),
            arena.right == div_toward_zero(screen_width + RECTANGLE_WIDTH, 2),
            arena.top == div_toward_zero(screen_height - RECTANGLE_HEIGHT, 2),
            arena.bottom == div_toward_zero(screen_height + RECTANGLE_HEIGHT, 2),
            arena.wf(),
    {
        let w: i64 = screen_width as i64;
        let h: i64 = screen_height as i64;
        Arena {
            left: ((w - RECTANGLE_WIDTH as i64) / 2) as i32,
            top: ((h - RECTANGLE_HEIGHT as i64) / 2) as i32,
            right: ((w + RECTANGLE_WIDTH as i64) / 2) as i32,
            bottom: ((h + RECTANGLE_HEIGHT as i64) / 2) as i32,
        }
    }

    /// Whether `p` lies in the rectangle or on its border.
    pub fn holds(&self, p: Vec2) -> (inside: bool)
        ensures
            inside == self.contains(p),
    {
        p.x >= self.left && p.x <= self.right && p.y >= self.top && p.y <= self.bottom
    }
}

/// Whether the particle is in the arena or on its border.
pub fn is_in_frame(particle: &Particle, arena: &Arena) -> (inside: bool)
    ensures
        inside == arena.contains(particle.position),
{
    arena.holds(particle.position)
}

} // verus!
