//! The enemies: particles that seek the head of the rope at a fixed pace and
//! are retired once they leave the arena.

use vstd::prelude::*;
use crate::arena::{is_in_frame, Arena};
use crate::arith::{
    between, is_floor_sqrt, lemma_floor_sqrt_exists, lemma_floor_sqrt_is, lemma_scale_on_axis,
    lemma_scale_within_num, lemma_scaled_keeps_sign, magnitude, scale, scale_i64,
};
use crate::chance::{random_between, random_flag};
use crate::params::{ENEMY_RADIUS, ENEMY_STEP};
use crate::particle::Particle;
use crate::rope::nudged;
use crate::vector::{lemma_component_within_length, Vec2};

verus! {

/// A seeking particle with its lifecycle flag and its radius.
#[derive(Clone, Copy, Debug, PartialEq, Eq, Structural)]
pub struct Enemy {
    pub particle: Particle,
    pub active: bool,
    pub radius: i32,
}

/// The step that takes something at `from` towards `target`: the direction to
/// the target, scaled to the length `ENEMY_STEP`. There is none where the two
/// coincide.
pub open spec fn seek_step(from: Vec2, target: Vec2) -> (int, int) {
    let len = from.dist(target);
    if len == 0 {
        (0, 0)
    } else {
        (
            scale(target.x - from.x, ENEMY_STEP as int, len),
            scale(target.y - from.y, ENEMY_STEP as int, len),
        )
    }
}

/// Where an enemy appears on the border of `arena`: on the left or right edge
/// at the height `along`, or on the top or bottom edge at the abscissa
/// `along`.
pub open spec fn border_position(arena: Arena, upright: bool, first: bool, along: i32) -> Vec2 {
    if upright {
        Vec2 {
            x: if first {
                arena.left
            } else {
                arena.right
            },
            y: along,
        }
    } else {
        Vec2 {
            x: along,
            y: if first {
                arena.top
            } else {
                arena.bottom
            },
        }
    }
}

/// The seek step heads for the target and is at most `ENEMY_STEP` long in
/// either direction. Towards a target on the same horizontal or vertical
/// line it is `ENEMY_STEP` long exactly, however far away the target is.
pub proof fn lemma_seek_step(from: Vec2, target: Vec2)
    ensures
        magnitude(seek_step(from, target).0) <= ENEMY_STEP,
        magnitude(seek_step(from, target).1) <= ENEMY_STEP,
        seek_step(from, target).0 * (target.x - from.x) >= 0,
        seek_step(from, target).1 * (target.y - from.y) >= 0,
        from.y == target.y && from.x < target.x ==> seek_step(from, target) == (
            ENEMY_STEP as int,
            0int,
        ),
        from.y == target.y && from.x > target.x ==> seek_step(from, target) == (
            -ENEMY_STEP as int,
            0int,
        ),
        from.x == target.x && from.y < target.y ==> seek_step(from, target) == (
            0int,
            ENEMY_STEP as int,
        ),
        from.x == target.x && from.y > target.y ==> seek_step(from, target) == (
            0int,
            -ENEMY_STEP as int,
        ),
{
    let dx = target.x - from.x;
    let dy = target.y - from.y;
    let len = from.dist(target);
    assert(0 <= from.dist_sq(target)) by (nonlinear_arith)
        requires
            from.dist_sq(target) == dx * dx + dy * dy,
    ;
    lemma_floor_sqrt_exists(from.dist_sq(target));
    if len > 0 {
        lemma_component_within_length(dx, dy, len);
        lemma_scale_within_num(dx, ENEMY_STEP as int, len);
        lemma_scale_within_num(dy, ENEMY_STEP as int, len);
        lemma_scaled_keeps_sign(dx, ENEMY_STEP as int, len);
        lemma_scaled_keeps_sign(dy, ENEMY_STEP as int, len);
    }
    if dx == 0 || dy == 0 {
        let gap = magnitude(dx) + magnitude(dy);
        assert(from.dist_sq(target) == gap * gap) by (nonlinear_arith)
            requires
                from.dist_sq(target) == dx * dx + dy * dy,
                dx == 0 || dy == 0,
                gap == magnitude(dx) + magnitude(dy),
        ;
        assert(is_floor_sqrt(gap, gap * gap)) by (nonlinear_arith)
            requires
                0 <= gap,
        ;
        lemma_floor_sqrt_is(gap, from.dist_sq(target));
        if gap > 0 {
            lemma_scale_on_axis(dx, ENEMY_STEP as int, gap);
            lemma_scale_on_axis(dy, ENEMY_STEP as int, gap);
        }
    }
}

impl Enemy {
    /// The active enemy at rest at `position`.
    pub open spec fn resting_at(position: Vec2) -> Enemy {
        Enemy {
            particle: Particle {
                position,
                old_position: position,
                friction: crate::params::FRICTION,
            },
            active: true,
            radius: ENEMY_RADIUS,
        }
    }

    /// The enemy after its seek step towards `target`, before integration.
    pub open spec fn sought(self, target: Vec2) -> Enemy {
        let step = seek_step(self.particle.position, target);
        Enemy {
            particle: nudged(self.particle, step.0, step.1),
            active: self.active,
            radius: self.radius,
        }
    }

    /// The enemy one tick later: it has stepped towards `target`, its
    /// particle has been integrated, and it is retired if that took it out of
    /// `arena`. It is not revived by coming back in.
    pub open spec fn updated(self, target: Vec2, arena: Arena) -> Enemy {
        let moved = self.sought(target).particle.updated();
        Enemy {
            particle: moved,
            active: self.active && arena.contains(moved.position),
            radius: self.radius,
        }
    }

    /// An active enemy at rest at `position`.
    pub fn at(position: Vec2) -> (enemy: Enemy)
        ensures
            enemy == Enemy::resting_at(position),
    {
        Enemy { particle: Particle::new(position), active: true, radius: ENEMY_RADIUS }
    }

    /// An enemy on the border of `arena`, at the place that the three draws
    /// select.
    pub fn placed(arena: &Arena, upright: bool, first: bool, along: i32) -> (enemy: Enemy)
        ensures
            enemy == Enemy::resting_at(border_position(*arena, upright, first, along)),
    {
        let position: Vec2 = if upright {
            Vec2::new(
                if first {
                    arena.left
                } else {
                    arena.right
                },
                along,
            )
        } else {
            Vec2::new(
                along,
                if first {
                    arena.top
                } else {
                    arena.bottom
                },
            )
        };
        Enemy::at(position)
    }

    /// An enemy at a random place of the border of `arena`: an edge is drawn,
    /// then a place along it.
    pub fn new(arena: &Arena) -> (enemy: Enemy)
        ensures
            enemy == Enemy::resting_at(enemy.particle.position),
            exists|upright: bool, first: bool, along: i32|
                {
                    &&& enemy.particle.position == #[trigger] border_position(
                        *arena,
                        upright,
                        first,
                        along,
                    )
                    &&& upright ==> between(along as int, arena.top as int, arena.bottom as int)
                    &&& !upright ==> between(along as int, arena.left as int, arena.right as int)
                },
            arena.wf() ==> arena.on_border(enemy.particle.position),
    {
        let upright: bool = random_flag();
        let first: bool = random_flag();
        let along: i32 = if upright {
            random_between(arena.top, arena.bottom)
        } else {
            random_between(arena.left, arena.right)
        };
        let enemy: Enemy = Enemy::placed(arena, upright, first, along);
        assert(enemy.particle.position == border_position(*arena, upright, first, along));
        enemy
    }

    /// Takes the seek step towards `target`: the enemy's position moves by
    /// `ENEMY_STEP` along the direction to the target, whatever its velocity.
    pub fn seek(&mut self, target: Vec2)
        ensures
            *final(self) == old(self).sought(target),
    {
        let from: Vec2 = self.particle.position;
        let (dx, dy): (i64, i64) = from.delta_to(target);
        let len: u64 = from.distance(target);
        if len > 0 {
            proof {
                lemma_floor_sqrt_exists(from.dist_sq(target));
                lemma_component_within_length(dx as int, dy as int, len as int);
                lemma_scale_within_num(dx as int, ENEMY_STEP as int, len as int);
                lemma_scale_within_num(dy as int, ENEMY_STEP as int, len as int);
            }
            let sx: i64 = scale_i64(dx, ENEMY_STEP as i64, len as i64);
            let sy: i64 = scale_i64(dy, ENEMY_STEP as i64, len as i64);
            self.particle.position = from.translate(sx, sy);
        } else {
            assert(from.moved(0, 0) == from);
        }
    }

    /// One tick of the enemy: the seek step, then the integration of its
    /// particle, then retirement if it has left `arena`.
    ///
    /// The two displacements add up. The seek step moves the enemy in full;
    /// integration then carries it on by the damped displacement since the
    /// last tick, of which the seek step is a part. A retired enemy still
    /// moves, and is never revived.
    pub fn update(&mut self, target: Vec2, arena: &Arena)
        ensures
            *final(self) == old(self).updated(target, *arena),
            !arena.contains(final(self).particle.position) ==> !final(self).active,
            final(self).active ==> old(self).active,
    {
        self.seek(target);
        self.particle.update();
        if !is_in_frame(&self.particle, arena) {
            self.active = false;
        }
    }
}

} // verus!
