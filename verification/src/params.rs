//! The fixed parameters of the simulation.
//!
//! Lengths are in thousandths of a pixel, ratios in thousandths, and time in
//! thousandths of a time unit.

use vstd::prelude::*;

verus! {

/// How many units make one pixel, and how many thousandths make one.
pub const UNIT: i32 = 1_000;

/// Number of particles in a freshly made rope.
pub const NUM_PARTICLES: usize = 10;

/// Width of the line drawn between neighbouring rope particles.
pub const ROPE_THICKNESS: i32 = 2_000;

/// Radius of a rope particle, for drawing its end caps and for collisions.
pub const ROPE_BALL_RADIUS: i32 = 7_000;

/// Rest length of the segment between two neighbouring rope particles.
pub const SEGMENT_LENGTH: i32 = 10_000;

/// Relaxation sweeps over the rope in one update.
pub const CONSTRAINT_ITERATIONS: usize = 8;

/// Duration of one physics tick.
pub const TIME_STEP: i32 = 16;

/// Share of its velocity that a particle keeps over one tick.
pub const FRICTION: u32 = 980;

/// Physics substeps in one frame.
pub const SUBSTEPS: usize = 5;

/// Share of the way to the cursor that the rope's head covers in one frame.
pub const LERP_FACTOR: i32 = 500;

/// Distance that an enemy travels in one time unit.
pub const ENEMY_SPEED: i32 = 7_000;

/// Distance that an enemy travels towards its target in one tick: its speed
/// over one `TIME_STEP`.
pub const ENEMY_STEP: i32 = 112;

/// The step of an enemy is its speed over one tick, exactly.
pub proof fn lemma_enemy_step_is_speed_over_tick()
    ensures
        ENEMY_STEP * UNIT == ENEMY_SPEED * TIME_STEP,
{
}

/// Time between two enemy spawns.
pub const ENEMY_SPAWN_INTERVAL: u64 = 2_000;

/// Radius of an enemy.
pub const ENEMY_RADIUS: i32 = 10_000;

/// Time between two point spawns.
pub const POINT_SPAWN_INTERVAL: u64 = 1_000;

/// Points that may wait for collection at one time.
pub const MAX_POINTS: usize = 20;

/// Radius of a point.
pub const POINT_RADIUS: i32 = 5_000;

/// Distance between centres below which a rope particle and an enemy overlap.
pub const CONTACT_DISTANCE: i32 = ROPE_BALL_RADIUS + ENEMY_RADIUS;

/// Distance between centres below which a rope particle collects a point.
pub const PICKUP_DISTANCE: i32 = POINT_RADIUS + ENEMY_RADIUS;

/// Width of the arena.
pub const RECTANGLE_WIDTH: i32 = 800_000;

/// Height of the arena.
pub const RECTANGLE_HEIGHT: i32 = 600_000;

} // verus!
