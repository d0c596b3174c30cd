//! A rope-and-particles arcade simulation core over fixed-point arithmetic.
//!
//! Every length and coordinate is an integer number of thousandths of a pixel,
//! so each step of the simulation is exact, deterministic and free of overflow.

pub mod arena;
pub mod arith;
pub mod chance;
pub mod collision;
pub mod convergence;
pub mod enemy;
pub mod params;
pub mod particle;
pub mod point;
pub mod rope;
pub mod separation;
pub mod simulation;
pub mod vector;

pub use crate::arena::{is_in_frame, Arena};
pub use crate::collision::{check_collisions, check_enemy_collisions};
pub use crate::enemy::Enemy;
pub use crate::particle::Particle;
pub use crate::point::Point;
pub use crate::rope::Rope;
pub use crate::simulation::Simulation;
pub use crate::vector::Vec2;
