//! The kinematic particle: a point mass that remembers where it was one tick
//! ago and carries on from there, losing a share of its velocity to friction.

use vstd::prelude::*;
use vstd::arithmetic::power::pow;
use crate::arith::{lemma_scale_magnitude, magnitude, saturate, scale, scale_i64};
use crate::params::{FRICTION, UNIT};
use crate::vector::Vec2;

verus! {

/// A point mass under position-based integration. Its velocity is implicit:
/// the displacement from `old_position` to `position`.
#[derive(Clone, Copy, Debug, PartialEq, Eq, Structural)]
pub struct Particle {
    pub position: Vec2,
    pub old_position: Vec2,
    /// Thousandths of the velocity kept over one tick.
    pub friction: u32,
}

impl Particle {
    /// Horizontal velocity, in units per tick.
    pub open spec fn vx(self) -> int {
        self.position.x - self.old_position.x
    }

    /// Vertical velocity, in units per tick.
    pub open spec fn vy(self) -> int {
        self.position.y - self.old_position.y
    }

    /// The square of the speed.
    pub open spec fn speed_sq(self) -> int {
        self.vx() * self.vx() + self.vy() * self.vy()
    }

    /// The particle one tick later: it advances by its velocity scaled by
    /// `friction`, and remembers where it was.
    pub open spec fn updated(self) -> Particle {
        Particle {
            position: self.position.moved(
                scale(self.vx(), self.friction as int, UNIT as int),
                scale(self.vy(), self.friction as int, UNIT as int),
            ),
            old_position: self.position,
            friction: self.friction,
        }
    }

    /// The particle `n` ticks later.
    pub open spec fn updated_times(self, n: nat) -> Particle
        decreases n,
    {
        if n == 0 {
            self
        } else {
            self.updated_times((n - 1) as nat).updated()
        }
    }

    /// A particle at rest at `position`.
    pub fn new(position: Vec2) -> (p: Particle)
        ensures
            p.position == position,
            p.old_position == position,
            p.friction == FRICTION,
            p.vx() == 0 && p.vy() == 0,
    {
        Particle { position, old_position: position, friction: FRICTION }
    }

    /// Advances the particle by one tick.
    pub fn update(&mut self)
        ensures
            *final(self) == old(self).updated(),
    {
        let (vx, vy): (i64, i64) = self.old_position.delta_to(self.position);
        proof {
            lemma_damped_fits(vx as int, self.friction as int);
            lemma_damped_fits(vy as int, self.friction as int);
        }
        let dx: i64 = scale_i64(vx, self.friction as i64, UNIT as i64);
        let dy: i64 = scale_i64(vy, self.friction as i64, UNIT as i64);
        self.old_position = self.position;
        self.position = self.position.translate(dx, dy);
    }
}

/// A velocity scaled by any friction fits the wide integers.
proof fn lemma_damped_fits(v: int, friction: int)
    requires
        -0x1_0000_0000 < v < 0x1_0000_0000,
        0 <= friction < 0x1_0000_0000,
    ensures
        i64::MIN <= scale(v, friction, UNIT as int) <= i64::MAX,
{
    lemma_scale_magnitude(v, friction, UNIT as int);
    let a = magnitude(v);
    let b = magnitude(friction);
    assert(0 <= a * b <= 0x1_0000_0000 * 0x1_0000_0000) by (nonlinear_arith)
        requires
            0 <= a <= 0x1_0000_0000,
            0 <= b <= 0x1_0000_0000,
    ;
}

/// One velocity component after a tick is the old one scaled by the friction,
/// or, where the particle was stopped at the edge of the coordinate range,
/// something between that and zero.
pub proof fn lemma_update_velocity(p: Particle)
    ensures
        magnitude(p.updated().vx()) <= magnitude(scale(p.vx(), p.friction as int, UNIT as int)),
        magnitude(p.updated().vy()) <= magnitude(scale(p.vy(), p.friction as int, UNIT as int)),
        p.updated().vx() * p.vx() >= 0,
        p.updated().vy() * p.vy() >= 0,
        p.updated().position.x == p.position.x + scale(p.vx(), p.friction as int, UNIT as int)
            ==> p.updated().vx() == scale(p.vx(), p.friction as int, UNIT as int),
        p.updated().position.y == p.position.y + scale(p.vy(), p.friction as int, UNIT as int)
            ==> p.updated().vy() == scale(p.vy(), p.friction as int, UNIT as int),
{
    lemma_component_after_tick(p.position.x as int, p.vx(), p.friction as int);
    lemma_component_after_tick(p.position.y as int, p.vy(), p.friction as int);
}

/// What `lemma_update_velocity` says, for one coordinate `c` with velocity `v`.
proof fn lemma_component_after_tick(c: int, v: int, friction: int)
    requires
        i32::MIN <= c <= i32::MAX,
        0 <= friction,
    ensures
        magnitude(saturate(c + scale(v, friction, UNIT as int)) - c) <= magnitude(
            scale(v, friction, UNIT as int),
        ),
        (saturate(c + scale(v, friction, UNIT as int)) - c) * v >= 0,
{
    lemma_scale_magnitude(v, friction, UNIT as int);
    let d = scale(v, friction, UNIT as int);
    let w = saturate(c + d) - c;
    assert(v * friction >= 0 <==> (v >= 0 || friction == 0)) by (nonlinear_arith)
        requires
            friction >= 0,
    ;
    assert(v * friction <= 0 <==> (v <= 0 || friction == 0)) by (nonlinear_arith)
        requires
            friction >= 0,
    ;
    assert(friction == 0 ==> v * friction == 0) by (nonlinear_arith);
    assert(w * v >= 0) by (nonlinear_arith)
        requires
            (w >= 0 && v >= 0) || (w <= 0 && v <= 0) || w == 0,
    ;
}

/// Friction damping: with a friction below one, a tick scales each velocity
/// component by at most the friction, so a moving particle gets strictly
/// slower, and a resting one stays at rest.
pub proof fn lemma_friction_damps(p: Particle)
    requires
        0 < p.friction < UNIT,
    ensures
        magnitude(p.updated().vx()) * UNIT <= magnitude(p.vx()) * p.friction,
        magnitude(p.updated().vy()) * UNIT <= magnitude(p.vy()) * p.friction,
        p.vx() != 0 ==> magnitude(p.updated().vx()) < magnitude(p.vx()),
        p.vy() != 0 ==> magnitude(p.updated().vy()) < magnitude(p.vy()),
        p.speed_sq() > 0 ==> p.updated().speed_sq() < p.speed_sq(),
        p.speed_sq() == 0 ==> p.updated().speed_sq() == 0,
{
    lemma_update_velocity(p);
    lemma_damped_component(p.vx(), p.updated().vx(), p.friction as int);
    lemma_damped_component(p.vy(), p.updated().vy(), p.friction as int);
    let (a, b) = (magnitude(p.vx()), magnitude(p.vy()));
    let (c, d) = (magnitude(p.updated().vx()), magnitude(p.updated().vy()));
    assert(p.speed_sq() == a * a + b * b) by (nonlinear_arith)
        requires
            p.speed_sq() == p.vx() * p.vx() + p.vy() * p.vy(),
            a == magnitude(p.vx()),
            b == magnitude(p.vy()),
    ;
    assert(p.updated().speed_sq() == c * c + d * d) by (nonlinear_arith)
        requires
            p.updated().speed_sq() == p.updated().vx() * p.updated().vx() + p.updated().vy()
                * p.updated().vy(),
            c == magnitude(p.updated().vx()),
            d == magnitude(p.updated().vy()),
    ;
    assert(c * c <= a * a && (a > 0 ==> c * c < a * a)) by (nonlinear_arith)
        requires
            0 <= c <= a,
            a > 0 ==> c < a,
    ;
    assert(d * d <= b * b && (b > 0 ==> d * d < b * b)) by (nonlinear_arith)
        requires
            0 <= d <= b,
            b > 0 ==> d < b,
    ;
    assert(a * a + b * b > 0 ==> a > 0 || b > 0) by (nonlinear_arith)
        requires
            0 <= a,
            0 <= b,
    ;
}

/// A component `w` no longer than the scaled `v` is shorter than `v` by the
/// factor `friction`, and strictly shorter where `v` is not zero.
proof fn lemma_damped_component(v: int, w: int, friction: int)
    requires
        0 < friction < UNIT,
        magnitude(w) <= magnitude(scale(v, friction, UNIT as int)),
    ensures
        magnitude(w) * UNIT <= magnitude(v) * friction,
        magnitude(w) <= magnitude(v),
        v != 0 ==> magnitude(w) < magnitude(v),
{
    lemma_scale_magnitude(v, friction, UNIT as int);
    let a = magnitude(v);
    let q = (a * friction) / (UNIT as int);
    assert(q * 1000 <= a * friction) by (nonlinear_arith)
        requires
            q == (a * friction) / 1000,
    ;
    assert(a * friction <= a * 999) by (nonlinear_arith)
        requires
            0 <= a,
            friction <= 999,
    ;
}

/// Friction damping over `n` ticks: each velocity component has shrunk at
/// least by the `n`-th power of the friction.
pub proof fn lemma_friction_damps_repeatedly(p: Particle, n: nat)
    requires
        0 < p.friction < UNIT,
    ensures
        p.updated_times(n).friction == p.friction,
        magnitude(p.updated_times(n).vx()) * pow(UNIT as int, n) <= magnitude(p.vx()) * pow(
            p.friction as int,
            n,
        ),
        magnitude(p.updated_times(n).vy()) * pow(UNIT as int, n) <= magnitude(p.vy()) * pow(
            p.friction as int,
            n,
        ),
        magnitude(p.updated_times(n).vx()) <= magnitude(p.vx()),
        magnitude(p.updated_times(n).vy()) <= magnitude(p.vy()),
    decreases n,
{
    reveal_with_fuel(pow, 2);
    if n > 0 {
        let m = (n - 1) as nat;
        let q = p.updated_times(m);
        lemma_friction_damps_repeatedly(p, m);
        lemma_friction_damps(q);
        vstd::arithmetic::power::lemma_pow_positive(UNIT as int, m);
        vstd::arithmetic::power::lemma_pow_positive(p.friction as int, m);
        lemma_geometric_step(
            magnitude(q.updated().vx()),
            magnitude(q.vx()),
            magnitude(p.vx()),
            p.friction as int,
            pow(UNIT as int, m),
            pow(p.friction as int, m),
        );
        lemma_geometric_step(
            magnitude(q.updated().vy()),
            magnitude(q.vy()),
            magnitude(p.vy()),
            p.friction as int,
            pow(UNIT as int, m),
            pow(p.friction as int, m),
        );
    }
}

/// One step of the induction behind `lemma_friction_damps_repeatedly`.
proof fn lemma_geometric_step(w: int, v: int, v0: int, f: int, um: int, fm: int)
    by (nonlinear_arith)
    requires
        0 <= w,
        0 <= v,
        0 <= v0,
        0 < f,
        0 < um,
        0 < fm,
        w * 1000 <= v * f,
        v * um <= v0 * fm,
    ensures
        w * (1000 * um) <= v0 * (f * fm),
{
    assert(w * 1000 * um <= v * f * um);
    assert(v * um * f <= v0 * fm * f);
}

} // verus!
