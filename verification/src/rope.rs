//! The rope: a chain of particles whose head follows a target and whose
//! segments are pulled towards their rest length by repeated relaxation.

use vstd::prelude::*;
use crate::arith::{lemma_scale_within_num, scale, scale_i64};
use crate::params::{
    CONSTRAINT_ITERATIONS, FRICTION, NUM_PARTICLES, ROPE_BALL_RADIUS, ROPE_THICKNESS,
    SEGMENT_LENGTH, SUBSTEPS,
};
use crate::particle::Particle;
use crate::vector::{lemma_component_within_length, Vec2};

verus! {

/// A chain of particles, head first, with what is needed to draw it.
#[derive(Debug)]
pub struct Rope {
    pub particles: Vec<Particle>,
    pub thickness: i32,
    pub ball_radius: i32,
}

/// The particle `p` with its position moved by `(dx, dy)`; its remembered
/// position stays, so the move becomes velocity at the next tick.
pub open spec fn nudged(p: Particle, dx: int, dy: int) -> Particle {
    Particle {
        position: p.position.moved(dx, dy),
        old_position: p.old_position,
        friction: p.friction,
    }
}

/// The correction for the segment from `a` to `b`: the displacement between
/// them, scaled by the segment's relative length error, halved and divided
/// over the substeps of a frame. It points from `a` to `b` where the segment
/// is stretched. Coinciding ends get no correction.
pub open spec fn correction(a: Vec2, b: Vec2) -> (int, int) {
    let len = a.dist(b);
    if len == 0 {
        (0, 0)
    } else {
        (
            scale(b.x - a.x, len - SEGMENT_LENGTH, 2 * SUBSTEPS * len),
            scale(b.y - a.y, len - SEGMENT_LENGTH, 2 * SUBSTEPS * len),
        )
    }
}

/// The chain after the segment between particles `i` and `i + 1` is relaxed:
/// both ends move towards the rest length by the same correction, except the
/// head, which never moves.
pub open spec fn relaxed_at(s: Seq<Particle>, i: int) -> Seq<Particle>
    recommends
        0 <= i,
        i + 1 < s.len(),
{
    let c = correction(s[i].position, s[i + 1].position);
    let first = if i == 0 {
        s[i]
    } else {
        nudged(s[i], c.0, c.1)
    };
    s.update(i, first).update(i + 1, nudged(s[i + 1], -c.0, -c.1))
}

/// The chain after its first `n` segments are relaxed one after the other,
/// each seeing the corrections made before it.
pub open spec fn swept(s: Seq<Particle>, n: nat) -> Seq<Particle>
    decreases n,
{
    if n == 0 {
        s
    } else {
        relaxed_at(swept(s, (n - 1) as nat), n - 1)
    }
}

/// The chain after one sweep over all its segments, front to back.
pub open spec fn relaxed(s: Seq<Particle>) -> Seq<Particle> {
    if s.len() < 2 {
        s
    } else {
        swept(s, (s.len() - 1) as nat)
    }
}

/// The chain after `k` sweeps.
pub open spec fn relaxed_times(s: Seq<Particle>, k: nat) -> Seq<Particle>
    decreases k,
{
    if k == 0 {
        s
    } else {
        relaxed(relaxed_times(s, (k - 1) as nat))
    }
}

/// The chain with its head put at `target`.
pub open spec fn pinned(s: Seq<Particle>, target: Vec2) -> Seq<Particle> {
    if s.len() == 0 {
        s
    } else {
        s.update(
            0,
            Particle { position: target, old_position: s[0].old_position, friction: s[0].friction },
        )
    }
}

/// The chain after every particle but the head has advanced by one tick.
pub open spec fn integrated(s: Seq<Particle>) -> Seq<Particle> {
    Seq::new(
        s.len(),
        |j: int|
            if j == 0 {
                s[j]
            } else {
                s[j].updated()
            },
    )
}

/// The chain after one update towards `target`: the head is pinned there, the
/// segments are relaxed `CONSTRAINT_ITERATIONS` times, and the rest of the
/// chain is integrated.
pub open spec fn rope_updated(s: Seq<Particle>, target: Vec2) -> Seq<Particle> {
    integrated(relaxed_times(pinned(s, target), CONSTRAINT_ITERATIONS as nat))
}

/// Relaxing a segment keeps the chain's length and its head.
pub proof fn lemma_relaxed_at_keeps(s: Seq<Particle>, i: int)
    requires
        0 <= i,
        i + 1 < s.len(),
    ensures
        relaxed_at(s, i).len() == s.len(),
        relaxed_at(s, i)[0] == s[0],
        forall|j: int| 0 <= j < s.len() && j != i && j != i + 1 ==> relaxed_at(s, i)[j] == s[j],
        forall|j: int|
            0 <= j < s.len() ==> (#[trigger] relaxed_at(s, i)[j]).old_position == s[j].old_position
                && relaxed_at(s, i)[j].friction == s[j].friction,
{
}

/// Relaxing the first `n` segments keeps the chain's length, its head, and
/// every particle behind the last of these segments.
pub proof fn lemma_swept_keeps(s: Seq<Particle>, n: nat)
    requires
        n < s.len(),
    ensures
        swept(s, n).len() == s.len(),
        swept(s, n)[0] == s[0],
        forall|j: int| n < j < s.len() ==> swept(s, n)[j] == s[j],
    decreases n,
{
    if n > 0 {
        lemma_swept_keeps(s, (n - 1) as nat);
        lemma_relaxed_at_keeps(swept(s, (n - 1) as nat), n - 1);
    }
}

/// Any number of sweeps keeps the chain's length and its head.
pub proof fn lemma_relaxed_times_keeps(s: Seq<Particle>, k: nat)
    ensures
        relaxed_times(s, k).len() == s.len(),
        s.len() > 0 ==> relaxed_times(s, k)[0] == s[0],
    decreases k,
{
    if k > 0 {
        lemma_relaxed_times_keeps(s, (k - 1) as nat);
        let t = relaxed_times(s, (k - 1) as nat);
        if t.len() >= 2 {
            lemma_swept_keeps(t, (t.len() - 1) as nat);
        }
    }
}

/// Head pinning: after an update towards `target` the chain is as long as it
/// was, and its head is at `target`.
pub proof fn lemma_update_pins_head(s: Seq<Particle>, target: Vec2)
    ensures
        rope_updated(s, target).len() == s.len(),
        s.len() > 0 ==> rope_updated(s, target)[0].position == target,
        s.len() > 0 ==> rope_updated(s, target)[0].old_position == s[0].old_position,
{
    lemma_relaxed_times_keeps(pinned(s, target), CONSTRAINT_ITERATIONS as nat);
}

impl Rope {
    /// A rope of `NUM_PARTICLES` particles at rest, laid out to the right of
    /// `start` at the rest length from each other.
    pub fn new(start: Vec2) -> (rope: Rope)
        ensures
            rope.particles@.len() == NUM_PARTICLES,
            forall|i: int|
                0 <= i < NUM_PARTICLES ==> {
                    &&& (#[trigger] rope.particles@[i]).position == start.moved(
                        i * SEGMENT_LENGTH,
                        0,
                    )
                    &&& rope.particles@[i].old_position == rope.particles@[i].position
                    &&& rope.particles@[i].friction == FRICTION
                },
            rope.thickness == ROPE_THICKNESS,
            rope.ball_radius == ROPE_BALL_RADIUS,
    {
        let mut particles: Vec<Particle> = Vec::new();
        let mut i: usize = 0;
        while i < NUM_PARTICLES
            invariant
                i <= NUM_PARTICLES,
                particles@.len() == i,
                forall|j: int|
                    0 <= j < i ==> {
                        &&& (#[trigger] particles@[j]).position == start.moved(
                            j * SEGMENT_LENGTH,
                            0,
                        )
                        &&& particles@[j].old_position == particles@[j].position
                        &&& particles@[j].friction == FRICTION
                    },
            decreases NUM_PARTICLES - i,
        {
            let along: i64 = i as i64 * SEGMENT_LENGTH as i64;
            particles.push(Particle::new(start.translate(along, 0)));
            i += 1;
        }
        Rope { particles, thickness: ROPE_THICKNESS, ball_radius: ROPE_BALL_RADIUS }
    }

    /// Relaxes the segment between particles `i` and `i + 1`.
    fn relax_segment(&mut self, i: usize)
        requires
            i + 1 < old(self).particles@.len(),
        ensures
            final(self).particles@ == relaxed_at(old(self).particles@, i as int),
            final(self).thickness == old(self).thickness,
            final(self).ball_radius == old(self).ball_radius,
    {
        let n: usize = self.particles.len();
        let mut a: Particle = self.particles[i];
        let mut b: Particle = self.particles[i + 1];
        let (dx, dy): (i64, i64) = a.position.delta_to(b.position);
        let len: u64 = a.position.distance(b.position);
        if len > 0 {
            let error: i64 = len as i64 - SEGMENT_LENGTH as i64;
            assert(2 * SUBSTEPS * len == 10 * len) by (nonlinear_arith)
                requires
                    SUBSTEPS == 5,
            ;
            let share: i64 = 2 * SUBSTEPS as i64 * len as i64;
            proof {
                crate::arith::lemma_floor_sqrt_exists(a.position.dist_sq(b.position));
                lemma_component_within_length(dx as int, dy as int, len as int);
                lemma_scale_within_num(dx as int, error as int, share as int);
                lemma_scale_within_num(dy as int, error as int, share as int);
            }
            let cx: i64 = scale_i64(dx, error, share);
            let cy: i64 = scale_i64(dy, error, share);
            if i != 0 {
                a.position = a.position.translate(cx, cy);
            }
            b.position = b.position.translate(-cx, -cy);
        }
        self.particles.set(i, a);
        self.particles.set(i + 1, b);
        assert(self.particles@ =~= relaxed_at(old(self).particles@, i as int));
    }

    /// One relaxation sweep: every segment in turn, front to back, each
    /// seeing the corrections of those before it.
    pub fn relax(&mut self)
        ensures
            final(self).particles@ == relaxed(old(self).particles@),
            final(self).particles@.len() == old(self).particles@.len(),
            final(self).thickness == old(self).thickness,
            final(self).ball_radius == old(self).ball_radius,
    {
        let n: usize = self.particles.len();
        if n >= 2 {
            let mut i: usize = 0;
            while i + 1 < n
                invariant
                    2 <= n == self.particles@.len() == old(self).particles@.len(),
                    i + 1 <= n,
                    self.particles@ == swept(old(self).particles@, i as nat),
                    self.thickness == old(self).thickness,
                    self.ball_radius == old(self).ball_radius,
                decreases n - i,
            {
                self.relax_segment(i);
                i += 1;
                proof {
                    lemma_swept_keeps(old(self).particles@, i as nat);
                }
            }
        }
    }

    /// One update of the rope: the head goes to `target`, the segments are
    /// relaxed `CONSTRAINT_ITERATIONS` times, and every particle but the head
    /// advances by one tick.
    pub fn update(&mut self, target: Vec2)
        ensures
            final(self).particles@ == rope_updated(old(self).particles@, target),
            final(self).particles@.len() == old(self).particles@.len(),
            old(self).particles@.len() > 0 ==> final(self).particles@[0].position == target,
            final(self).thickness == old(self).thickness,
            final(self).ball_radius == old(self).ball_radius,
    {
        let n: usize = self.particles.len();
        if n > 0 {
            let mut head: Particle = self.particles[0];
            head.position = target;
            self.particles.set(0, head);
        }
        assert(self.particles@ =~= pinned(old(self).particles@, target));
        let mut k: usize = 0;
        while k < CONSTRAINT_ITERATIONS
            invariant
                k <= CONSTRAINT_ITERATIONS,
                n == self.particles@.len(),
                self.particles@ == relaxed_times(pinned(old(self).particles@, target), k as nat),
                self.thickness == old(self).thickness,
                self.ball_radius == old(self).ball_radius,
            decreases CONSTRAINT_ITERATIONS - k,
        {
            self.relax();
            k += 1;
        }
        let ghost settled = self.particles@;
        let mut i: usize = 1;
        while i < n
            invariant
                1 <= i,
                n == self.particles@.len() == settled.len(),
                forall|j: int| 0 <= j < i && j < n ==> self.particles@[j] == integrated(settled)[j],
                forall|j: int| i <= j < n ==> self.particles@[j] == settled[j],
                self.thickness == old(self).thickness,
                self.ball_radius == old(self).ball_radius,
            decreases n - i,
        {
            let mut p: Particle = self.particles[i];
            p.update();
            self.particles.set(i, p);
            i += 1;
        }
        assert(self.particles@ =~= integrated(settled));
        proof {
            lemma_update_pins_head(old(self).particles@, target);
        }
    }
}

} // verus!
