//! The simulation driver: what one frame does to the rope, the enemies, the
//! points, the score and the two spawn timers.

use vstd::prelude::*;
use crate::arena::Arena;
use crate::arith::{lemma_scale_within_c, scale, scale_i64};
use crate::collision::{
    caught, check_collisions, check_enemy_collisions, collected, lemma_pickups_bounded,
    lemma_rope_hits_moves_centres_only, lemma_spread_moves_centres_only, pickups, raised,
    rope_hits, same_but_position, spread,
};
use crate::enemy::Enemy;
use crate::params::{
    ENEMY_SPAWN_INTERVAL, LERP_FACTOR, MAX_POINTS, POINT_SPAWN_INTERVAL, SUBSTEPS, UNIT,
};
use crate::particle::Particle;
use crate::point::Point;
use crate::rope::{rope_updated, Rope};
use crate::vector::Vec2;

verus! {

/// Everything that the simulation owns. Times are in thousandths of a time
/// unit, on the clock of whoever drives the frames.
#[derive(Debug)]
pub struct Simulation {
    pub rope: Rope,
    pub enemies: Vec<Enemy>,
    pub points: Vec<Point>,
    pub score: u64,
    pub game_over: bool,
    pub last_enemy_spawn: u64,
    pub last_point_spawn: u64,
}

/// The state of a simulation as a mathematical value.
pub struct World {
    pub particles: Seq<Particle>,
    pub thickness: i32,
    pub ball_radius: i32,
    pub enemies: Seq<Enemy>,
    pub points: Seq<Point>,
    pub score: u64,
    pub game_over: bool,
    pub last_enemy_spawn: u64,
    pub last_point_spawn: u64,
}

impl View for Simulation {
    type V = World;

    open spec fn view(&self) -> World {
        World {
            particles: self.rope.particles@,
            thickness: self.rope.thickness,
            ball_radius: self.rope.ball_radius,
            enemies: self.enemies@,
            points: self.points@,
            score: self.score,
            game_over: self.game_over,
            last_enemy_spawn: self.last_enemy_spawn,
            last_point_spawn: self.last_point_spawn,
        }
    }
}

/// Where the head of the chain is, or `fallback` for a chain without
/// particles.
pub open spec fn head_or(particles: Seq<Particle>, fallback: Vec2) -> Vec2 {
    if particles.len() > 0 {
        particles[0].position
    } else {
        fallback
    }
}

/// The target of the head for one frame: from `head`, the share `LERP_FACTOR`
/// of the way to `cursor`.
pub open spec fn smoothed(head: Vec2, cursor: Vec2) -> Vec2 {
    head.moved(
        scale(cursor.x - head.x, LERP_FACTOR as int, UNIT as int),
        scale(cursor.y - head.y, LERP_FACTOR as int, UNIT as int),
    )
}

/// At the time `now`, at least `interval` has passed since `last`.
pub open spec fn due(now: u64, last: u64, interval: u64) -> bool {
    now >= last && now - last >= interval
}

/// The world after the collision pass of one substep.
pub open spec fn collided(w: World) -> World {
    let (particles, enemies) = rope_hits(w.particles, w.enemies, w.particles.len());
    World {
        particles,
        enemies,
        points: collected(particles, w.points),
        score: raised(w.score, pickups(particles, w.points, w.points.len())),
        game_over: w.game_over || caught(w.particles, w.enemies),
        ..w
    }
}

/// The world after one substep towards `target`: the rope is updated, then
/// its collisions are resolved, then those between enemies.
pub open spec fn substepped(w: World, target: Vec2) -> World {
    let hit = collided(World { particles: rope_updated(w.particles, target), ..w });
    World { enemies: spread(hit.enemies, hit.enemies.len()), ..hit }
}

/// The world after `n` substeps towards `target`.
pub open spec fn substepped_times(w: World, target: Vec2, n: nat) -> World
    decreases n,
{
    if n == 0 {
        w
    } else {
        substepped(substepped_times(w, target, (n - 1) as nat), target)
    }
}

/// The world after the enemy `candidate`, if there is one and a spawn is due,
/// has joined the enemies.
pub open spec fn with_enemy(w: World, now: u64, candidate: Option<Enemy>) -> World {
    match candidate {
        Some(enemy) if due(now, w.last_enemy_spawn, ENEMY_SPAWN_INTERVAL) => World {
            enemies: w.enemies.push(enemy),
            last_enemy_spawn: now,
            ..w
        },
        _ => w,
    }
}

/// The world after the point `candidate`, if there is one, a spawn is due and
/// fewer than `MAX_POINTS` points are held, has joined the points.
pub open spec fn with_point(w: World, now: u64, candidate: Option<Point>) -> World {
    match candidate {
        Some(point) if due(now, w.last_point_spawn, POINT_SPAWN_INTERVAL) && w.points.len()
            < MAX_POINTS => World { points: w.points.push(point), last_point_spawn: now, ..w },
        _ => w,
    }
}

/// The enemies after each has had its tick towards `target`.
pub open spec fn advanced(enemies: Seq<Enemy>, target: Vec2, arena: Arena) -> Seq<Enemy> {
    Seq::new(enemies.len(), |i: int| enemies[i].updated(target, arena))
}

/// The world after every enemy has had its tick towards the head of the rope.
/// Without a head nothing is sought, and the enemies stay as they are.
pub open spec fn enemies_advanced(w: World, arena: Arena) -> World {
    if w.particles.len() > 0 {
        World { enemies: advanced(w.enemies, w.particles[0].position, arena), ..w }
    } else {
        w
    }
}

/// The test that an enemy has not been retired.
pub open spec fn enemy_is_active() -> spec_fn(Enemy) -> bool {
    |e: Enemy| e.active
}

/// The test that a point has not been collected.
pub open spec fn point_is_active() -> spec_fn(Point) -> bool {
    |p: Point| p.active
}

/// The world after retired enemies and collected points are dropped; those
/// that stay keep their order.
pub open spec fn compacted(w: World) -> World {
    World {
        enemies: w.enemies.filter(enemy_is_active()),
        points: w.points.filter(point_is_active()),
        ..w
    }
}

/// The world after one frame with the cursor at `cursor`: `SUBSTEPS` substeps
/// towards the smoothed target, then the spawns that are due, then the tick
/// of every enemy, then compaction.
pub open spec fn framed(
    w: World,
    cursor: Vec2,
    arena: Arena,
    now: u64,
    enemy: Option<Enemy>,
    point: Option<Point>,
) -> World {
    let target = smoothed(head_or(w.particles, cursor), cursor);
    let stepped = substepped_times(w, target, SUBSTEPS as nat);
    compacted(enemies_advanced(with_point(with_enemy(stepped, now, enemy), now, point), arena))
}

/// What a substep keeps and what it settles: the rope, the enemies and the
/// points keep their number, the head ends at the target, enemies are moved
/// and never retired or revived, the score never falls and rises by no more
/// than there are points, and a game that is over stays over.
pub proof fn lemma_substep_outcome(w: World, target: Vec2)
    ensures
        ({
            let n = substepped(w, target);
            &&& n.particles.len() == w.particles.len()
            &&& n.enemies.len() == w.enemies.len()
            &&& n.points.len() == w.points.len()
            &&& w.particles.len() > 0 ==> n.particles[0].position == target
            &&& forall|j: int|
                0 <= j < w.enemies.len() ==> same_but_position(
                    w.enemies[j],
                    #[trigger] n.enemies[j],
                )
            &&& forall|i: int|
                0 <= i < w.points.len() ==> (#[trigger] n.points[i]).position
                    == w.points[i].position && (n.points[i].active ==> w.points[i].active)
            &&& w.score <= n.score <= w.score + w.points.len()
            &&& w.game_over ==> n.game_over
            &&& n.thickness == w.thickness
            &&& n.ball_radius == w.ball_radius
            &&& n.last_enemy_spawn == w.last_enemy_spawn
            &&& n.last_point_spawn == w.last_point_spawn
        }),
{
    let updated = rope_updated(w.particles, target);
    crate::rope::lemma_update_pins_head(w.particles, target);
    lemma_rope_hits_moves_centres_only(updated, w.enemies, updated.len());
    let (particles, enemies) = rope_hits(updated, w.enemies, updated.len());
    lemma_pickups_bounded(particles, w.points, w.points.len());
    lemma_spread_moves_centres_only(enemies, enemies.len());
    let n = substepped(w, target);
    assert forall|j: int| 0 <= j < w.enemies.len() implies same_but_position(
        w.enemies[j],
        #[trigger] n.enemies[j],
    ) by {
        assert(same_but_position(w.enemies[j], enemies[j]));
        assert(same_but_position(enemies[j], n.enemies[j]));
    }
}

/// What `lemma_substep_outcome` says, for any number of substeps but none.
pub proof fn lemma_substeps_outcome(w: World, target: Vec2, count: nat)
    requires
        count > 0,
    ensures
        ({
            let n = substepped_times(w, target, count);
            &&& n.particles.len() == w.particles.len()
            &&& n.enemies.len() == w.enemies.len()
            &&& n.points.len() == w.points.len()
            &&& w.particles.len() > 0 ==> n.particles[0].position == target
            &&& forall|j: int|
                0 <= j < w.enemies.len() ==> same_but_position(
                    w.enemies[j],
                    #[trigger] n.enemies[j],
                )
            &&& forall|i: int|
                0 <= i < w.points.len() ==> (#[trigger] n.points[i]).position
                    == w.points[i].position && (n.points[i].active ==> w.points[i].active)
            &&& w.score <= n.score
            &&& w.game_over ==> n.game_over
            &&& n.thickness == w.thickness
            &&& n.ball_radius == w.ball_radius
            &&& n.last_enemy_spawn == w.last_enemy_spawn
            &&& n.last_point_spawn == w.last_point_spawn
        }),
    decreases count,
{
    reveal_with_fuel(substepped_times, 2);
    let before = substepped_times(w, target, (count - 1) as nat);
    if count > 1 {
        lemma_substeps_outcome(w, target, (count - 1) as nat);
    }
    lemma_substep_outcome(before, target);
    let n = substepped_times(w, target, count);
    assert forall|j: int| 0 <= j < w.enemies.len() implies same_but_position(
        w.enemies[j],
        #[trigger] n.enemies[j],
    ) by {
        assert(same_but_position(w.enemies[j], before.enemies[j]));
        assert(same_but_position(before.enemies[j], n.enemies[j]));
    }
    assert forall|i: int| 0 <= i < w.points.len() implies (#[trigger] n.points[i]).position
        == w.points[i].position && (n.points[i].active ==> w.points[i].active) by {
        assert(before.points[i].position == w.points[i].position);
    }
}

/// What a frame settles: the rope keeps its length and its head ends at the
/// smoothed target; every enemy and every point that is left is active;
/// with a rope to seek, every enemy that is left is inside the arena; no
/// more points are held than `MAX_POINTS`, unless more were held before; the
/// score never falls, and a game that is over stays over.
pub proof fn lemma_frame_outcome(
    w: World,
    cursor: Vec2,
    arena: Arena,
    now: u64,
    enemy: Option<Enemy>,
    point: Option<Point>,
)
    ensures
        ({
            let n = framed(w, cursor, arena, now, enemy, point);
            &&& n.particles.len() == w.particles.len()
            &&& w.particles.len() > 0 ==> n.particles[0].position == smoothed(
                w.particles[0].position,
                cursor,
            )
            &&& forall|j: int| 0 <= j < n.enemies.len() ==> (#[trigger] n.enemies[j]).active
            &&& w.particles.len() > 0 ==> forall|j: int|
                0 <= j < n.enemies.len() ==> arena.contains(
                    (#[trigger] n.enemies[j]).particle.position,
                )
            &&& forall|i: int| 0 <= i < n.points.len() ==> (#[trigger] n.points[i]).active
            &&& n.enemies.len() <= w.enemies.len() + 1
            &&& n.points.len() <= w.points.len() + 1
            &&& w.points.len() <= MAX_POINTS ==> n.points.len() <= MAX_POINTS
            &&& w.score <= n.score
            &&& w.game_over ==> n.game_over
        }),
{
    let target = smoothed(head_or(w.particles, cursor), cursor);
    let stepped = substepped_times(w, target, SUBSTEPS as nat);
    lemma_substeps_outcome(w, target, SUBSTEPS as nat);
    let joined = with_point(with_enemy(stepped, now, enemy), now, point);
    let moved = enemies_advanced(joined, arena);
    let n = compacted(moved);
    moved.enemies.lemma_filter_len(enemy_is_active());
    moved.points.lemma_filter_len(point_is_active());
    assert forall|j: int| 0 <= j < n.enemies.len() implies (#[trigger] n.enemies[j]).active && (
    w.particles.len() > 0 ==> arena.contains(n.enemies[j].particle.position)) by {
        moved.enemies.lemma_filter_pred(enemy_is_active(), j);
        assert(n.enemies.contains(n.enemies[j]));
        moved.enemies.lemma_filter_contains_rev(enemy_is_active(), n.enemies[j]);
        let i = choose|i: int| 0 <= i < moved.enemies.len() && moved.enemies[i] == n.enemies[j];
        if w.particles.len() > 0 {
            let head = joined.particles[0].position;
            assert(moved.enemies[i] == joined.enemies[i].updated(head, arena));
        }
    }
    assert forall|i: int| 0 <= i < n.points.len() implies (#[trigger] n.points[i]).active by {
        moved.points.lemma_filter_pred(point_is_active(), i);
    }
}

/// Boundary culling: an enemy whose tick takes it out of the arena, on any
/// side, is retired by that very tick, and is not among the enemies that
/// compaction keeps; all that it keeps are active and inside the arena.
pub proof fn lemma_boundary_culling(enemies: Seq<Enemy>, target: Vec2, arena: Arena, i: int)
    requires
        0 <= i < enemies.len(),
        !arena.contains(enemies[i].updated(target, arena).particle.position),
    ensures
        !enemies[i].updated(target, arena).active,
        !advanced(enemies, target, arena).filter(enemy_is_active()).contains(
            enemies[i].updated(target, arena),
        ),
        forall|k: int|
            0 <= k < advanced(enemies, target, arena).filter(enemy_is_active()).len() ==> {
                let kept = #[trigger] advanced(enemies, target, arena).filter(enemy_is_active())[k];
                kept.active && arena.contains(kept.particle.position)
            },
{
    let after = advanced(enemies, target, arena);
    let kept = after.filter(enemy_is_active());
    assert forall|k: int| 0 <= k < kept.len() implies (#[trigger] kept[k]).active && arena.contains(
        kept[k].particle.position,
    ) by {
        after.lemma_filter_pred(enemy_is_active(), k);
        assert(kept.contains(kept[k]));
        after.lemma_filter_contains_rev(enemy_is_active(), kept[k]);
        let j = choose|j: int| 0 <= j < after.len() && after[j] == kept[k];
        assert(after[j] == enemies[j].updated(target, arena));
    }
    if kept.contains(enemies[i].updated(target, arena)) {
        let k = choose|k: int| 0 <= k < kept.len() && kept[k] == enemies[i].updated(target, arena);
        assert(kept[k].active);
    }
}

/// Whether at least `interval` has passed since `last`.
pub fn is_due(now: u64, last: u64, interval: u64) -> (elapsed: bool)
    ensures
        elapsed == due(now, last, interval),
{
    now >= last && now - last >= interval
}

/// The target of the head for one frame.
pub fn smoothed_target(head: Vec2, cursor: Vec2) -> (target: Vec2)
    ensures
        target == smoothed(head, cursor),
{
    let (dx, dy): (i64, i64) = head.delta_to(cursor);
    proof {
        lemma_scale_within_c(dx as int, LERP_FACTOR as int, UNIT as int);
        lemma_scale_within_c(dy as int, LERP_FACTOR as int, UNIT as int);
    }
    let sx: i64 = scale_i64(dx, LERP_FACTOR as i64, UNIT as i64);
    let sy: i64 = scale_i64(dy, LERP_FACTOR as i64, UNIT as i64);
    head.translate(sx, sy)
}

/// Drops the enemies that are retired, keeping the order of the others.
pub fn retain_active_enemies(enemies: &mut Vec<Enemy>)
    ensures
        final(enemies)@ == old(enemies)@.filter(enemy_is_active()),
        forall|i: int| 0 <= i < final(enemies)@.len() ==> (#[trigger] final(enemies)@[i]).active,
{
    let mut kept: Vec<Enemy> = Vec::new();
    let n: usize = enemies.len();
    let mut i: usize = 0;
    assert(enemies@.take(0) =~= Seq::<Enemy>::empty());
    while i < n
        invariant
            i <= n == enemies@.len(),
            enemies@ == old(enemies)@,
            kept@ == enemies@.take(i as int).filter(enemy_is_active()),
            forall|j: int| 0 <= j < kept@.len() ==> (#[trigger] kept@[j]).active,
        decreases n - i,
    {
        let e: Enemy = enemies[i];
        let ghost before = kept@;
        if e.active {
            kept.push(e);
        }
        proof {
            let prefix = enemies@.take(i as int);
            assert(enemies@.take(i + 1) =~= prefix.push(e));
            prefix.lemma_filter_push(e, enemy_is_active());
            assert(prefix.push(e).filter(enemy_is_active()) == if e.active {
                before.push(e)
            } else {
                before
            });
        }
        i += 1;
    }
    assert(enemies@.take(n as int) =~= enemies@);
    *enemies = kept;
}

/// Drops the points that are collected, keeping the order of the others.
pub fn retain_active_points(points: &mut Vec<Point>)
    ensures
        final(points)@ == old(points)@.filter(point_is_active()),
        forall|i: int| 0 <= i < final(points)@.len() ==> (#[trigger] final(points)@[i]).active,
{
    let mut kept: Vec<Point> = Vec::new();
    let n: usize = points.len();
    let mut i: usize = 0;
    assert(points@.take(0) =~= Seq::<Point>::empty());
    while i < n
        invariant
            i <= n == points@.len(),
            points@ == old(points)@,
            kept@ == points@.take(i as int).filter(point_is_active()),
            forall|j: int| 0 <= j < kept@.len() ==> (#[trigger] kept@[j]).active,
        decreases n - i,
    {
        let p: Point = points[i];
        let ghost before = kept@;
        if p.active {
            kept.push(p);
        }
        proof {
            let prefix = points@.take(i as int);
            assert(points@.take(i + 1) =~= prefix.push(p));
            prefix.lemma_filter_push(p, point_is_active());
            assert(prefix.push(p).filter(point_is_active()) == if p.active {
                before.push(p)
            } else {
                before
            });
        }
        i += 1;
    }
    assert(points@.take(n as int) =~= points@);
    *points = kept;
}

/// Gives every enemy its tick towards `target`.
pub fn advance_enemies(enemies: &mut Vec<Enemy>, target: Vec2, arena: &Arena)
    ensures
        final(enemies)@ == advanced(old(enemies)@, target, *arena),
{
    let n: usize = enemies.len();
    let mut i: usize = 0;
    while i < n
        invariant
            i <= n == enemies@.len() == old(enemies)@.len(),
            forall|j: int| 0 <= j < i ==> enemies@[j] == old(enemies)@[j].updated(target, *arena),
            forall|j: int| i <= j < n ==> enemies@[j] == old(enemies)@[j],
        decreases n - i,
    {
        let mut e: Enemy = enemies[i];
        e.update(target, arena);
        enemies.set(i, e);
        i += 1;
    }
    assert(enemies@ =~= advanced(old(enemies)@, target, *arena));
}

impl Simulation {
    /// A simulation with a fresh rope at `start`, nothing else in it, and
    /// both spawn timers started at `now`.
    pub fn new(start: Vec2, now: u64) -> (sim: Simulation)
        ensures
            sim@.enemies.len() == 0,
            sim@.points.len() == 0,
            sim@.score == 0,
            !sim@.game_over,
            sim@.last_enemy_spawn == now,
            sim@.last_point_spawn == now,
            sim@.particles.len() == crate::params::NUM_PARTICLES,
            forall|i: int|
                0 <= i < sim@.particles.len() ==> {
                    &&& (#[trigger] sim@.particles[i]).position == start.moved(
                        i * crate::params::SEGMENT_LENGTH,
                        0,
                    )
                    &&& sim@.particles[i].old_position == sim@.particles[i].position
                    &&& sim@.particles[i].friction == crate::params::FRICTION
                },
            sim@.thickness == crate::params::ROPE_THICKNESS,
            sim@.ball_radius == crate::params::ROPE_BALL_RADIUS,
    {
        Simulation {
            rope: Rope::new(start),
            enemies: Vec::new(),
            points: Vec::new(),
            score: 0,
            game_over: false,
            last_enemy_spawn: now,
            last_point_spawn: now,
        }
    }

    /// Where the head of the rope is, or `fallback` if the rope has no
    /// particles.
    pub fn head(&self, fallback: Vec2) -> (head: Vec2)
        ensures
            head == head_or(self@.particles, fallback),
    {
        if self.rope.particles.len() > 0 {
            self.rope.particles[0].position
        } else {
            fallback
        }
    }

    /// One substep towards `target`.
    pub fn substep(&mut self, target: Vec2)
        ensures
            final(self)@ == substepped(old(self)@, target),
            final(self)@.particles.len() == old(self)@.particles.len(),
            old(self)@.particles.len() > 0 ==> final(self)@.particles[0].position == target,
            final(self)@.enemies.len() == old(self)@.enemies.len(),
            final(self)@.points.len() == old(self)@.points.len(),
            old(self)@.score <= final(self)@.score <= old(self)@.score + old(self)@.points.len(),
            old(self)@.game_over ==> final(self)@.game_over,
    {
        proof {
            lemma_substep_outcome(old(self)@, target);
        }
        self.rope.update(target);
        check_collisions(
            &mut self.rope,
            &mut self.enemies,
            &mut self.points,
            &mut self.score,
            &mut self.game_over,
        );
        check_enemy_collisions(&mut self.enemies);
    }

    /// The substeps of one frame: `SUBSTEPS` of them, all towards the target
    /// that the cursor gives at the start of the frame.
    pub fn run_substeps(&mut self, cursor: Vec2)
        ensures
            final(self)@ == substepped_times(
                old(self)@,
                smoothed(head_or(old(self)@.particles, cursor), cursor),
                SUBSTEPS as nat,
            ),
    {
        let target: Vec2 = smoothed_target(self.head(cursor), cursor);
        let mut n: usize = 0;
        while n < SUBSTEPS
            invariant
                n <= SUBSTEPS,
                self@ == substepped_times(old(self)@, target, n as nat),
            decreases SUBSTEPS - n,
        {
            self.substep(target);
            n += 1;
        }
    }

    /// Lets `candidate` join the enemies if an enemy spawn is due at `now`,
    /// and restarts the timer if so.
    pub fn admit_enemy(&mut self, now: u64, candidate: Option<Enemy>)
        ensures
            final(self)@ == with_enemy(old(self)@, now, candidate),
    {
        if let Some(enemy) = candidate {
            if is_due(now, self.last_enemy_spawn, ENEMY_SPAWN_INTERVAL) {
                self.enemies.push(enemy);
                self.last_enemy_spawn = now;
            }
        }
    }

    /// Lets `candidate` join the points if a point spawn is due at `now` and
    /// there is room, and restarts the timer if so.
    pub fn admit_point(&mut self, now: u64, candidate: Option<Point>)
        ensures
            final(self)@ == with_point(old(self)@, now, candidate),
    {
        if let Some(point) = candidate {
            if is_due(now, self.last_point_spawn, POINT_SPAWN_INTERVAL) && self.points.len()
                < MAX_POINTS {
                self.points.push(point);
                self.last_point_spawn = now;
            }
        }
    }

    /// The end of a frame: every enemy has its tick towards the head, then
    /// retired enemies and collected points are dropped.
    pub fn finish_frame(&mut self, arena: &Arena)
        ensures
            final(self)@ == compacted(enemies_advanced(old(self)@, *arena)),
            forall|i: int|
                0 <= i < final(self)@.enemies.len() ==> (#[trigger] final(self)@.enemies[i]).active,
            forall|i: int|
                0 <= i < final(self)@.points.len() ==> (#[trigger] final(self)@.points[i]).active,
    {
        if self.rope.particles.len() > 0 {
            let head: Vec2 = self.rope.particles[0].position;
            advance_enemies(&mut self.enemies, head, arena);
        }
        retain_active_enemies(&mut self.enemies);
        retain_active_points(&mut self.points);
    }

    /// One frame with the given spawn candidates. Returns whether the game is
    /// over.
    pub fn frame_with(
        &mut self,
        cursor: Vec2,
        arena: &Arena,
        now: u64,
        enemy: Option<Enemy>,
        point: Option<Point>,
    ) -> (over: bool)
        ensures
            final(self)@ == framed(old(self)@, cursor, *arena, now, enemy, point),
            over == final(self)@.game_over,
            old(self)@.game_over ==> over,
            final(self)@.score >= old(self)@.score,
            final(self)@.particles.len() == old(self)@.particles.len(),
            old(self)@.particles.len() > 0 ==> final(self)@.particles[0].position == smoothed(
                old(self)@.particles[0].position,
                cursor,
            ),
            forall|j: int|
                0 <= j < final(self)@.enemies.len() ==> (#[trigger] final(self)@.enemies[j]).active,
            old(self)@.particles.len() > 0 ==> forall|j: int|
                0 <= j < final(self)@.enemies.len() ==> arena.contains(
                    (#[trigger] final(self)@.enemies[j]).particle.position,
                ),
            forall|i: int|
                0 <= i < final(self)@.points.len() ==> (#[trigger] final(self)@.points[i]).active,
            old(self)@.points.len() <= MAX_POINTS ==> final(self)@.points.len() <= MAX_POINTS,
    {
        proof {
            lemma_frame_outcome(old(self)@, cursor, *arena, now, enemy, point);
        }
        self.run_substeps(cursor);
        self.admit_enemy(now, enemy);
        self.admit_point(now, point);
        self.finish_frame(arena);
        self.game_over
    }

    /// One frame, with spawn candidates drawn at random where a spawn is due:
    /// an enemy on the border of `arena`, a point inside it. Returns whether
    /// the game is over.
    pub fn frame(&mut self, cursor: Vec2, arena: &Arena, now: u64) -> (over: bool)
        ensures
            exists|enemy: Option<Enemy>, point: Option<Point>|
                {
                    &&& final(self)@ == #[trigger] framed(
                        old(self)@,
                        cursor,
                        *arena,
                        now,
                        enemy,
                        point,
                    )
                    &&& enemy is Some <==> due(
                        now,
                        old(self)@.last_enemy_spawn,
                        ENEMY_SPAWN_INTERVAL,
                    )
                    &&& point is Some <==> due(
                        now,
                        old(self)@.last_point_spawn,
                        POINT_SPAWN_INTERVAL,
                    )
                    &&& enemy matches Some(e) ==> e == Enemy::resting_at(e.particle.position) && (
                    arena.wf() ==> arena.on_border(e.particle.position))
                    &&& point matches Some(p) ==> p == Point::waiting_at(p.position) && (arena.wf()
                        ==> arena.contains(p.position))
                },
            over == final(self)@.game_over,
            old(self)@.game_over ==> over,
            final(self)@.score >= old(self)@.score,
            final(self)@.particles.len() == old(self)@.particles.len(),
            old(self)@.particles.len() > 0 ==> final(self)@.particles[0].position == smoothed(
                old(self)@.particles[0].position,
                cursor,
            ),
            forall|j: int|
                0 <= j < final(self)@.enemies.len() ==> (#[trigger] final(self)@.enemies[j]).active,
            old(self)@.particles.len() > 0 ==> forall|j: int|
                0 <= j < final(self)@.enemies.len() ==> arena.contains(
                    (#[trigger] final(self)@.enemies[j]).particle.position,
                ),
            forall|i: int|
                0 <= i < final(self)@.points.len() ==> (#[trigger] final(self)@.points[i]).active,
            old(self)@.points.len() <= MAX_POINTS ==> final(self)@.points.len() <= MAX_POINTS,
    {
        let enemy: Option<Enemy> = if is_due(now, self.last_enemy_spawn, ENEMY_SPAWN_INTERVAL) {
            Some(Enemy::new(arena))
        } else {
            None
        };
        let point: Option<Point> = if is_due(now, self.last_point_spawn, POINT_SPAWN_INTERVAL) {
            Some(Point::new(arena))
        } else {
            None
        };
        let over: bool = self.frame_with(cursor, arena, now, enemy, point);
        assert(self@ == framed(old(self)@, cursor, *arena, now, enemy, point));
        over
    }
}

} // verus!
