//! Collision resolution: overlapping bodies are pushed apart along the line
//! between their centres, points within reach of the rope are collected, and
//! an enemy that touches the head of the rope ends the game.

use vstd::prelude::*;
use crate::arith::{
    div_toward_zero, lemma_floor_sqrt_at_least, lemma_floor_sqrt_exists, lemma_scale_within_num,
    scale, scale_i64,
};
use crate::enemy::Enemy;
use crate::params::{CONTACT_DISTANCE, ENEMY_RADIUS, PICKUP_DISTANCE};
use crate::particle::Particle;
use crate::point::Point;
use crate::rope::Rope;
use crate::vector::{lemma_component_within_length, Vec2};

verus! {

/// The centres `a` and `b` are less than `distance` apart.
pub open spec fn closer_than(a: Vec2, b: Vec2, distance: int) -> bool {
    a.dist(b) < distance
}

/// The displacement that separates two bodies with centres `a` and `b` which
/// ought to be `min_distance` apart: the direction from `a` to `b`, scaled to
/// the depth of their overlap. Bodies that do not overlap, and bodies whose
/// centres coincide, get none.
pub open spec fn overlap_push(a: Vec2, b: Vec2, min_distance: int) -> (int, int) {
    let len = a.dist(b);
    if len == 0 || len >= min_distance {
        (0, 0)
    } else {
        (scale(b.x - a.x, min_distance - len, len), scale(b.y - a.y, min_distance - len, len))
    }
}

/// Where the two centres are after the overlap is resolved. A pinned `a`
/// stays and `b` takes the whole push; otherwise `a` retreats by half of it,
/// rounded toward zero, and `b` advances by the rest.
pub open spec fn separated(a: Vec2, b: Vec2, min_distance: int, a_pinned: bool) -> (Vec2, Vec2) {
    let push = overlap_push(a, b, min_distance);
    if a_pinned {
        (a, b.moved(push.0, push.1))
    } else {
        let hx = div_toward_zero(push.0, 2);
        let hy = div_toward_zero(push.1, 2);
        (a.moved(-hx, -hy), b.moved(push.0 - hx, push.1 - hy))
    }
}

/// The enemy `e` with its centre put at `position`.
pub open spec fn enemy_at(e: Enemy, position: Vec2) -> Enemy {
    Enemy {
        particle: Particle {
            position,
            old_position: e.particle.old_position,
            friction: e.particle.friction,
        },
        active: e.active,
        radius: e.radius,
    }
}

/// The particle `p` with its centre put at `position`.
pub open spec fn particle_at(p: Particle, position: Vec2) -> Particle {
    Particle { position, old_position: p.old_position, friction: p.friction }
}

/// A rope particle at `p` after its overlaps with the first `n` enemies are
/// resolved in order, and the enemies after that. Retired enemies are passed
/// over.
pub open spec fn hits(p: Vec2, pinned: bool, enemies: Seq<Enemy>, n: nat) -> (Vec2, Seq<Enemy>)
    decreases n,
{
    if n == 0 {
        (p, enemies)
    } else {
        let (q, es) = hits(p, pinned, enemies, (n - 1) as nat);
        let e = es[n - 1];
        if e.active {
            let (a, b) = separated(q, e.particle.position, CONTACT_DISTANCE as int, pinned);
            (a, es.update(n - 1, enemy_at(e, b)))
        } else {
            (q, es)
        }
    }
}

/// The rope and the enemies after the first `k` rope particles, head first,
/// have each been resolved against all enemies. The head is pinned.
pub open spec fn rope_hits(particles: Seq<Particle>, enemies: Seq<Enemy>, k: nat) -> (
    Seq<Particle>,
    Seq<Enemy>,
)
    decreases k,
{
    if k == 0 {
        (particles, enemies)
    } else {
        let (ps, es) = rope_hits(particles, enemies, (k - 1) as nat);
        let (q, es2) = hits(ps[k - 1].position, k == 1, es, es.len());
        (ps.update(k - 1, particle_at(ps[k - 1], q)), es2)
    }
}

/// Some particle of the rope is within pickup distance of `place`.
pub open spec fn within_reach(particles: Seq<Particle>, place: Vec2) -> bool {
    exists|k: int|
        0 <= k < particles.len() && closer_than(
            (#[trigger] particles[k]).position,
            place,
            PICKUP_DISTANCE as int,
        )
}

/// The rope collects `point`: it still waits, and the rope reaches it.
pub open spec fn picked(particles: Seq<Particle>, point: Point) -> bool {
    point.active && within_reach(particles, point.position)
}

/// The points after the rope has collected those it reaches.
pub open spec fn collected(particles: Seq<Particle>, points: Seq<Point>) -> Seq<Point> {
    Seq::new(
        points.len(),
        |i: int|
            if picked(particles, points[i]) {
                Point { position: points[i].position, active: false, radius: points[i].radius }
            } else {
                points[i]
            },
    )
}

/// How many of the first `n` points the rope collects.
pub open spec fn pickups(particles: Seq<Particle>, points: Seq<Point>, n: nat) -> nat
    decreases n,
{
    if n == 0 {
        0
    } else {
        pickups(particles, points, (n - 1) as nat) + if picked(particles, points[n - 1]) {
            1nat
        } else {
            0nat
        }
    }
}

/// A score raised by `gain`, stopping at the largest score there is.
pub open spec fn raised(score: u64, gain: nat) -> u64 {
    if score + gain > u64::MAX {
        u64::MAX
    } else {
        (score + gain) as u64
    }
}

/// An active enemy touches the head of the rope.
pub open spec fn caught(particles: Seq<Particle>, enemies: Seq<Enemy>) -> bool {
    particles.len() > 0 && exists|j: int|
        0 <= j < enemies.len() && (#[trigger] enemies[j]).active && closer_than(
            particles[0].position,
            enemies[j].particle.position,
            CONTACT_DISTANCE as int,
        )
}

/// The enemies after the overlaps of enemy `i` with the enemies from `i + 1`
/// up to, not including, `m` are resolved in order. Only pairs of active
/// enemies are looked at.
pub open spec fn spread_row(enemies: Seq<Enemy>, i: nat, m: nat) -> Seq<Enemy>
    decreases m,
{
    if m <= i + 1 {
        enemies
    } else {
        let es = spread_row(enemies, i, (m - 1) as nat);
        let j = m - 1;
        if es[i as int].active && es[j].active {
            let (a, b) = separated(
                es[i as int].particle.position,
                es[j].particle.position,
                2 * ENEMY_RADIUS,
                false,
            );
            es.update(i as int, enemy_at(es[i as int], a)).update(j, enemy_at(es[j], b))
        } else {
            es
        }
    }
}

/// The enemies after the first `r` of them have each been resolved against
/// all that follow them.
pub open spec fn spread(enemies: Seq<Enemy>, r: nat) -> Seq<Enemy>
    decreases r,
{
    if r == 0 {
        enemies
    } else {
        let es = spread(enemies, (r - 1) as nat);
        spread_row(es, (r - 1) as nat, es.len())
    }
}

/// Two enemies that differ at most in where their centres are.
pub open spec fn same_but_position(e: Enemy, f: Enemy) -> bool {
    f == enemy_at(e, f.particle.position)
}

/// Resolving one rope particle moves centres and nothing else: a pinned
/// particle stays where it is, every enemy keeps its remembered position, its
/// friction, its flag and its radius, and retired enemies are not touched.
pub proof fn lemma_hits_moves_centres_only(p: Vec2, pinned: bool, enemies: Seq<Enemy>, n: nat)
    requires
        n <= enemies.len(),
    ensures
        hits(p, pinned, enemies, n).1.len() == enemies.len(),
        pinned ==> hits(p, pinned, enemies, n).0 == p,
        forall|j: int|
            0 <= j < enemies.len() ==> same_but_position(
                enemies[j],
                #[trigger] hits(p, pinned, enemies, n).1[j],
            ),
        forall|j: int|
            0 <= j < enemies.len() && (!enemies[j].active || j >= n) ==> #[trigger] hits(
                p,
                pinned,
                enemies,
                n,
            ).1[j] == enemies[j],
    decreases n,
{
    if n > 0 {
        lemma_hits_moves_centres_only(p, pinned, enemies, (n - 1) as nat);
        let (q, es) = hits(p, pinned, enemies, (n - 1) as nat);
        assert(es[n - 1] == enemies[n - 1]);
    }
}

/// The collision pass moves centres and nothing else: the chain and the set
/// of enemies keep their lengths, the head stays where it is, every particle
/// and enemy keeps its remembered position and its friction, and retired
/// enemies are not touched.
pub proof fn lemma_rope_hits_moves_centres_only(
    particles: Seq<Particle>,
    enemies: Seq<Enemy>,
    k: nat,
)
    requires
        k <= particles.len(),
    ensures
        rope_hits(particles, enemies, k).0.len() == particles.len(),
        rope_hits(particles, enemies, k).1.len() == enemies.len(),
        particles.len() > 0 ==> rope_hits(particles, enemies, k).0[0] == particles[0],
        forall|i: int|
            0 <= i < particles.len() ==> (#[trigger] rope_hits(particles, enemies, k).0[i])
                == particle_at(particles[i], rope_hits(particles, enemies, k).0[i].position),
        forall|i: int|
            k <= i < particles.len() ==> #[trigger] rope_hits(particles, enemies, k).0[i]
                == particles[i],
        forall|j: int|
            0 <= j < enemies.len() ==> same_but_position(
                enemies[j],
                #[trigger] rope_hits(particles, enemies, k).1[j],
            ),
        forall|j: int|
            0 <= j < enemies.len() && !enemies[j].active ==> #[trigger] rope_hits(
                particles,
                enemies,
                k,
            ).1[j] == enemies[j],
    decreases k,
{
    if k > 0 {
        lemma_rope_hits_moves_centres_only(particles, enemies, (k - 1) as nat);
        let (ps, es) = rope_hits(particles, enemies, (k - 1) as nat);
        lemma_hits_moves_centres_only(ps[k - 1].position, k == 1, es, es.len());
        let (q, es2) = hits(ps[k - 1].position, k == 1, es, es.len());
        assert forall|j: int| 0 <= j < enemies.len() implies same_but_position(
            enemies[j],
            #[trigger] rope_hits(particles, enemies, k).1[j],
        ) by {
            assert(same_but_position(enemies[j], es[j]));
            assert(same_but_position(es[j], es2[j]));
        }
        assert forall|j: int|
            0 <= j < enemies.len() && !enemies[j].active implies #[trigger] rope_hits(
            particles,
            enemies,
            k,
        ).1[j] == enemies[j] by {
            assert(es[j] == enemies[j]);
            assert(es2[j] == es[j]);
        }
    }
}

/// Resolving one row of enemy pairs moves centres and nothing else, and does
/// not touch retired enemies.
pub proof fn lemma_spread_row_moves_centres_only(enemies: Seq<Enemy>, i: nat, m: nat)
    requires
        i < enemies.len(),
        m <= enemies.len(),
    ensures
        spread_row(enemies, i, m).len() == enemies.len(),
        forall|j: int|
            0 <= j < enemies.len() ==> same_but_position(
                enemies[j],
                #[trigger] spread_row(enemies, i, m)[j],
            ),
        forall|j: int|
            0 <= j < enemies.len() && !enemies[j].active ==> #[trigger] spread_row(enemies, i, m)[j]
                == enemies[j],
    decreases m,
{
    if m > i + 1 {
        lemma_spread_row_moves_centres_only(enemies, i, (m - 1) as nat);
        let es = spread_row(enemies, i, (m - 1) as nat);
        assert(same_but_position(enemies[i as int], es[i as int]));
        assert(same_but_position(enemies[m - 1], es[m - 1]));
    }
}

/// Resolving the overlaps between enemies moves centres and nothing else, and
/// does not touch retired enemies.
pub proof fn lemma_spread_moves_centres_only(enemies: Seq<Enemy>, r: nat)
    requires
        r <= enemies.len(),
    ensures
        spread(enemies, r).len() == enemies.len(),
        forall|j: int|
            0 <= j < enemies.len() ==> same_but_position(
                enemies[j],
                #[trigger] spread(enemies, r)[j],
            ),
        forall|j: int|
            0 <= j < enemies.len() && !enemies[j].active ==> #[trigger] spread(enemies, r)[j]
                == enemies[j],
    decreases r,
{
    if r > 0 {
        lemma_spread_moves_centres_only(enemies, (r - 1) as nat);
        let es = spread(enemies, (r - 1) as nat);
        lemma_spread_row_moves_centres_only(es, (r - 1) as nat, es.len());
        let after = spread_row(es, (r - 1) as nat, es.len());
        assert forall|j: int| 0 <= j < enemies.len() implies same_but_position(
            enemies[j],
            #[trigger] spread(enemies, r)[j],
        ) by {
            assert(same_but_position(enemies[j], es[j]));
            assert(same_but_position(es[j], after[j]));
        }
        assert forall|j: int|
            0 <= j < enemies.len() && !enemies[j].active implies #[trigger] spread(
            enemies,
            r,
        )[j] == enemies[j] by {
            assert(es[j] == enemies[j]);
            assert(after[j] == es[j]);
        }
    }
}

/// No more points are collected than there are.
pub proof fn lemma_pickups_bounded(particles: Seq<Particle>, points: Seq<Point>, n: nat)
    ensures
        pickups(particles, points, n) <= n,
    decreases n,
{
    if n > 0 {
        lemma_pickups_bounded(particles, points, (n - 1) as nat);
    }
}

/// Point pickup is exactly once, for one point: a waiting point that the rope
/// reaches counts one towards the score and no longer waits afterwards, so
/// that no rope, wherever it is later, collects it again or changes it.
pub proof fn lemma_pickup_exactly_once(
    particles: Seq<Particle>,
    points: Seq<Point>,
    later: Seq<Particle>,
    i: int,
)
    requires
        0 <= i < points.len(),
        picked(particles, points[i]),
    ensures
        pickups(particles, points, (i + 1) as nat) == pickups(particles, points, i as nat) + 1,
        !collected(particles, points)[i].active,
        !picked(later, collected(particles, points)[i]),
        collected(later, collected(particles, points))[i] == collected(particles, points)[i],
{
}

/// Point pickup is exactly once, for the score: points that do not wait count
/// nothing, whatever the rope reaches.
pub proof fn lemma_retired_points_count_nothing(
    particles: Seq<Particle>,
    points: Seq<Point>,
    n: nat,
)
    requires
        n <= points.len(),
        forall|i: int| 0 <= i < n ==> !(#[trigger] points[i]).active,
    ensures
        pickups(particles, points, n) == 0,
    decreases n,
{
    if n > 0 {
        lemma_retired_points_count_nothing(particles, points, (n - 1) as nat);
    }
}

/// Point pickup is exactly once, for a pass: right after a collision pass a
/// second one with the rope in the same place collects nothing, and leaves
/// the points as they are.
pub proof fn lemma_second_pass_collects_nothing(particles: Seq<Particle>, points: Seq<Point>)
    ensures
        pickups(particles, collected(particles, points), points.len()) == 0,
        collected(particles, collected(particles, points)) == collected(particles, points),
{
    let after = collected(particles, points);
    lemma_nothing_left_to_pick(particles, points, points.len());
    assert(collected(particles, after) =~= after);
}

/// Among the first `n` points as a pass leaves them, the same rope picks none.
proof fn lemma_nothing_left_to_pick(particles: Seq<Particle>, points: Seq<Point>, n: nat)
    requires
        n <= points.len(),
    ensures
        pickups(particles, collected(particles, points), n) == 0,
    decreases n,
{
    if n > 0 {
        lemma_nothing_left_to_pick(particles, points, (n - 1) as nat);
        assert(!picked(particles, collected(particles, points)[n - 1]));
    }
}

/// Whether the centres `a` and `b` are less than `distance` apart.
pub fn is_closer_than(a: Vec2, b: Vec2, distance: i32) -> (closer: bool)
    ensures
        closer == closer_than(a, b, distance as int),
{
    if distance <= 0 {
        proof {
            lemma_dist_sq_nonnegative(a, b);
            lemma_floor_sqrt_exists(a.dist_sq(b));
        }
        false
    } else {
        let square: u128 = a.distance_squared(b);
        let d: u128 = distance as u128;
        proof {
            lemma_floor_sqrt_at_least(distance as int, a.dist_sq(b));
            assert(d * d <= 0x8000_0000 * 0x8000_0000) by (nonlinear_arith)
                requires
                    0 <= d <= 0x8000_0000,
            ;
        }
        square < d * d
    }
}

/// The square of a distance is not negative.
pub proof fn lemma_dist_sq_nonnegative(a: Vec2, b: Vec2)
    ensures
        0 <= a.dist_sq(b),
{
    assert(0 <= a.dist_sq(b)) by (nonlinear_arith)
        requires
            a.dist_sq(b) == (b.x - a.x) * (b.x - a.x) + (b.y - a.y) * (b.y - a.y),
    ;
}

/// Resolves the overlap of two bodies with centres `a` and `b` that ought to
/// be `min_distance` apart, and returns where the centres are afterwards.
pub fn separate(a: Vec2, b: Vec2, min_distance: i32, a_pinned: bool) -> (moved: (Vec2, Vec2))
    ensures
        moved == separated(a, b, min_distance as int, a_pinned),
{
    let (dx, dy): (i64, i64) = a.delta_to(b);
    let len: u64 = a.distance(b);
    if len == 0 || len >= 0x8000_0000 || len as i64 >= min_distance as i64 {
        assert(a.moved(0, 0) == a && b.moved(0, 0) == b);
        (a, b)
    } else {
        let depth: i64 = min_distance as i64 - len as i64;
        proof {
            lemma_dist_sq_nonnegative(a, b);
            lemma_floor_sqrt_exists(a.dist_sq(b));
            lemma_component_within_length(dx as int, dy as int, len as int);
            lemma_scale_within_num(dx as int, depth as int, len as int);
            lemma_scale_within_num(dy as int, depth as int, len as int);
        }
        let px: i64 = scale_i64(dx, depth, len as i64);
        let py: i64 = scale_i64(dy, depth, len as i64);
        if a_pinned {
            (a, b.translate(px, py))
        } else {
            let hx: i64 = px / 2;
            let hy: i64 = py / 2;
            (a.translate(-hx, -hy), b.translate(px - hx, py - hy))
        }
    }
}

/// Resolves a rope particle at `p` against every active enemy in turn, and
/// returns where the particle is afterwards.
fn collide_with_enemies(p: Vec2, pinned: bool, enemies: &mut Vec<Enemy>) -> (q: Vec2)
    ensures
        (q, final(enemies)@) == hits(p, pinned, old(enemies)@, old(enemies)@.len()),
        final(enemies)@.len() == old(enemies)@.len(),
{
    let n: usize = enemies.len();
    let mut q: Vec2 = p;
    let mut j: usize = 0;
    while j < n
        invariant
            j <= n == enemies@.len() == old(enemies)@.len(),
            (q, enemies@) == hits(p, pinned, old(enemies)@, j as nat),
        decreases n - j,
    {
        let mut e: Enemy = enemies[j];
        if e.active {
            let (a, b): (Vec2, Vec2) = separate(q, e.particle.position, CONTACT_DISTANCE, pinned);
            q = a;
            e.particle.position = b;
            enemies.set(j, e);
        }
        j += 1;
    }
    q
}

/// Whether an active enemy touches the head of the rope.
fn head_is_caught(rope: &Rope, enemies: &Vec<Enemy>) -> (hit: bool)
    ensures
        hit == caught(rope.particles@, enemies@),
{
    if rope.particles.len() == 0 {
        return false;
    }
    let head: Vec2 = rope.particles[0].position;
    let n: usize = enemies.len();
    let mut j: usize = 0;
    while j < n
        invariant
            j <= n == enemies@.len(),
            rope.particles@.len() > 0,
            head == rope.particles@[0].position,
            forall|i: int|
                0 <= i < j ==> !((#[trigger] enemies@[i]).active && closer_than(
                    head,
                    enemies@[i].particle.position,
                    CONTACT_DISTANCE as int,
                )),
        decreases n - j,
    {
        let e: Enemy = enemies[j];
        if e.active && is_closer_than(head, e.particle.position, CONTACT_DISTANCE) {
            return true;
        }
        j += 1;
    }
    false
}

/// Whether some particle of the rope is within pickup distance of `place`.
fn rope_reaches(rope: &Rope, place: Vec2) -> (reached: bool)
    ensures
        reached == within_reach(rope.particles@, place),
{
    let n: usize = rope.particles.len();
    let mut k: usize = 0;
    while k < n
        invariant
            k <= n == rope.particles@.len(),
            forall|i: int|
                0 <= i < k ==> !closer_than(
                    (#[trigger] rope.particles@[i]).position,
                    place,
                    PICKUP_DISTANCE as int,
                ),
        decreases n - k,
    {
        if is_closer_than(rope.particles[k].position, place, PICKUP_DISTANCE) {
            return true;
        }
        k += 1;
    }
    false
}

/// The collision pass of one substep.
///
/// Every rope particle, head first, is resolved against every active enemy;
/// the head is pinned, so an enemy that overlaps it takes the whole push.
/// Then every waiting point that some rope particle reaches is collected and
/// raises the score by one. The game is over once an active enemy touches
/// the head.
pub fn check_collisions(
    rope: &mut Rope,
    enemies: &mut Vec<Enemy>,
    points: &mut Vec<Point>,
    score: &mut u64,
    game_over: &mut bool,
)
    ensures
        (final(rope).particles@, final(enemies)@) == rope_hits(
            old(rope).particles@,
            old(enemies)@,
            old(rope).particles@.len(),
        ),
        final(rope).thickness == old(rope).thickness,
        final(rope).ball_radius == old(rope).ball_radius,
        final(points)@ == collected(final(rope).particles@, old(points)@),
        *final(score) == raised(
            *old(score),
            pickups(final(rope).particles@, old(points)@, old(points)@.len()),
        ),
        *final(game_over) == (*old(game_over) || caught(old(rope).particles@, old(enemies)@)),
        final(rope).particles@.len() == old(rope).particles@.len(),
        final(enemies)@.len() == old(enemies)@.len(),
        final(points)@.len() == old(points)@.len(),
        old(rope).particles@.len() > 0 ==> final(rope).particles@[0] == old(rope).particles@[0],
        *old(score) <= *final(score) <= *old(score) + old(points)@.len(),
{
    proof {
        lemma_rope_hits_moves_centres_only(
            old(rope).particles@,
            old(enemies)@,
            old(rope).particles@.len(),
        );
    }
    if head_is_caught(rope, enemies) {
        *game_over = true;
    }
    let n: usize = rope.particles.len();
    let mut k: usize = 0;
    while k < n
        invariant
            k <= n == rope.particles@.len() == old(rope).particles@.len(),
            (rope.particles@, enemies@) == rope_hits(
                old(rope).particles@,
                old(enemies)@,
                k as nat,
            ),
            rope.thickness == old(rope).thickness,
            rope.ball_radius == old(rope).ball_radius,
        decreases n - k,
    {
        let mut p: Particle = rope.particles[k];
        let q: Vec2 = collide_with_enemies(p.position, k == 0, enemies);
        p.position = q;
        rope.particles.set(k, p);
        k += 1;
    }
    let m: usize = points.len();
    let mut i: usize = 0;
    while i < m
        invariant
            i <= m == points@.len() == old(points)@.len(),
            forall|t: int|
                0 <= t < i ==> points@[t] == collected(rope.particles@, old(points)@)[t],
            forall|t: int| i <= t < m ==> points@[t] == old(points)@[t],
            *score == raised(*old(score), pickups(rope.particles@, old(points)@, i as nat)),
        decreases m - i,
    {
        let mut point: Point = points[i];
        if point.active && rope_reaches(rope, point.position) {
            point.active = false;
            points.set(i, point);
            if *score < u64::MAX {
                *score = *score + 1;
            }
        }
        i += 1;
    }
    assert(points@ =~= collected(rope.particles@, old(points)@));
    proof {
        lemma_pickups_bounded(rope.particles@, old(points)@, m as nat);
    }
}

/// Resolves the overlaps between active enemies, pair by pair: each enemy in
/// turn against all that follow it, both retreating by half the overlap.
pub fn check_enemy_collisions(enemies: &mut Vec<Enemy>)
    ensures
        final(enemies)@ == spread(old(enemies)@, old(enemies)@.len()),
        final(enemies)@.len() == old(enemies)@.len(),
        forall|j: int|
            0 <= j < old(enemies)@.len() ==> same_but_position(
                old(enemies)@[j],
                #[trigger] final(enemies)@[j],
            ),
{
    proof {
        lemma_spread_moves_centres_only(old(enemies)@, old(enemies)@.len());
    }
    let n: usize = enemies.len();
    let mut i: usize = 0;
    while i < n
        invariant
            i <= n == enemies@.len() == old(enemies)@.len(),
            enemies@ == spread(old(enemies)@, i as nat),
        decreases n - i,
    {
        let ghost row = enemies@;
        let mut j: usize = i + 1;
        while j < n
            invariant
                i < j <= n == enemies@.len() == row.len(),
                enemies@ == spread_row(row, i as nat, j as nat),
            decreases n - j,
        {
            let mut first: Enemy = enemies[i];
            let mut second: Enemy = enemies[j];
            if first.active && second.active {
                let (a, b): (Vec2, Vec2) = separate(
                    first.particle.position,
                    second.particle.position,
                    2 * ENEMY_RADIUS,
                    false,
                );
                first.particle.position = a;
                second.particle.position = b;
                enemies.set(i, first);
                enemies.set(j, second);
            }
            j += 1;
        }
        i += 1;
    }
}

} // verus!
