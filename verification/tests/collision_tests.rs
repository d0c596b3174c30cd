use rope_sim::collision::{is_closer_than, separate};
use rope_sim::params::{
    CONTACT_DISTANCE, ENEMY_RADIUS, PICKUP_DISTANCE, POINT_RADIUS, ROPE_BALL_RADIUS,
    ROPE_THICKNESS,
};
use rope_sim::{check_collisions, check_enemy_collisions, Enemy, Particle, Point, Rope, Vec2};

fn v(x: i32, y: i32) -> Vec2 {
    Vec2::new(x, y)
}

fn chain(places: &[(i32, i32)]) -> Rope {
    Rope {
        particles: places.iter().map(|&(x, y)| Particle::new(v(x, y))).collect(),
        thickness: ROPE_THICKNESS,
        ball_radius: ROPE_BALL_RADIUS,
    }
}

fn places(rope: &Rope) -> Vec<(i32, i32)> {
    rope.particles.iter().map(|p| (p.position.x, p.position.y)).collect()
}

fn enemy_places(enemies: &[Enemy]) -> Vec<(i32, i32)> {
    enemies.iter().map(|e| (e.particle.position.x, e.particle.position.y)).collect()
}

fn enemies_at(at: &[(i32, i32)]) -> Vec<Enemy> {
    at.iter().map(|&(x, y)| Enemy::at(v(x, y))).collect()
}

fn points_at(at: &[(i32, i32)]) -> Vec<Point> {
    at.iter().map(|&(x, y)| Point::at(v(x, y))).collect()
}

#[test]
fn distances_are_sums_of_radii() {
    assert_eq!(CONTACT_DISTANCE, ROPE_BALL_RADIUS + ENEMY_RADIUS);
    assert_eq!(CONTACT_DISTANCE, 17_000);
    assert_eq!(PICKUP_DISTANCE, POINT_RADIUS + ENEMY_RADIUS);
    assert_eq!(PICKUP_DISTANCE, 15_000);
}

#[test]
fn closer_than_is_strict() {
    assert!(is_closer_than(v(0, 0), v(16_999, 0), 17_000));
    assert!(!is_closer_than(v(0, 0), v(17_000, 0), 17_000));
    assert!(is_closer_than(v(0, 0), v(3_000, 4_000), 5_001));
    assert!(!is_closer_than(v(0, 0), v(3_000, 4_000), 5_000));
    assert!(is_closer_than(v(5, 5), v(5, 5), 1));
}

#[test]
fn closer_than_goes_by_the_rounded_down_distance() {
    assert!(is_closer_than(v(0, 0), v(1, 1), 2));
    assert!(!is_closer_than(v(0, 0), v(1, 1), 1));
}

#[test]
fn nothing_is_closer_than_no_distance() {
    assert!(!is_closer_than(v(5, 5), v(5, 5), 0));
    assert!(!is_closer_than(v(5, 5), v(5, 5), -1));
    assert!(!is_closer_than(v(5, 5), v(5, 5), i32::MIN));
}

#[test]
fn closer_than_across_the_whole_range() {
    assert!(!is_closer_than(v(i32::MIN, i32::MIN), v(i32::MAX, i32::MAX), i32::MAX));
    assert!(is_closer_than(v(0, 0), v(i32::MAX - 1, 0), i32::MAX));
}

#[test]
fn overlap_on_an_axis_is_resolved_exactly() {
    let (a, b) = separate(v(0, 0), v(10_000, 0), 17_000, false);
    assert_eq!((a, b), (v(-3_500, 0), v(13_500, 0)));
    assert_eq!(a.distance(b), 17_000);
    let (c, d) = separate(v(0, 0), v(0, -10_000), 17_000, false);
    assert_eq!((c, d), (v(0, 3_500), v(0, -13_500)));
}

#[test]
fn pinned_body_stays_and_the_other_takes_the_whole_push() {
    let (a, b) = separate(v(0, 0), v(10_000, 0), 17_000, true);
    assert_eq!((a, b), (v(0, 0), v(17_000, 0)));
    let (c, d) = separate(v(0, 0), v(3_000, 4_000), 17_000, true);
    assert_eq!((c, d), (v(0, 0), v(10_200, 13_600)));
    assert_eq!(c.distance(d), 17_000);
}

#[test]
fn overlap_off_the_axes_is_resolved_along_the_line_of_centres() {
    let (a, b) = separate(v(0, 0), v(3_000, 4_000), 17_000, false);
    assert_eq!((a, b), (v(-3_600, -4_800), v(6_600, 8_800)));
    assert_eq!(a.distance(b), 17_000);
    let (c, d) = separate(v(1_000, 1_000), v(-2_000, -3_000), 20_000, false);
    assert_eq!((c, d), (v(5_500, 7_000), v(-6_500, -9_000)));
    assert_eq!(c.distance(d), 20_000);
}

#[test]
fn odd_push_gives_the_larger_half_to_the_second_body() {
    let (a, b) = separate(v(0, 0), v(-9_999, 0), 17_000, false);
    assert_eq!((a, b), (v(3_500, 0), v(-13_500, 0)));
    assert_eq!(a.distance(b), 17_000);
}

#[test]
fn bodies_that_do_not_overlap_are_left_alone() {
    assert_eq!(separate(v(0, 0), v(17_000, 0), 17_000, false), (v(0, 0), v(17_000, 0)));
    assert_eq!(separate(v(0, 0), v(50_000, 9), 17_000, true), (v(0, 0), v(50_000, 9)));
    assert_eq!(separate(v(0, 0), v(1, 0), 0, false), (v(0, 0), v(1, 0)));
    assert_eq!(separate(v(0, 0), v(1, 0), -5, false), (v(0, 0), v(1, 0)));
}

#[test]
fn coinciding_centres_are_left_alone() {
    assert_eq!(separate(v(5, 5), v(5, 5), 17_000, false), (v(5, 5), v(5, 5)));
    assert_eq!(separate(v(5, 5), v(5, 5), 17_000, true), (v(5, 5), v(5, 5)));
}

#[test]
fn separation_is_within_rounding_of_the_full_distance() {
    for b in [(1, 1), (123, -4_567), (-9_000, 9_000), (16_000, 5_000), (-2, 7)] {
        for pinned in [false, true] {
            let a = v(1_000, -1_000);
            let b = v(1_000 + b.0, -1_000 + b.1);
            let before = a.distance(b);
            let (na, nb) = separate(a, b, 17_000, pinned);
            let after = na.distance(nb);
            assert!(after >= 17_000 - 3);
            assert!(after * before < 17_000 * (before + 1));
            if pinned {
                assert_eq!(na, a);
            }
        }
    }
}

#[test]
fn pass_resolves_enemies_collects_points_and_spots_the_catch() {
    let mut rope = chain(&[(0, 0), (10_000, 0), (20_000, 0)]);
    let mut enemies = enemies_at(&[(20_000, 12_000), (0, 16_000)]);
    let mut points = points_at(&[(10_000, 14_000), (10_000, 15_000), (50_000, 0)]);
    let mut score = 0;
    let mut game_over = false;
    check_collisions(&mut rope, &mut enemies, &mut points, &mut score, &mut game_over);
    assert_eq!(places(&rope), vec![(0, 0), (9_559, -530), (19_922, -2_230)]);
    assert_eq!(enemy_places(&enemies), vec![(20_521, 14_760), (0, 17_000)]);
    let waiting: Vec<bool> = points.iter().map(|p| p.active).collect();
    assert_eq!(waiting, vec![false, true, true]);
    assert_eq!(score, 1);
    assert!(game_over);
    for (p, at) in rope.particles.iter().zip([(0, 0), (10_000, 0), (20_000, 0)]) {
        assert_eq!(p.old_position, v(at.0, at.1));
    }
    for (e, at) in enemies.iter().zip([(20_000, 12_000), (0, 16_000)]) {
        assert_eq!(e.particle.old_position, v(at.0, at.1));
        assert!(e.active);
    }
}

#[test]
fn second_pass_collects_nothing_more() {
    let mut rope = chain(&[(0, 0), (10_000, 0), (20_000, 0)]);
    let mut enemies = enemies_at(&[(20_000, 12_000), (0, 16_000)]);
    let mut points = points_at(&[(10_000, 14_000), (10_000, 15_000), (50_000, 0)]);
    let mut score = 0;
    let mut game_over = false;
    check_collisions(&mut rope, &mut enemies, &mut points, &mut score, &mut game_over);
    let after_first = points.clone();
    check_collisions(&mut rope, &mut enemies, &mut points, &mut score, &mut game_over);
    assert_eq!(points, after_first);
    assert_eq!(score, 1);
    assert_eq!(places(&rope), vec![(0, 0), (9_559, -530), (19_922, -2_230)]);
    assert_eq!(enemy_places(&enemies), vec![(20_521, 14_760), (0, 17_000)]);
}

#[test]
fn point_is_collected_once_however_many_particles_reach_it() {
    let mut rope = chain(&[(0, 0), (1_000, 0), (2_000, 0), (3_000, 0)]);
    let mut enemies = Vec::new();
    let mut points = points_at(&[(1_500, 100)]);
    let mut score = 7;
    let mut game_over = false;
    check_collisions(&mut rope, &mut enemies, &mut points, &mut score, &mut game_over);
    assert_eq!(score, 8);
    assert!(!points[0].active);
    assert_eq!(points[0].position, v(1_500, 100));
    assert_eq!(points[0].radius, POINT_RADIUS);
    for _ in 0..5 {
        check_collisions(&mut rope, &mut enemies, &mut points, &mut score, &mut game_over);
    }
    assert_eq!(score, 8);
    assert!(!game_over);
}

#[test]
fn points_are_collected_within_the_pickup_distance_only() {
    let mut rope = chain(&[(0, 0), (10_000, 0)]);
    let mut enemies = Vec::new();
    let mut points = points_at(&[(24_999, 0), (25_000, 0), (-14_999, 0), (10_000, -14_999)]);
    let mut score = 41;
    let mut game_over = false;
    check_collisions(&mut rope, &mut enemies, &mut points, &mut score, &mut game_over);
    let waiting: Vec<bool> = points.iter().map(|p| p.active).collect();
    assert_eq!(waiting, vec![false, true, false, false]);
    assert_eq!(score, 44);
    assert!(!game_over);
}

#[test]
fn collected_point_is_not_counted_again() {
    let mut rope = chain(&[(0, 0)]);
    let mut enemies = Vec::new();
    let mut points = points_at(&[(0, 1)]);
    points[0].active = false;
    let mut score = 3;
    let mut game_over = false;
    check_collisions(&mut rope, &mut enemies, &mut points, &mut score, &mut game_over);
    assert_eq!(score, 3);
    assert!(!points[0].active);
}

#[test]
fn score_stops_at_its_largest_value() {
    let mut rope = chain(&[(0, 0)]);
    let mut enemies = Vec::new();
    let mut points = points_at(&[(0, 1), (0, 2), (0, 3)]);
    let mut score = u64::MAX - 1;
    let mut game_over = false;
    check_collisions(&mut rope, &mut enemies, &mut points, &mut score, &mut game_over);
    assert_eq!(score, u64::MAX);
    assert!(points.iter().all(|p| !p.active));
}

#[test]
fn enemy_that_touches_the_head_ends_the_game_and_is_pushed_off() {
    let mut rope = chain(&[(0, 0), (10_000, 0)]);
    let mut enemies = enemies_at(&[(0, 16_000)]);
    let mut points = Vec::new();
    let mut score = 0;
    let mut game_over = false;
    check_collisions(&mut rope, &mut enemies, &mut points, &mut score, &mut game_over);
    assert!(game_over);
    assert_eq!(places(&rope), vec![(0, 0), (10_000, 0)]);
    assert_eq!(enemy_places(&enemies), vec![(0, 17_000)]);
}

#[test]
fn enemy_that_touches_the_rope_behind_the_head_is_shared_out() {
    let mut rope = chain(&[(0, 0), (10_000, 0)]);
    let mut enemies = enemies_at(&[(10_000, 16_000)]);
    let mut points = Vec::new();
    let mut score = 0;
    let mut game_over = false;
    check_collisions(&mut rope, &mut enemies, &mut points, &mut score, &mut game_over);
    assert!(!game_over);
    assert_eq!(places(&rope), vec![(0, 0), (10_000, -500)]);
    assert_eq!(enemy_places(&enemies), vec![(10_000, 16_500)]);
}

#[test]
fn game_over_is_never_taken_back() {
    let mut rope = chain(&[(0, 0)]);
    let mut enemies = Vec::new();
    let mut points = Vec::new();
    let mut score = 0;
    let mut game_over = true;
    check_collisions(&mut rope, &mut enemies, &mut points, &mut score, &mut game_over);
    assert!(game_over);
}

#[test]
fn retired_enemy_neither_collides_nor_catches() {
    let mut rope = chain(&[(0, 0), (10_000, 0)]);
    let mut enemies = enemies_at(&[(0, 1_000)]);
    enemies[0].active = false;
    let mut points = Vec::new();
    let mut score = 0;
    let mut game_over = false;
    check_collisions(&mut rope, &mut enemies, &mut points, &mut score, &mut game_over);
    assert!(!game_over);
    assert_eq!(places(&rope), vec![(0, 0), (10_000, 0)]);
    assert_eq!(enemy_places(&enemies), vec![(0, 1_000)]);
}

#[test]
fn pass_over_an_empty_rope_does_nothing() {
    let mut rope = chain(&[]);
    let mut enemies = enemies_at(&[(0, 0)]);
    let mut points = points_at(&[(0, 0)]);
    let mut score = 5;
    let mut game_over = false;
    check_collisions(&mut rope, &mut enemies, &mut points, &mut score, &mut game_over);
    assert_eq!(enemies, enemies_at(&[(0, 0)]));
    assert_eq!(points, points_at(&[(0, 0)]));
    assert_eq!(score, 5);
    assert!(!game_over);
}

#[test]
fn overlapping_enemies_are_pushed_apart() {
    let mut two = enemies_at(&[(0, 0), (12_000, 0)]);
    check_enemy_collisions(&mut two);
    assert_eq!(enemy_places(&two), vec![(-4_000, 0), (16_000, 0)]);
    let mut three = enemies_at(&[(0, 0), (12_000, 0), (12_000, 5_000)]);
    check_enemy_collisions(&mut three);
    assert_eq!(enemy_places(&three), vec![(-5_544, -482), (18_859, -6_386), (10_686, 11_869)]);
    for e in three.iter() {
        assert!(e.active);
        assert_eq!(e.radius, ENEMY_RADIUS);
    }
    assert_eq!(three[0].particle.old_position, v(0, 0));
}

#[test]
fn enemies_that_only_touch_are_left_alone() {
    let mut two = enemies_at(&[(0, 0), (20_000, 0)]);
    check_enemy_collisions(&mut two);
    assert_eq!(enemy_places(&two), vec![(0, 0), (20_000, 0)]);
    let mut none: Vec<Enemy> = Vec::new();
    check_enemy_collisions(&mut none);
    assert!(none.is_empty());
}

#[test]
fn retired_enemies_are_not_pushed() {
    let mut three = enemies_at(&[(0, 0), (12_000, 0), (6_000, 0)]);
    three[1].active = false;
    check_enemy_collisions(&mut three);
    assert_eq!(enemy_places(&three), vec![(-7_000, 0), (12_000, 0), (13_000, 0)]);
}
