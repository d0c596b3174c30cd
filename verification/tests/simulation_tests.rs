use rope_sim::params::{MAX_POINTS, NUM_PARTICLES};
use rope_sim::simulation::{
    advance_enemies, is_due, retain_active_enemies, retain_active_points, smoothed_target,
};
use rope_sim::{Arena, Enemy, Point, Simulation, Vec2};

fn v(x: i32, y: i32) -> Vec2 {
    Vec2::new(x, y)
}

fn arena() -> Arena {
    Arena { left: -400_000, top: -300_000, right: 400_000, bottom: 300_000 }
}

fn rope_places(sim: &Simulation) -> Vec<(i32, i32)> {
    sim.rope.particles.iter().map(|p| (p.position.x, p.position.y)).collect()
}

fn rope_memory(sim: &Simulation) -> Vec<(i32, i32)> {
    sim.rope.particles.iter().map(|p| (p.old_position.x, p.old_position.y)).collect()
}

fn straight(y: i32) -> Vec<(i32, i32)> {
    (0..10).map(|i| (i * 10_000, y)).collect()
}

#[test]
fn new_simulation_holds_a_fresh_rope_and_nothing_else() {
    let sim = Simulation::new(v(0, 100_000), 42);
    assert_eq!(sim.rope.particles.len(), NUM_PARTICLES);
    assert_eq!(rope_places(&sim), straight(100_000));
    assert_eq!(rope_memory(&sim), straight(100_000));
    assert!(sim.enemies.is_empty());
    assert!(sim.points.is_empty());
    assert_eq!(sim.score, 0);
    assert!(!sim.game_over);
    assert_eq!(sim.last_enemy_spawn, 42);
    assert_eq!(sim.last_point_spawn, 42);
    assert_eq!(sim.head(v(1, 1)), v(0, 100_000));
}

#[test]
fn head_of_an_empty_rope_is_the_fallback() {
    let mut sim = Simulation::new(v(0, 0), 0);
    sim.rope.particles.clear();
    assert_eq!(sim.head(v(3, 4)), v(3, 4));
}

#[test]
fn target_is_half_way_to_the_cursor() {
    assert_eq!(smoothed_target(v(0, 100_000), v(300_001, -1)), v(150_000, 50_000));
    assert_eq!(smoothed_target(v(10, 10), v(7, 13)), v(9, 11));
    assert_eq!(smoothed_target(v(0, 0), v(1, 1)), v(0, 0));
    assert_eq!(smoothed_target(v(0, 0), v(-3, 3)), v(-1, 1));
    assert_eq!(smoothed_target(v(5, 5), v(5, 5)), v(5, 5));
    assert_eq!(smoothed_target(v(i32::MIN, 0), v(i32::MAX, 0)), v(-1, 0));
}

#[test]
fn spawn_is_due_once_the_interval_has_passed() {
    assert!(!is_due(1_999, 0, 2_000));
    assert!(is_due(2_000, 0, 2_000));
    assert!(is_due(2_001, 0, 2_000));
    assert!(is_due(5, 5, 0));
    assert!(!is_due(4, 5, 0));
    assert!(is_due(u64::MAX, 0, u64::MAX));
    assert!(!is_due(u64::MAX - 1, 0, u64::MAX));
}

#[test]
fn enemy_is_admitted_every_two_time_units() {
    let mut sim = Simulation::new(v(0, 0), 1_000);
    sim.admit_enemy(2_999, Some(Enemy::at(v(1, 1))));
    assert!(sim.enemies.is_empty());
    assert_eq!(sim.last_enemy_spawn, 1_000);
    sim.admit_enemy(3_000, None);
    assert!(sim.enemies.is_empty());
    assert_eq!(sim.last_enemy_spawn, 1_000);
    sim.admit_enemy(3_000, Some(Enemy::at(v(1, 1))));
    assert_eq!(sim.enemies, vec![Enemy::at(v(1, 1))]);
    assert_eq!(sim.last_enemy_spawn, 3_000);
    sim.admit_enemy(4_999, Some(Enemy::at(v(2, 2))));
    assert_eq!(sim.enemies.len(), 1);
    sim.admit_enemy(5_000, Some(Enemy::at(v(2, 2))));
    assert_eq!(sim.enemies, vec![Enemy::at(v(1, 1)), Enemy::at(v(2, 2))]);
    assert_eq!(sim.last_point_spawn, 1_000);
}

#[test]
fn points_are_admitted_every_time_unit_up_to_the_cap() {
    let mut sim = Simulation::new(v(0, 0), 0);
    sim.admit_point(999, Some(Point::at(v(0, 0))));
    assert!(sim.points.is_empty());
    for i in 1..=30u64 {
        sim.admit_point(i * 1_000, Some(Point::at(v(i as i32, 0))));
    }
    assert_eq!(sim.points.len(), MAX_POINTS);
    assert_eq!(sim.points[19], Point::at(v(20, 0)));
    assert_eq!(sim.last_point_spawn, 20_000);
    assert_eq!(sim.last_enemy_spawn, 0);
}

#[test]
fn compaction_keeps_the_active_in_their_order() {
    let mut enemies: Vec<Enemy> = (0..6).map(|i| Enemy::at(v(i, 0))).collect();
    enemies[0].active = false;
    enemies[3].active = false;
    enemies[5].active = false;
    retain_active_enemies(&mut enemies);
    assert_eq!(enemies, vec![Enemy::at(v(1, 0)), Enemy::at(v(2, 0)), Enemy::at(v(4, 0))]);
    let mut points: Vec<Point> = (0..4).map(|i| Point::at(v(i, 0))).collect();
    points[1].active = false;
    retain_active_points(&mut points);
    assert_eq!(points, vec![Point::at(v(0, 0)), Point::at(v(2, 0)), Point::at(v(3, 0))]);
    let mut none: Vec<Enemy> = Vec::new();
    retain_active_enemies(&mut none);
    assert!(none.is_empty());
}

#[test]
fn every_enemy_gets_its_tick() {
    let a = arena();
    let mut enemies = vec![Enemy::at(v(-400_000, 100_000)), Enemy::at(v(399_950, 0))];
    advance_enemies(&mut enemies, v(500_000, 0), &a);
    let mut first = Enemy::at(v(-400_000, 100_000));
    first.update(v(500_000, 0), &a);
    let mut second = Enemy::at(v(399_950, 0));
    second.update(v(500_000, 0), &a);
    assert_eq!(enemies, vec![first, second]);
    assert!(enemies[0].active);
    assert!(!enemies[1].active);
}

#[test]
fn enemy_that_left_the_arena_is_gone_after_the_frame() {
    let a = arena();
    let mut sim = Simulation::new(v(0, 0), 0);
    sim.enemies =
        vec![Enemy::at(v(399_990, 0)), Enemy::at(v(0, -299_990)), Enemy::at(v(0, 200_000))];
    sim.enemies[0].particle.old_position = v(399_000, 0);
    sim.enemies[1].particle.old_position = v(0, -299_000);
    let over = sim.frame_with(v(0, 0), &a, 16, None, None);
    assert!(!over);
    assert_eq!(sim.enemies.len(), 1);
    assert!(sim.enemies[0].active);
    assert_eq!(sim.enemies[0].particle.old_position, v(0, 199_888));
    assert_eq!(sim.enemies[0].particle.position, v(0, 199_779));
}

#[test]
fn one_substep_updates_rope_then_collisions() {
    let mut sim = Simulation::new(v(0, 0), 0);
    sim.enemies = vec![
        Enemy::at(v(45_000, 12_000)),
        Enemy::at(v(45_000, -11_000)),
        Enemy::at(v(5_000, 16_000)),
    ];
    sim.points = vec![Point::at(v(20_000, 14_999)), Point::at(v(20_000, 15_000))];
    sim.substep(v(0, 0));
    assert_eq!(
        rope_places(&sim),
        vec![
            (0, 0),
            (10_006, -20),
            (20_000, 0),
            (30_000, 0),
            (37_584, 768),
            (50_948, 732),
            (60_000, 0),
            (70_000, 0),
            (80_000, 0),
            (90_000, 0)
        ]
    );
    assert_eq!(rope_memory(&sim), straight(0));
    let at: Vec<(i32, i32)> =
        sim.enemies.iter().map(|e| (e.particle.position.x, e.particle.position.y)).collect();
    assert_eq!(at, vec![(45_400, 15_052), (46_067, -15_552), (5_064, 16_246)]);
    assert!(!sim.points[0].active);
    assert!(sim.points[1].active);
    assert_eq!(sim.score, 1);
    assert!(sim.game_over);
}

#[test]
fn frame_follows_the_cursor() {
    let a = arena();
    let mut sim = Simulation::new(v(0, 100_000), 0);
    assert!(!sim.frame_with(v(40_000, 130_000), &a, 16, None, None));
    assert_eq!(
        rope_places(&sim),
        vec![
            (20_000, 115_000),
            (12_227, 107_963),
            (20_279, 101_775),
            (30_153, 100_020),
            (40_206, 100_000),
            (50_261, 100_000),
            (60_251, 100_000),
            (70_200, 100_000),
            (80_143, 100_000),
            (90_104, 100_000)
        ]
    );
    assert_eq!(
        rope_memory(&sim),
        vec![
            (0, 100_000),
            (13_113, 108_293),
            (20_256, 101_322),
            (30_202, 100_015),
            (40_239, 100_000),
            (50_244, 100_000),
            (60_202, 100_000),
            (70_143, 100_000),
            (80_093, 100_000),
            (90_062, 100_000)
        ]
    );
    assert!(!sim.frame_with(v(40_000, 130_000), &a, 32, None, None));
    assert_eq!(
        rope_places(&sim),
        vec![
            (30_000, 122_500),
            (35_919, 111_763),
            (24_173, 110_947),
            (29_366, 102_166),
            (39_373, 100_101),
            (49_630, 100_000),
            (59_884, 100_000),
            (70_089, 100_000),
            (80_233, 100_000),
            (90_298, 100_000)
        ]
    );
}

#[test]
fn frame_pushes_enemies_off_the_rope() {
    let a = arena();
    let mut sim = Simulation::new(v(0, 0), 0);
    sim.enemies =
        vec![Enemy::at(v(45_000, 12_000)), Enemy::at(v(45_000, -11_000)), Enemy::at(v(399_990, 0))];
    assert!(!sim.frame_with(v(0, 0), &a, 16, None, None));
    assert_eq!(
        rope_places(&sim),
        vec![
            (0, 0),
            (9_555, 0),
            (19_342, 0),
            (29_287, -361),
            (39_249, 441),
            (49_253, 631),
            (59_303, 79),
            (69_461, 0),
            (79_633, 0),
            (89_742, 0)
        ]
    );
    let at: Vec<(i32, i32)> =
        sim.enemies.iter().map(|e| (e.particle.position.x, e.particle.position.y)).collect();
    assert_eq!(at, vec![(45_873, 22_212), (46_690, -20_919), (399_769, 0)]);
    let was: Vec<(i32, i32)> = sim
        .enemies
        .iter()
        .map(|e| (e.particle.old_position.x, e.particle.old_position.y))
        .collect();
    assert_eq!(was, vec![(45_441, 17_158), (45_854, -16_010), (399_878, 0)]);
}

#[test]
fn point_in_reach_is_collected_once_and_dropped() {
    let a = arena();
    let cursor = v(0, 100_000);
    let mut sim = Simulation::new(v(0, 100_000), 0);
    assert!(!sim.frame_with(cursor, &a, 1_000, None, Some(Point::at(v(30_000, 114_000)))));
    assert_eq!(sim.points, vec![Point::at(v(30_000, 114_000))]);
    assert_eq!(sim.score, 0);
    assert_eq!(sim.last_point_spawn, 1_000);
    assert!(!sim.frame_with(cursor, &a, 1_500, None, Some(Point::at(v(1, 1)))));
    assert!(sim.points.is_empty());
    assert_eq!(sim.score, 1);
    assert_eq!(sim.last_point_spawn, 1_000);
    assert!(!sim.frame_with(cursor, &a, 2_000, None, Some(Point::at(v(30_000, 115_000)))));
    assert_eq!(sim.points, vec![Point::at(v(30_000, 115_000))]);
    assert_eq!(sim.score, 1);
    assert_eq!(sim.last_point_spawn, 2_000);
    assert!(!sim.frame_with(cursor, &a, 2_500, None, None));
    assert_eq!(sim.points, vec![Point::at(v(30_000, 115_000))]);
    assert_eq!(sim.score, 1);
    assert_eq!(rope_places(&sim), straight(100_000));
}

#[test]
fn enemy_from_the_left_edge_reaches_the_pinned_head() {
    let a = arena();
    let cursor = v(0, 100_000);
    let spawn = Enemy::at(v(-400_000, 100_000));
    let mut sim = Simulation::new(v(0, 100_000), 0);
    assert!(!sim.frame_with(cursor, &a, 1_999, Some(spawn), None));
    assert!(sim.enemies.is_empty());
    assert!(!sim.frame_with(cursor, &a, 2_000, Some(spawn), None));
    assert_eq!(sim.enemies.len(), 1);
    assert_eq!(sim.last_enemy_spawn, 2_000);
    assert_eq!(sim.enemies[0].particle.position, v(-399_779, 100_000));
    assert_eq!(sim.enemies[0].particle.old_position, v(-399_888, 100_000));
    let mut xs = Vec::new();
    let mut frames = 0;
    let mut over = false;
    while !over {
        frames += 1;
        assert!(frames < 1_000);
        over = sim.frame_with(cursor, &a, 2_000 + 16 * frames, None, None);
        assert_eq!(sim.rope.particles[0].position, v(0, 100_000));
        assert_eq!(sim.enemies.len(), 1);
        assert_eq!(sim.enemies[0].particle.position.y, 100_000);
        if frames <= 5 {
            xs.push(sim.enemies[0].particle.position.x);
        }
    }
    assert_eq!(xs, vec![-399_451, -399_018, -398_482, -397_845, -397_109]);
    assert_eq!(frames, 112);
    assert!(sim.game_over);
    assert_eq!(sim.enemies[0].particle.position, v(-13_594, 100_000));
    assert_eq!(sim.enemies[0].particle.old_position, v(-16_888, 100_000));
    assert_eq!(rope_places(&sim), straight(100_000));
    assert_eq!(sim.score, 0);
}

#[test]
fn frames_with_random_spawns_keep_the_population_in_order() {
    let a = arena();
    let mut sim = Simulation::new(v(0, 0), 0);
    let mut spawned_enemy = false;
    let mut spawned_point = false;
    let mut score = 0;
    for frame in 1..=600u64 {
        let cursor = v(((frame % 200) as i32 - 100) * 3_000, ((frame % 90) as i32 - 45) * 5_000);
        let target = smoothed_target(sim.head(cursor), cursor);
        let enemies_before = sim.enemies.len();
        let points_before = sim.points.len();
        let over = sim.frame(cursor, &a, frame * 16);
        assert_eq!(over, sim.game_over);
        assert_eq!(sim.rope.particles.len(), NUM_PARTICLES);
        assert_eq!(sim.rope.particles[0].position, target);
        assert!(sim.enemies.len() <= enemies_before + 1);
        assert!(sim.points.len() <= points_before + 1);
        assert!(sim.points.len() <= MAX_POINTS);
        spawned_enemy = spawned_enemy || sim.enemies.len() > enemies_before;
        spawned_point = spawned_point || sim.points.len() > points_before;
        for e in sim.enemies.iter() {
            assert!(e.active);
            assert!(a.holds(e.particle.position));
        }
        for p in sim.points.iter() {
            assert!(p.active);
            assert!(a.holds(p.position));
        }
        assert!(sim.score >= score);
        score = sim.score;
    }
    assert!(spawned_enemy);
    assert!(spawned_point);
}
