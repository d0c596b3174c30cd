use rope_sim::params::{NUM_PARTICLES, ROPE_BALL_RADIUS, ROPE_THICKNESS, SEGMENT_LENGTH};
use rope_sim::{Particle, Rope, Vec2};

fn chain(places: &[(i32, i32)]) -> Rope {
    Rope {
        particles: places.iter().map(|&(x, y)| Particle::new(Vec2::new(x, y))).collect(),
        thickness: ROPE_THICKNESS,
        ball_radius: ROPE_BALL_RADIUS,
    }
}

fn places(rope: &Rope) -> Vec<(i32, i32)> {
    rope.particles.iter().map(|p| (p.position.x, p.position.y)).collect()
}

fn remembered(rope: &Rope) -> Vec<(i32, i32)> {
    rope.particles.iter().map(|p| (p.old_position.x, p.old_position.y)).collect()
}

fn length_error(rope: &Rope) -> i64 {
    let d = rope.particles[0].position.distance(rope.particles[1].position) as i64;
    (d - SEGMENT_LENGTH as i64).abs()
}

#[test]
fn new_rope_is_laid_out_to_the_right_of_its_start() {
    let rope = Rope::new(Vec2::new(0, 100_000));
    assert_eq!(rope.particles.len(), NUM_PARTICLES);
    assert_eq!(rope.thickness, 2_000);
    assert_eq!(rope.ball_radius, 7_000);
    for (i, p) in rope.particles.iter().enumerate() {
        assert_eq!(p.position, Vec2::new(i as i32 * 10_000, 100_000));
        assert_eq!(p.old_position, p.position);
        assert_eq!(p.friction, 980);
    }
}

#[test]
fn new_rope_near_the_edge_of_the_range_is_cut_short() {
    let rope = Rope::new(Vec2::new(i32::MAX - 25_000, 0));
    assert_eq!(rope.particles[2].position, Vec2::new(i32::MAX - 5_000, 0));
    assert_eq!(rope.particles[3].position, Vec2::new(i32::MAX, 0));
    assert_eq!(rope.particles[9].position, Vec2::new(i32::MAX, 0));
}

#[test]
fn relax_pulls_a_stretched_segment_in() {
    let mut rope = chain(&[(0, 0), (20_000, 0)]);
    let mut seen = Vec::new();
    for _ in 0..8 {
        rope.relax();
        seen.push(rope.particles[1].position.x);
    }
    assert_eq!(seen, vec![19_000, 18_100, 17_290, 16_561, 15_905, 15_315, 14_784, 14_306]);
    assert_eq!(rope.particles[0].position, Vec2::new(0, 0));
}

#[test]
fn relax_pushes_a_compressed_segment_out() {
    let mut rope = chain(&[(0, 0), (5_000, 0)]);
    let mut seen = Vec::new();
    for _ in 0..8 {
        rope.relax();
        seen.push(rope.particles[1].position.x);
    }
    assert_eq!(seen, vec![5_500, 5_950, 6_355, 6_719, 7_047, 7_342, 7_607, 7_846]);
}

#[test]
fn relax_corrects_along_the_segment() {
    let mut rope = chain(&[(0, 0), (3_000, 4_000)]);
    rope.relax();
    assert_eq!(places(&rope), vec![(0, 0), (3_300, 4_400)]);
    assert_eq!(remembered(&rope), vec![(0, 0), (3_000, 4_000)]);
}

#[test]
fn relax_moves_both_ends_of_a_segment_behind_the_head() {
    let mut rope = chain(&[(0, 0), (10_000, 0), (30_000, 0)]);
    rope.relax();
    assert_eq!(places(&rope), vec![(0, 0), (11_000, 0), (29_000, 0)]);
}

#[test]
fn relax_leaves_a_segment_at_rest_length_alone() {
    let mut rope = chain(&[(0, 0), (6_000, 8_000)]);
    rope.relax();
    assert_eq!(places(&rope), vec![(0, 0), (6_000, 8_000)]);
}

#[test]
fn relax_leaves_coinciding_particles_alone() {
    let mut rope = chain(&[(7, 7), (7, 7), (7, 7)]);
    rope.relax();
    assert_eq!(places(&rope), vec![(7, 7), (7, 7), (7, 7)]);
}

#[test]
fn relax_of_short_chains_does_nothing() {
    let mut none = chain(&[]);
    none.relax();
    assert_eq!(none.particles.len(), 0);
    let mut one = chain(&[(1, 2)]);
    one.relax();
    assert_eq!(places(&one), vec![(1, 2)]);
}

#[test]
fn length_error_never_grows_from_sweep_to_sweep() {
    for start in [(100_000, 0), (-7_000, 33_000), (1, 1), (9_999, 0), (10_001, 0), (0, -10_000)] {
        let mut rope = chain(&[(1_000, 2_000), (1_000 + start.0, 2_000 + start.1)]);
        let mut error = length_error(&rope);
        for _ in 0..200 {
            rope.relax();
            let next = length_error(&rope);
            assert!(next <= error);
            assert!(10 * next < 9 * error + 40);
            error = next;
            assert_eq!(rope.particles[0].position, Vec2::new(1_000, 2_000));
        }
        assert!(error < 30);
    }
}

#[test]
fn length_error_shrinks_by_a_tenth_per_sweep() {
    let mut rope = chain(&[(0, 0), (100_000, 0)]);
    let mut errors = Vec::new();
    for _ in 0..8 {
        rope.relax();
        errors.push(length_error(&rope));
    }
    assert_eq!(errors, vec![81_000, 72_900, 65_610, 59_049, 53_145, 47_831, 43_048, 38_744]);
}

#[test]
fn length_error_of_a_slanted_segment_shrinks() {
    let mut rope = chain(&[(1_000, 2_000), (-7_000, 33_000)]);
    assert_eq!(length_error(&rope), 22_015);
    let mut errors = Vec::new();
    for _ in 0..4 {
        rope.relax();
        errors.push(length_error(&rope));
    }
    assert_eq!(errors, vec![19_814, 17_833, 16_051, 14_446]);
}

#[test]
fn update_pins_the_head_to_the_target() {
    for target in [(0, 0), (5_000, 100_000), (-123_456, 654_321), (i32::MAX, i32::MIN)] {
        let mut rope = Rope::new(Vec2::new(0, 100_000));
        rope.update(Vec2::new(target.0, target.1));
        assert_eq!(rope.particles[0].position, Vec2::new(target.0, target.1));
        assert_eq!(rope.particles[0].old_position, Vec2::new(0, 100_000));
        assert_eq!(rope.particles.len(), NUM_PARTICLES);
        rope.update(Vec2::new(target.1, target.0));
        assert_eq!(rope.particles[0].position, Vec2::new(target.1, target.0));
    }
}

#[test]
fn update_relaxes_eight_times_then_integrates() {
    let mut rope = chain(&[(0, 0), (20_000, 0)]);
    rope.update(Vec2::new(0, 0));
    assert_eq!(places(&rope), vec![(0, 0), (8_726, 0)]);
    assert_eq!(remembered(&rope), vec![(0, 0), (14_306, 0)]);
}

#[test]
fn update_drags_the_chain_behind_the_head() {
    let mut rope = Rope::new(Vec2::new(0, 100_000));
    rope.update(Vec2::new(5_000, 100_000));
    let xs: Vec<i32> = rope.particles.iter().map(|p| p.position.x).collect();
    assert_eq!(
        xs,
        vec![5_000, 14_142, 21_431, 30_411, 40_102, 50_019, 60_001, 70_000, 80_000, 90_000]
    );
    let old: Vec<i32> = rope.particles.iter().map(|p| p.old_position.x).collect();
    assert_eq!(
        old,
        vec![0, 12_092, 20_723, 30_208, 40_052, 50_010, 60_001, 70_000, 80_000, 90_000]
    );
    assert!(rope.particles.iter().all(|p| p.position.y == 100_000));
}

#[test]
fn update_of_a_slanted_chain() {
    let mut rope = chain(&[(12_345, -6_789), (20_000, 1_000), (25_000, 9_000)]);
    rope.update(Vec2::new(-1_000, 2_000));
    assert_eq!(places(&rope), vec![(-1_000, 2_000), (8_936, 2_789), (23_323, 7_682)]);
    assert_eq!(remembered(&rope), vec![(12_345, -6_789), (14_412, 1_904), (24_153, 8_334)]);
}

#[test]
fn update_of_an_empty_rope_does_nothing() {
    let mut rope = chain(&[]);
    rope.update(Vec2::new(1, 1));
    assert_eq!(rope.particles.len(), 0);
}
