use rope_sim::params::FRICTION;
use rope_sim::{Particle, Vec2};

fn moving(position: (i32, i32), old: (i32, i32)) -> Particle {
    Particle {
        position: Vec2::new(position.0, position.1),
        old_position: Vec2::new(old.0, old.1),
        friction: FRICTION,
    }
}

#[test]
fn new_particle_is_at_rest() {
    let p = Particle::new(Vec2::new(12, -34));
    assert_eq!(p.position, Vec2::new(12, -34));
    assert_eq!(p.old_position, p.position);
    assert_eq!(p.friction, 980);
}

#[test]
fn resting_particle_stays_where_it_is() {
    let mut p = Particle::new(Vec2::new(5_000, 6_000));
    p.update();
    assert_eq!(p, Particle::new(Vec2::new(5_000, 6_000)));
}

#[test]
fn update_advances_by_the_damped_velocity() {
    let mut p = moving((1_000, -500), (0, 0));
    p.update();
    assert_eq!(p.position, Vec2::new(1_980, -990));
    assert_eq!(p.old_position, Vec2::new(1_000, -500));
    assert_eq!(p.friction, FRICTION);
}

#[test]
fn friction_slows_a_free_particle_every_tick() {
    let mut p = moving((1_000, 0), (0, 0));
    let mut speeds = Vec::new();
    for _ in 0..5 {
        p.update();
        speeds.push(p.position.x - p.old_position.x);
    }
    assert_eq!(speeds, vec![980, 960, 940, 921, 902]);
    assert_eq!(p.position, Vec2::new(5_703, 0));
    assert_eq!(p.old_position, Vec2::new(4_801, 0));
}

#[test]
fn friction_brings_a_slow_particle_to_rest() {
    let mut p = moving((3, 0), (0, 0));
    let mut speeds = Vec::new();
    for _ in 0..4 {
        p.update();
        speeds.push(p.position.x - p.old_position.x);
    }
    assert_eq!(speeds, vec![2, 1, 0, 0]);
    assert_eq!(p.position, Vec2::new(6, 0));
}

#[test]
fn damping_rounds_toward_zero_in_both_directions() {
    let mut p = moving((-51, 51), (0, 0));
    p.update();
    assert_eq!(p.position, Vec2::new(-51 - 49, 51 + 49));
}

#[test]
fn frictionless_particle_keeps_its_velocity() {
    let mut p = moving((700, -300), (0, 0));
    p.friction = 1_000;
    p.update();
    p.update();
    assert_eq!(p.position, Vec2::new(2_100, -900));
    assert_eq!(p.old_position, Vec2::new(1_400, -600));
}

#[test]
fn update_stops_at_the_edge_of_the_range() {
    let mut p = moving((i32::MAX - 10, 0), (i32::MAX - 1_010, 0));
    p.update();
    assert_eq!(p.position, Vec2::new(i32::MAX, 0));
    assert_eq!(p.old_position, Vec2::new(i32::MAX - 10, 0));
    p.update();
    assert_eq!(p.position, Vec2::new(i32::MAX, 0));
    assert_eq!(p.old_position, Vec2::new(i32::MAX, 0));
    let mut q = moving((i32::MIN + 5, 7), (i32::MIN + 1_005, 7));
    q.update();
    assert_eq!(q.position, Vec2::new(i32::MIN, 7));
}
