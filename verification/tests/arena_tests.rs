use rope_sim::{is_in_frame, Arena, Particle, Vec2};

#[test]
fn centered_arena_sits_in_the_middle_of_the_screen() {
    assert_eq!(
        Arena::centered(1_280_000, 720_000),
        Arena { left: 240_000, top: 60_000, right: 1_040_000, bottom: 660_000 }
    );
    assert_eq!(
        Arena::centered(800_000, 600_000),
        Arena { left: 0, top: 0, right: 800_000, bottom: 600_000 }
    );
}

#[test]
fn centered_arena_rounds_halves_toward_zero() {
    assert_eq!(
        Arena::centered(801, -3),
        Arena { left: -399_599, top: -300_001, right: 400_400, bottom: 299_998 }
    );
}

#[test]
fn centered_arena_of_the_largest_screen_fits() {
    let arena = Arena::centered(i32::MAX, i32::MIN);
    assert_eq!(arena.left, 1_073_341_823);
    assert_eq!(arena.right, 1_074_141_823);
    assert_eq!(arena.top, -1_074_041_824);
    assert_eq!(arena.bottom, -1_073_441_824);
}

#[test]
fn arena_includes_its_border() {
    let arena = Arena { left: -400_000, top: -300_000, right: 400_000, bottom: 300_000 };
    assert!(arena.holds(Vec2::new(-400_000, -300_000)));
    assert!(arena.holds(Vec2::new(400_000, 300_000)));
    assert!(arena.holds(Vec2::new(0, 0)));
    assert!(!arena.holds(Vec2::new(-400_001, 0)));
    assert!(!arena.holds(Vec2::new(400_001, 0)));
    assert!(!arena.holds(Vec2::new(0, -300_001)));
    assert!(!arena.holds(Vec2::new(0, 300_001)));
}

#[test]
fn particle_is_in_frame_by_its_position() {
    let arena = Arena { left: 0, top: 0, right: 10, bottom: 10 };
    let mut p = Particle::new(Vec2::new(10, 0));
    assert!(is_in_frame(&p, &arena));
    p.position = Vec2::new(11, 0);
    assert!(!is_in_frame(&p, &arena));
    p.old_position = Vec2::new(100, 100);
    p.position = Vec2::new(5, 5);
    assert!(is_in_frame(&p, &arena));
}
