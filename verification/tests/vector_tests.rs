use rope_sim::Vec2;

#[test]
fn new_vector_holds_its_coordinates() {
    let v = Vec2::new(-3, 7);
    assert_eq!(v, Vec2 { x: -3, y: 7 });
}

#[test]
fn translate_adds_the_displacement() {
    let v = Vec2::new(1_000, -2_000).translate(-1_500, 2_500);
    assert_eq!(v, Vec2::new(-500, 500));
}

#[test]
fn translate_stops_at_the_edge_of_the_range() {
    let v = Vec2::new(i32::MAX - 10, i32::MIN + 10).translate(11, -11);
    assert_eq!(v, Vec2::new(i32::MAX, i32::MIN));
    let w = Vec2::new(0, 0).translate(i64::MAX, i64::MIN);
    assert_eq!(w, Vec2::new(i32::MAX, i32::MIN));
}

#[test]
fn delta_is_exact_across_the_whole_range() {
    let a = Vec2::new(i32::MIN, i32::MAX);
    let b = Vec2::new(i32::MAX, i32::MIN);
    assert_eq!(a.delta_to(b), (4_294_967_295, -4_294_967_295));
    assert_eq!(b.delta_to(a), (-4_294_967_295, 4_294_967_295));
}

#[test]
fn distance_of_a_pythagorean_triple_is_exact() {
    let a = Vec2::new(1_000, 1_000);
    let b = Vec2::new(4_000, 5_000);
    assert_eq!(a.distance_squared(b), 25_000_000);
    assert_eq!(a.distance(b), 5_000);
    assert_eq!(b.distance(a), 5_000);
}

#[test]
fn distance_is_rounded_down() {
    let a = Vec2::new(0, 0);
    assert_eq!(a.distance(Vec2::new(1, 1)), 1);
    assert_eq!(a.distance(Vec2::new(2, 2)), 2);
    assert_eq!(a.distance(Vec2::new(5, 5)), 7);
    assert_eq!(a.distance(a), 0);
}

#[test]
fn distance_across_the_whole_range_fits() {
    let a = Vec2::new(i32::MIN, i32::MIN);
    let b = Vec2::new(i32::MAX, i32::MAX);
    assert_eq!(a.distance_squared(b), 36_893_488_130_239_234_050);
    assert_eq!(a.distance(b), 6_074_000_998);
}
