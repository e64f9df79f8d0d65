use physics2d::math::{Bounds, Vec2};

fn b(min: (i32, i32), max: (i32, i32)) -> Bounds {
    Bounds::new(Vec2::new(min.0, min.1), Vec2::new(max.0, max.1))
}

#[test]
fn vec2_min_and_max_are_componentwise() {
    let p = Vec2::new(3, -7);
    let q = Vec2::new(-1, 9);
    assert_eq!(p.min(&q), Vec2::new(-1, -7));
    assert_eq!(p.max(&q), Vec2::new(3, 9));
    assert_eq!(p.min(&p), p);
}

#[test]
fn bounds_new_keeps_its_corners() {
    let x = b((-2, 3), (5, 8));
    assert_eq!(x.min(), Vec2::new(-2, 3));
    assert_eq!(x.max(), Vec2::new(5, 8));
}

#[test]
fn center_extents_reaches_to_each_side() {
    let x = Bounds::center_extents(Vec2::new(100, 100), Vec2::new(100, 300));
    assert_eq!(x, b((0, -200), (200, 400)));
}

#[test]
fn perimeter_is_twice_width_plus_height() {
    let x = Bounds::center_extents(Vec2::new(1, 1), Vec2::new(2, 15));
    assert_eq!(x.perimeter(), 2 * 2 * (2 + 15));
    assert_eq!(b((4, 4), (4, 4)).perimeter(), 0);
    let widest = b((i32::MIN, i32::MIN), (i32::MAX, i32::MAX));
    assert_eq!(widest.perimeter(), 4 * (u32::MAX as i64));
}

#[test]
fn center_rounds_down_and_extents_round_up() {
    let x = b((-3, -3), (0, 4));
    assert_eq!(x.center(), Vec2::new(-2, 0));
    assert_eq!(x.extents(), Vec2::new(2, 4));
    let y = b((2, 2), (6, 10));
    assert_eq!(y.center(), Vec2::new(4, 6));
    assert_eq!(y.extents(), Vec2::new(2, 4));
}

#[test]
fn intersects_counts_touching() {
    let one = Bounds::center_extents(Vec2::new(10, 10), Vec2::new(10, 10));
    let other = Bounds::center_extents(Vec2::new(5, 5), Vec2::new(10, 10));
    assert!(one.intersects(&other));
    assert!(other.intersects(&one));
    // touching along an edge and at a corner
    assert!(b((0, 0), (1, 1)).intersects(&b((1, 0), (2, 1))));
    assert!(b((0, 0), (1, 1)).intersects(&b((1, 1), (2, 2))));
    // apart in x, apart in y
    assert!(!b((0, 0), (1, 1)).intersects(&b((2, 0), (3, 1))));
    assert!(!b((0, 0), (1, 1)).intersects(&b((0, 2), (1, 3))));
}

#[test]
fn contains_needs_both_corners_inside() {
    let outer = Bounds::center_extents(Vec2::new(10, 10), Vec2::new(10, 10));
    let inner = Bounds::center_extents(Vec2::new(5, 5), Vec2::new(5, 5));
    assert!(outer.contains(&inner));
    assert!(outer.contains(&outer));
    assert!(!inner.contains(&outer));
    assert!(!outer.contains(&b((15, 15), (21, 18))));
    assert!(!outer.contains(&b((-1, 0), (5, 5))));
}

#[test]
fn union_is_the_smallest_box_around_both() {
    let b1 = Bounds::center_extents(Vec2::new(10, 10), Vec2::new(10, 10));
    let b2 = Bounds::center_extents(Vec2::new(5, 5), Vec2::new(10, 10));
    let union = b((-5, -5), (20, 20));
    assert_eq!(b1.union(&b2), union);
    assert_eq!(b2.union(&b1), union);
    let b3 = b((-5, -5), (-4, -4));
    let b4 = b((19, -3), (20, 20));
    assert_eq!(b3.union(&b4), union);
    assert!(union.contains(&b1) && union.contains(&b2));
}

#[test]
fn expand_by_moves_each_side_out_by_its_margin() {
    // half as large again: the extents grow from 50 to 75
    let b1 = Bounds::center_extents(Vec2::new(100, 100), Vec2::new(50, 50));
    let b2 = Bounds::center_extents(Vec2::new(100, 100), Vec2::new(75, 75));
    assert_eq!(b1.expand_by(50), b2);
    // 5 percent of 100 is 5, half of it rounds up to 3
    assert_eq!(b((0, 0), (100, 100)).expand_by(5), b((-3, -3), (103, 103)));
    // 5 percent of 1000 is 50, half of it is 25; the height 40 gives 1
    assert_eq!(b((0, 0), (1000, 40)).expand_by(5), b((-25, -1), (1025, 41)));
    // a box without size stays as it is, and so does any box at 0 percent
    assert_eq!(b((7, 7), (7, 7)).expand_by(5), b((7, 7), (7, 7)));
    assert_eq!(b((0, 0), (9, 9)).expand_by(0), b((0, 0), (9, 9)));
}

#[test]
fn expand_by_stops_at_the_edge_of_the_grid() {
    let x = b((i32::MIN + 1, 0), (i32::MAX - 1, 10));
    let grown = x.expand_by(5);
    assert_eq!(grown.min(), Vec2::new(i32::MIN, -1));
    assert_eq!(grown.max(), Vec2::new(i32::MAX, 11));
    assert!(grown.contains(&x));
}

#[test]
fn default_bounds_hold_the_origin_only() {
    assert_eq!(Bounds::default(), b((0, 0), (0, 0)));
}
