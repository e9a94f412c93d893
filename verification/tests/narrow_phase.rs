use tick_engine::body::{cell_index, correct, distance_squared, hits, is_adjacent};
use tick_engine::geometry::{clamp_to_coord, isqrt, move_coord};
use tick_engine::narrow::collision_bump;
use tick_engine::sweep::range_for;
use tick_engine::{Axis, Body, Collider, Pos, Pt, Rule, Transform, UNIT};

fn circle(units: u32) -> Collider {
    Collider::Circle { radius: units * UNIT as u32 }
}

fn at(x: i32, y: i32) -> Pos {
    Pos::new(Pt::new(x, y))
}

#[test]
fn overlapping_circles_are_pushed_apart_evenly() {
    let p1 = at(0, 0);
    let p2 = at(15 * UNIT, 0);
    let c = circle(10);
    assert_eq!(collision_bump(&p1, &c, &p2, &c), Some((-2560, 0)));
    assert_eq!(collision_bump(&p2, &c, &p1, &c), Some((2560, 0)));
}

#[test]
fn correction_follows_the_line_between_the_centres() {
    let p1 = at(0, 0);
    let p2 = at(3000, 4000);
    let c = Collider::Circle { radius: 3000 };
    // distance 5000, reach 6000: each moves 500 along the line
    assert_eq!(collision_bump(&p1, &c, &p2, &c), Some((-300, -400)));
    assert_eq!(collision_bump(&p2, &c, &p1, &c), Some((300, 400)));
}

#[test]
fn correction_is_rounded_towards_zero() {
    let c = Collider::Circle { radius: 5 };
    // distance 7, reach 10, missing 3: 7 * 3 / 14 = 1.5
    assert_eq!(collision_bump(&at(0, 0), &c, &at(7, 0), &c), Some((-1, 0)));
    assert_eq!(collision_bump(&at(7, 0), &c, &at(0, 0), &c), Some((1, 0)));
    // distance 1.4142, reach 10: 1 * 8.5858 / 2.8284 = 3.0355
    let d = Collider::Circle { radius: 5 };
    assert_eq!(collision_bump(&at(0, 0), &d, &at(1, 1), &d), Some((-3, -3)));
    // distance 1.4142, reach 4: 1 * 2.5858 / 2.8284 = 0.9142
    let e = Collider::Circle { radius: 2 };
    assert_eq!(collision_bump(&at(0, 0), &e, &at(1, 1), &e), Some((0, 0)));
    // distance 2.2361, reach 200: (1, 2) * 197.7639 / 4.4721 = (44.22, 88.44)
    let f = Collider::Circle { radius: 100 };
    assert_eq!(collision_bump(&at(1, 2), &f, &at(0, 0), &f), Some((44, 88)));
}

#[test]
fn radii_may_differ() {
    let small = Collider::Circle { radius: 100 };
    let large = Collider::Circle { radius: 900 };
    // distance 500, reach 1000, missing 500: each moves 250
    assert_eq!(collision_bump(&at(500, 0), &small, &at(0, 0), &large), Some((250, 0)));
    assert_eq!(collision_bump(&at(0, 0), &large, &at(500, 0), &small), Some((-250, 0)));
}

#[test]
fn circles_that_touch_or_are_apart_are_left_alone() {
    let c = circle(10);
    assert_eq!(collision_bump(&at(0, 0), &c, &at(20 * UNIT, 0), &c), None);
    assert_eq!(collision_bump(&at(0, 0), &c, &at(20 * UNIT + 1, 0), &c), None);
    assert_eq!(collision_bump(&at(0, 0), &c, &at(0, -300 * UNIT), &c), None);
    assert_eq!(collision_bump(&at(0, 0), &c, &at(20 * UNIT - 1, 0), &c), Some((0, 0)));
}

#[test]
fn coincident_centres_get_no_correction() {
    let c = circle(10);
    assert_eq!(collision_bump(&at(7, 9), &c, &at(7, 9), &c), None);
}

#[test]
fn rectangles_take_no_part() {
    let c = circle(10);
    let r = Collider::Rectangle { w: 40 * UNIT as u32, h: 40 * UNIT as u32 };
    assert_eq!(collision_bump(&at(0, 0), &r, &at(5, 0), &r), None);
    assert_eq!(collision_bump(&at(0, 0), &c, &at(5, 0), &r), None);
    assert_eq!(collision_bump(&at(0, 0), &r, &at(5, 0), &c), None);
}

#[test]
fn corrections_at_the_ends_of_the_coordinate_range() {
    let c = Collider::Circle { radius: u32::MAX };
    let r = collision_bump(&at(i32::MIN, 0), &c, &at(i32::MAX, 0), &c);
    // distance 2^32 - 1, reach 2^33 - 2, missing 2^32 - 1: half of it, rounded down
    assert_eq!(r, Some((-2147483647, 0)));
}

#[test]
fn integer_square_roots() {
    assert_eq!(isqrt(0), 0);
    assert_eq!(isqrt(1), 1);
    assert_eq!(isqrt(3), 1);
    assert_eq!(isqrt(4), 2);
    assert_eq!(isqrt(99), 9);
    assert_eq!(isqrt(100), 10);
    assert_eq!(isqrt(15360 * 15360), 15360);
    assert_eq!(isqrt(15360 * 15360 - 1), 15359);
    assert_eq!(isqrt(u128::MAX), u64::MAX);
}

#[test]
fn coordinates_stop_at_the_edge_of_their_range() {
    assert_eq!(clamp_to_coord(17), 17);
    assert_eq!(clamp_to_coord(i32::MAX as i128 + 1), i32::MAX);
    assert_eq!(clamp_to_coord(i32::MIN as i128 - 1), i32::MIN);
    assert_eq!(clamp_to_coord(i128::MAX), i32::MAX);
    assert_eq!(move_coord(5, -7), -2);
    assert_eq!(move_coord(i32::MAX, 1), i32::MAX);
    assert_eq!(move_coord(i32::MIN, i128::MIN), i32::MIN);
    assert_eq!(move_coord(i32::MIN, i128::MAX), i32::MAX);
    assert_eq!(Pt::new(1, 2).shifted(10, -20), Pt::new(11, -18));
    assert_eq!(Pt::new(i32::MAX - 1, i32::MIN + 1).shifted(5, -5), Pt::new(i32::MAX, i32::MIN));
    assert_eq!(Pt::zero(), Pt::new(0, 0));
    assert_eq!(Transform::new(), Transform(Pt::new(0, 0)));
}

#[test]
fn intervals_on_the_sweep_axis() {
    let p = at(100, -40);
    assert_eq!(range_for(&p, &Collider::Circle { radius: 30 }, Axis::X), (70, 130));
    assert_eq!(range_for(&p, &Collider::Circle { radius: 30 }, Axis::Y), (-70, -10));
    assert_eq!(range_for(&p, &Collider::Rectangle { w: 21, h: 8 }, Axis::X), (90, 110));
    assert_eq!(range_for(&p, &Collider::Rectangle { w: 21, h: 8 }, Axis::Y), (-44, -36));
    let far = at(i32::MAX, i32::MIN);
    assert_eq!(
        range_for(&far, &Collider::Circle { radius: u32::MAX }, Axis::X),
        (i32::MAX as i64 - u32::MAX as i64, i32::MAX as i64 + u32::MAX as i64)
    );
}

#[test]
fn grid_cells() {
    assert_eq!(cell_index(i32::MIN, 1024), 0);
    assert_eq!(cell_index(i32::MIN + 1023, 1024), 0);
    assert_eq!(cell_index(i32::MIN + 1024, 1024), 1);
    assert_eq!(cell_index(0, 1024), 2097152);
    assert_eq!(cell_index(-1, 1024), 2097151);
    assert_eq!(cell_index(i32::MAX, 1), u32::MAX as u64);
    assert!(is_adjacent(Pt::new(0, 0), Pt::new(1023, 1023), 1024));
    assert!(is_adjacent(Pt::new(0, 0), Pt::new(-1, 2047), 1024));
    assert!(!is_adjacent(Pt::new(0, 0), Pt::new(2048, 0), 1024));
    assert!(!is_adjacent(Pt::new(0, 0), Pt::new(0, -1025), 1024));
}

#[test]
fn contacts_under_the_two_rules() {
    let a = Body { center: Pt::new(0, 0), radius: 10 };
    let b = Body { center: Pt::new(15, 0), radius: 10 };
    let c = Body { center: Pt::new(20, 0), radius: 10 };
    assert_eq!(distance_squared(a.center, b.center), 225);
    assert_eq!(distance_squared(Pt::new(i32::MIN, i32::MIN), Pt::new(i32::MAX, i32::MAX)), 2 * 4294967295u128 * 4294967295u128);
    assert!(hits(Rule::Separate, a, b));
    assert!(!hits(Rule::Separate, a, c));
    assert!(hits(Rule::Separate, a, a));
    let grid = Rule::Nudge { scale: 20, threshold: 20 };
    assert!(hits(grid, a, b));
    assert!(!hits(grid, a, c));
    // within the threshold, but two cells apart
    let fine = Rule::Nudge { scale: 5, threshold: 20 };
    assert!(!hits(fine, a, b));
    assert_eq!(correct(Rule::Separate, a, b), (-2, 0));
    assert_eq!(correct(Rule::Separate, b, a), (2, 0));
    assert_eq!(correct(Rule::Separate, a, c), (0, 0));
    assert_eq!(correct(grid, a, b), (-7, 0));
    assert_eq!(correct(grid, b, a), (7, 0));
    assert_eq!(correct(grid, a, c), (0, 0));
    assert_eq!(correct(fine, a, b), (0, 0));
}
