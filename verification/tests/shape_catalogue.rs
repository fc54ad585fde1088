use kolli_desu::shapes::{support, Aabb, Circle, ConvexPolygon, Shape};
use kolli_desu::vector::{Vector, ONE, POINT_LIMIT};

fn v(x: i64, y: i64) -> Vector {
    Vector::new(x, y)
}

#[test]
fn a_point_is_its_own_start_and_support() {
    let p = v(3, -4);
    assert_eq!(p.start(), p);
    assert_eq!(p.farthest_in_dir(v(1, 0)), p);
    assert_eq!(p.farthest_in_dir(v(0, 0)), p);
}

#[test]
fn circle_new_keeps_centre_and_radius() {
    let c = Circle::new(v(5, 7), 100);
    assert_eq!(c.center, v(5, 7));
    assert_eq!(c.radius, 100);
    assert_eq!(c.start(), v(5, 7));
}

#[test]
fn circle_support_lies_on_the_circle() {
    let c = Circle::new(v(5, 7), 100);
    assert_eq!(c.farthest_in_dir(v(1, 0)), v(105, 7));
    assert_eq!(c.farthest_in_dir(v(0, -9)), v(5, -93));
    assert_eq!(c.farthest_in_dir(v(-3, 4)), v(-55, 87));
    assert_eq!(c.farthest_in_dir(v(1, 1)), v(75, 77));
}

#[test]
fn circle_support_for_the_zero_direction_is_the_centre() {
    let c = Circle::new(v(5, 7), 100);
    assert_eq!(c.farthest_in_dir(v(0, 0)), v(5, 7));
}

#[test]
fn circle_support_does_not_depend_on_the_length_of_the_direction() {
    let c = Circle::new(v(0, 0), ONE);
    assert_eq!(c.farthest_in_dir(v(3, 4)), c.farthest_in_dir(v(3_000_000, 4_000_000)));
    assert_eq!(c.farthest_in_dir(v(3, 4)), v(600_000, 800_000));
}

#[test]
fn circle_validity() {
    assert!(Circle::new(v(0, 0), 0).is_valid());
    assert!(Circle::new(v(POINT_LIMIT - 5, 0), 5).is_valid());
    assert!(!Circle::new(v(POINT_LIMIT - 5, 0), 6).is_valid());
    assert!(!Circle::new(v(0, -POINT_LIMIT), 1).is_valid());
    assert!(!Circle::new(v(0, 0), -1).is_valid());
}

#[test]
fn aabb_support_picks_a_corner() {
    let b = Aabb::new(v(-1, -2), v(3, 4));
    assert_eq!(b.from, v(-1, -2));
    assert_eq!(b.to, v(3, 4));
    assert_eq!(b.farthest_in_dir(v(1, 1)), v(3, 4));
    assert_eq!(b.farthest_in_dir(v(-1, 1)), v(-1, 4));
    assert_eq!(b.farthest_in_dir(v(1, -1)), v(3, -2));
    assert_eq!(b.farthest_in_dir(v(-1, -1)), v(-1, -2));
}

#[test]
fn aabb_support_takes_from_where_the_direction_is_zero() {
    let b = Aabb::new(v(-1, -2), v(3, 4));
    assert_eq!(b.farthest_in_dir(v(0, 0)), v(-1, -2));
    assert_eq!(b.farthest_in_dir(v(0, 5)), v(-1, 4));
    assert_eq!(b.farthest_in_dir(v(5, 0)), v(3, -2));
}

#[test]
fn aabb_start_is_the_centre() {
    assert_eq!(Aabb::new(v(-1, -2), v(3, 4)).start(), v(1, 1));
    assert_eq!(Aabb::new(v(0, 0), v(3, 5)).start(), v(1, 2));
    assert_eq!(Aabb::new(v(-3, -5), v(0, 0)).start(), v(-2, -3));
}

#[test]
fn aabb_validity() {
    assert!(Aabb::new(v(-1, -2), v(3, 4)).is_valid());
    assert!(Aabb::new(v(1, 1), v(1, 1)).is_valid());
    assert!(!Aabb::new(v(3, 4), v(-1, -2)).is_valid());
    assert!(!Aabb::new(v(0, 0), v(POINT_LIMIT + 1, 0)).is_valid());
}

#[test]
fn polygon_support_is_the_first_farthest_corner() {
    let p = ConvexPolygon::new(vec![v(0, 0), v(4, 0), v(4, 4), v(0, 4)]);
    assert_eq!(p.points, vec![v(0, 0), v(4, 0), v(4, 4), v(0, 4)]);
    assert_eq!(p.start(), v(0, 0));
    assert_eq!(p.farthest_in_dir(v(1, 1)), v(4, 4));
    assert_eq!(p.farthest_in_dir(v(-1, -1)), v(0, 0));
    assert_eq!(p.farthest_in_dir(v(1, 0)), v(4, 0));
    assert_eq!(p.farthest_in_dir(v(0, 1)), v(4, 4));
    assert_eq!(p.farthest_in_dir(v(-1, 0)), v(0, 0));
    assert_eq!(p.farthest_in_dir(v(0, 0)), v(0, 0));
    assert_eq!(p.farthest_in_dir(v(-2, 1)), v(0, 4));
}

#[test]
fn polygon_support_looks_at_every_corner() {
    let p = ConvexPolygon::new(vec![v(0, 0), v(1, 5), v(2, 0), v(3, 9), v(4, 0)]);
    assert_eq!(p.farthest_in_dir(v(0, 1)), v(3, 9));
    assert_eq!(p.farthest_in_dir(v(1, 0)), v(4, 0));
}

#[test]
fn polygon_validity() {
    assert!(ConvexPolygon::new(vec![v(0, 0)]).is_valid());
    assert!(!ConvexPolygon::new(vec![]).is_valid());
    assert!(!ConvexPolygon::new(vec![v(0, 0), v(0, POINT_LIMIT + 1)]).is_valid());
}

#[test]
fn new_rectangle_extends_to_the_left_of_its_side() {
    let r = ConvexPolygon::new_rectangle(v(0, 0), v(ONE, 0), ONE);
    assert_eq!(r.points, vec![v(0, 0), v(ONE, 0), v(ONE, ONE), v(0, ONE)]);
    let r = ConvexPolygon::new_rectangle(v(0, 0), v(0, 10), 3);
    assert_eq!(r.points, vec![v(0, 0), v(0, 10), v(-3, 10), v(-3, 0)]);
    let r = ConvexPolygon::new_rectangle(v(1, 1), v(4, 5), 10);
    assert_eq!(r.points, vec![v(1, 1), v(4, 5), v(-4, 11), v(-7, 7)]);
}

#[test]
fn new_rectangle_with_negative_thickness_extends_to_the_right() {
    let r = ConvexPolygon::new_rectangle(v(0, 0), v(ONE, 0), -ONE);
    assert_eq!(r.points, vec![v(0, 0), v(ONE, 0), v(ONE, -ONE), v(0, -ONE)]);
}

#[test]
fn new_rectangle_on_a_single_point_is_flat() {
    let r = ConvexPolygon::new_rectangle(v(2, 3), v(2, 3), 7);
    assert_eq!(r.points, vec![v(2, 3), v(2, 3), v(2, 3), v(2, 3)]);
}

#[test]
fn new_line_segment_has_two_corners() {
    let s = ConvexPolygon::new_line_segment(v(1, 2), v(3, 4));
    assert_eq!(s.points, vec![v(1, 2), v(3, 4)]);
}

#[test]
fn boxed_shapes_answer_as_their_contents() {
    let c = Box::new(Circle::new(v(5, 7), 100));
    assert_eq!(c.start(), v(5, 7));
    assert_eq!(c.farthest_in_dir(v(1, 0)), v(105, 7));
}

#[test]
fn support_is_the_difference_of_the_two_placed_support_points() {
    let a = Aabb::new(v(-1, -2), v(3, 4));
    let b = Circle::new(v(5, 7), 100);
    let p = support((&a, v(10, 20)), (&b, v(-30, 40)), v(1, 0));
    // (10, 20) + (3, -2) - ((-30, 40) + (5, 7) + (-100, 0))
    assert_eq!(p, v(13 + 125, 18 - 47));
    let q = support((&b, v(-30, 40)), (&a, v(10, 20)), v(-1, 0));
    assert_eq!(q, p.neg());
}

#[test]
fn circle_support_stays_in_the_disc() {
    let c = Circle::new(v(5, 7), 1_000_003);
    for dx in -20..=20 {
        for dy in -20..=20 {
            let p = c.farthest_in_dir(v(dx * 37 + 1, dy * 101 - 3));
            let (x, y) = ((p.x - 5) as i128, (p.y - 7) as i128);
            assert!(x * x + y * y <= 1_000_003 * 1_000_003);
            assert!((x.abs() + 2).pow(2) + (y.abs() + 2).pow(2) > 1_000_003 * 1_000_003);
        }
    }
}

#[test]
fn circle_support_is_farthest_up_to_rounding() {
    let c = Circle::new(v(5, 7), 1_000_003);
    let directions: Vec<Vector> =
        (-6..=6).flat_map(|dx| (-6..=6).map(move |dy| v(dx * 37 + 1, dy * 101 - 3))).collect();
    for d in &directions {
        let reach = c.farthest_in_dir(*d).dot(*d);
        for e in &directions {
            assert!(c.farthest_in_dir(*e).dot(*d) <= reach + (d.x.abs() + d.y.abs()) as i128);
        }
    }
}

#[test]
fn polygon_and_box_supports_are_farthest() {
    let kite = ConvexPolygon::new(vec![v(0, -7), v(3, 0), v(0, 9), v(-5, 0)]);
    let b = Aabb::new(v(-1, -2), v(3, 4));
    let directions: Vec<Vector> =
        (-6..=6).flat_map(|dx| (-6..=6).map(move |dy| v(dx, dy))).collect();
    for d in &directions {
        for e in &directions {
            assert!(kite.farthest_in_dir(*e).dot(*d) <= kite.farthest_in_dir(*d).dot(*d));
            assert!(b.farthest_in_dir(*e).dot(*d) <= b.farthest_in_dir(*d).dot(*d));
        }
        assert!(kite.start().dot(*d) <= kite.farthest_in_dir(*d).dot(*d));
        assert!(b.start().dot(*d) <= b.farthest_in_dir(*d).dot(*d));
    }
}
