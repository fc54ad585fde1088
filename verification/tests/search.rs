use kolli_desu::gjk::{
    collides, collides_internal, expand, search_direction, triple_product,
    triple_product_direction, GjkError, MAX_ITERATIONS,
};
use kolli_desu::shapes::{Aabb, Circle, ConvexPolygon, Shape};
use kolli_desu::simplex::Simplex;
use kolli_desu::vector::{Vec2, Vector, Whole, WideVector, ONE};
use std::cell::Cell;

fn v(x: i64, y: i64) -> Vector {
    Vector::new(x, y)
}

fn w(x: i128, y: i128) -> WideVector {
    WideVector::new(x, y)
}

fn unit_box() -> Aabb {
    Aabb::new(v(-ONE / 2, -ONE / 2), v(ONE / 2, ONE / 2))
}

#[test]
fn triple_product_is_a_difference_of_scaled_vectors() {
    // b * (c . a) - a * (c . b)
    let a = v(1, 2);
    let b = v(3, 4);
    let c = v(5, 6);
    assert_eq!(triple_product(a, b, c), w(3 * 17 - 39, 4 * 17 - 2 * 39));
    assert_eq!(triple_product(a, b, c), w(12, -10));
}

#[test]
fn triple_product_is_the_third_vector_turned_and_scaled() {
    let a = v(1, 2);
    let b = v(3, 4);
    let c = v(5, 6);
    // a x b = -2, and c turned a quarter is (-6, 5).
    assert_eq!(triple_product(a, b, c), w(-2 * -6, -2 * 5));
    assert_eq!(triple_product(b, a, c), w(2 * -6, 2 * 5));
    assert_eq!(triple_product(a, a, c), w(0, 0));
}

#[test]
fn triple_product_has_room_for_the_largest_differences() {
    let far: i64 = 0x4_0000_0000;
    let a = v(far, 0);
    let b = v(0, far);
    let c = v(far, far);
    let cube = (far as i128) * (far as i128) * (far as i128);
    assert_eq!(triple_product(a, b, c), w(-cube, cube));
}

#[test]
fn triple_product_direction_is_a_quarter_turn_or_zero() {
    let a = v(1, 2);
    let b = v(3, 4);
    let c = v(5, 6);
    assert_eq!(triple_product_direction(a, b, c), v(6, -5));
    assert_eq!(triple_product_direction(b, a, c), v(-6, 5));
    assert_eq!(triple_product_direction(a, a, c), v(0, 0));
    assert_eq!(triple_product_direction(a, v(2, 4), c), v(0, 0));
}

#[test]
fn expand_turns_a_segment_toward_the_origin() {
    let mut simplex = Simplex::Line(v(-4, 3), v(4, 3));
    let mut cur = w(9, 9);
    assert!(!expand(&mut simplex, &mut cur));
    assert_eq!(simplex, Simplex::Line(v(-4, 3), v(4, 3)));
    assert_eq!(cur, w(0, -192));

    let mut simplex = Simplex::Line(v(-4, -3), v(4, -3));
    assert!(!expand(&mut simplex, &mut cur));
    assert_eq!(cur, w(0, 192));

    let mut simplex = Simplex::Line(v(1, 1), v(-1, 1));
    assert!(!expand(&mut simplex, &mut cur));
    assert_eq!(simplex, Simplex::Line(v(1, 1), v(-1, 1)));
    assert_eq!(cur, w(0, -4));
}

#[test]
fn expand_gives_the_zero_direction_for_a_segment_through_the_origin() {
    let mut simplex = Simplex::Line(v(-4, -2), v(2, 1));
    let mut cur = w(9, 9);
    assert!(!expand(&mut simplex, &mut cur));
    assert_eq!(simplex, Simplex::Line(v(-4, -2), v(2, 1)));
    assert_eq!(cur, w(0, 0));
}

#[test]
fn expand_reports_a_triangle_that_holds_the_origin() {
    let mut simplex = Simplex::Triangle(v(-4, -3), v(4, -3), v(0, 5));
    let mut cur = w(9, 9);
    assert!(expand(&mut simplex, &mut cur));
    assert_eq!(simplex, Simplex::Triangle(v(-4, -3), v(4, -3), v(0, 5)));
    assert_eq!(cur, w(9, 9));
}

#[test]
fn expand_reports_a_triangle_with_the_origin_on_its_boundary() {
    let mut simplex = Simplex::Triangle(v(-4, -3), v(4, -3), v(-4, 3));
    let mut cur = w(9, 9);
    assert!(expand(&mut simplex, &mut cur));
}

#[test]
fn expand_narrows_to_the_side_beyond_which_the_origin_lies() {
    // The origin lies beyond the side from the newest point to the first.
    let mut simplex = Simplex::Triangle(v(-4, -3), v(4, -9), v(2, -1));
    let mut cur = w(9, 9);
    assert!(!expand(&mut simplex, &mut cur));
    assert_eq!(simplex, Simplex::Line(v(-4, -3), v(2, -1)));
    assert_eq!(cur, w(-104, 312));

    // The origin lies beyond the side from the newest point to the second.
    let mut simplex = Simplex::Triangle(v(4, -9), v(-4, -3), v(2, -1));
    let mut cur = w(9, 9);
    assert!(!expand(&mut simplex, &mut cur));
    assert_eq!(simplex, Simplex::Line(v(-4, -3), v(2, -1)));
    assert_eq!(cur, w(-104, 312));

    let mut simplex = Simplex::Triangle(v(3, -1), v(1, -1), v(2, 1));
    let mut cur = w(9, 9);
    assert!(!expand(&mut simplex, &mut cur));
    assert_eq!(simplex, Simplex::Line(v(1, -1), v(2, 1)));
    assert_eq!(cur, w(-8, 4));
}

#[test]
fn search_direction_is_the_normal_of_the_segment_on_the_side_looked_at() {
    let segment = Simplex::Line(v(-4, -3), v(2, -1));
    assert_eq!(search_direction(&segment, &w(-104, 312)), v(-2, 6));
    assert_eq!(search_direction(&segment, &w(104, -312)), v(2, -6));
    assert_eq!(search_direction(&segment, &w(0, 0)), v(0, 0));

    let level = Simplex::Line(v(1, 1), v(-1, 1));
    assert_eq!(search_direction(&level, &w(0, -4)), v(0, -2));
    assert_eq!(search_direction(&level, &w(0, 4)), v(0, 2));
}

#[test]
fn overlapping_boxes_collide() {
    let b = unit_box();
    assert_eq!(collides((&b, v(0, 0)), (&b, v(750_000, 0))), Ok(true));
    assert_eq!(collides((&b, v(0, 0)), (&b, v(750_000, 100_000))), Ok(true));
    assert_eq!(collides((&b, v(0, 0)), (&b, v(0, -900_000))), Ok(true));
}

#[test]
fn touching_boxes_collide() {
    let b = unit_box();
    assert_eq!(collides((&b, v(0, 0)), (&b, v(ONE, 0))), Ok(true));
    assert_eq!(collides((&b, v(0, 0)), (&b, v(ONE, ONE))), Ok(true));
}

#[test]
fn boxes_a_millionth_apart_do_not_collide() {
    let b = unit_box();
    assert_eq!(collides((&b, v(0, 0)), (&b, v(ONE + 1, 0))), Ok(false));
    assert_eq!(collides((&b, v(0, 0)), (&b, v(ONE, ONE + 1))), Ok(false));
}

#[test]
fn collides_internal_hands_back_the_simplex() {
    let b = unit_box();
    let found = collides_internal((&b, v(0, 0)), (&b, v(750_000, 0)));
    assert_eq!(found, Ok((true, Simplex::Line(v(-1_750_000, 0), v(250_000, 0)))));
    let found = collides_internal((&b, v(0, 0)), (&b, v(750_000, 100_000)));
    assert_eq!(
        found,
        Ok((
            true,
            Simplex::Triangle(v(-1_750_000, -1_100_000), v(250_000, 900_000), v(250_000, -1_100_000))
        ))
    );
    let found = collides_internal((&b, v(0, 0)), (&b, v(ONE + 1, 0)));
    assert_eq!(found, Ok((false, Simplex::Line(v(-2_000_001, 0), v(-1, 0)))));
}

#[test]
fn a_point_inside_a_triangle_collides_with_it() {
    let triangle = ConvexPolygon::new(vec![v(0, 0), v(4 * ONE, 0), v(0, 4 * ONE)]);
    assert_eq!(collides((&triangle, v(0, 0)), (&v(ONE, ONE), v(0, 0))), Ok(true));
    assert_eq!(collides((&triangle, v(0, 0)), (&v(2 * ONE, 2 * ONE), v(0, 0))), Ok(true));
    assert_eq!(collides((&triangle, v(0, 0)), (&v(0, 0), v(0, 0))), Ok(true));
    assert_eq!(collides((&triangle, v(0, 0)), (&v(3 * ONE, 3 * ONE), v(0, 0))), Ok(false));
    assert_eq!(collides((&triangle, v(0, 0)), (&v(2 * ONE, 2 * ONE + 1), v(0, 0))), Ok(false));
}

#[test]
fn crossing_segments_collide() {
    let one = ConvexPolygon::new_line_segment(v(-ONE, -ONE), v(ONE, ONE));
    let other = ConvexPolygon::new_line_segment(v(ONE, -ONE), v(-ONE, ONE));
    let apart = ConvexPolygon::new_line_segment(v(ONE, -ONE), v(3 * ONE, ONE));
    assert_eq!(collides((&one, v(0, 0)), (&other, v(0, 0))), Ok(true));
    assert_eq!(collides((&one, v(0, 0)), (&apart, v(0, 0))), Ok(false));
}

#[test]
fn shapes_with_one_start_point_collide() {
    let circle = Circle::new(v(0, 0), ONE / 2);
    let square = unit_box();
    let found = collides_internal((&circle, v(7, 7)), (&square, v(7, 7)));
    assert_eq!(
        found,
        Ok((true, Simplex::Triangle(v(ONE, ONE / 2), v(-ONE, ONE / 2), v(ONE / 2, -ONE))))
    );
}

#[test]
fn the_verdict_does_not_depend_on_the_order_of_the_shapes() {
    let circle = Circle::new(v(0, 0), 400_000);
    let square = unit_box();
    for x in -12..=12 {
        for y in -12..=12 {
            let pos = v(x * 100_000, y * 100_000 + 13);
            let one = collides((&circle, pos), (&square, v(0, 0)));
            let other = collides((&square, v(0, 0)), (&circle, pos));
            assert!(one.is_ok());
            assert_eq!(one, other);
        }
    }
}

#[test]
fn every_shape_collides_with_itself() {
    let pos = v(123_456, -654_321);
    let circle = Circle::new(v(3, 4), 400_000);
    let square = unit_box();
    let polygon = ConvexPolygon::new(vec![v(0, 0), v(4, 0), v(0, 4)]);
    let segment = ConvexPolygon::new_line_segment(v(0, 0), v(4, 1));
    let dot = v(5, 5);
    let empty_circle = Circle::new(v(3, 4), 0);
    assert_eq!(collides((&circle, pos), (&circle, pos)), Ok(true));
    assert_eq!(collides((&square, pos), (&square, pos)), Ok(true));
    assert_eq!(collides((&polygon, pos), (&polygon, pos)), Ok(true));
    assert_eq!(collides((&segment, pos), (&segment, pos)), Ok(true));
    assert_eq!(collides((&dot, pos), (&dot, pos)), Ok(true));
    assert_eq!(collides((&empty_circle, pos), (&empty_circle, pos)), Ok(true));
}

#[test]
fn the_outcome_does_not_depend_on_where_the_pair_is_placed() {
    let circle = Circle::new(v(0, 0), 400_000);
    let square = unit_box();
    for x in -12..=12 {
        let pos = v(x * 100_000, 700_000 + x);
        let here = collides_internal((&circle, pos), (&square, v(0, 0)));
        for t in [v(1, 0), v(-ONE, 3 * ONE), v(999 * ONE, -1000 * ONE)] {
            let there = collides_internal((&circle, pos.plus(t)), (&square, t));
            assert_eq!(here, there);
        }
    }
}

/// A shape that answers every question with the next point of a list that
/// it goes through, and so stands for no set of points.
struct Scripted {
    asked: Cell<i64>,
}

impl Shape for Scripted {
    fn wf(&self) -> bool {
        unreachable!()
    }

    fn start_point(&self) -> Vec2 {
        unreachable!()
    }

    fn support_point(&self, _dir: Vec2) -> Vec2 {
        unreachable!()
    }

    fn slack(&self) -> i64 {
        unreachable!()
    }

    fn start(&self) -> Vector {
        Vector::new(-1, 0)
    }

    fn farthest_in_dir(&self, _dir: Vector) -> Vector {
        let asked = self.asked.get();
        self.asked.set(asked + 1);
        match asked {
            0 => Vector::new(275, -477),
            1 => Vector::new(519, -266),
            2 => Vector::new(244, 211),
            _ => Vector::new(31 - 244 * (asked - 3), -688 - 211 * (asked - 3)),
        }
    }

    fn lemma_start_inside(&self, _dir: Vec2) {
        unreachable!()
    }

    fn lemma_support_consistent(&self, _d: Vec2, _e: Vec2) {
        unreachable!()
    }

    fn lemma_support_scales(&self, _d: Vec2, _k: Whole) {
        unreachable!()
    }
}

#[test]
fn a_search_that_never_settles_ends_at_the_iteration_limit() {
    let scripted = Scripted { asked: Cell::new(0) };
    let origin = v(0, 0);
    assert_eq!(collides((&scripted, v(0, 0)), (&origin, v(0, 0))), Err(GjkError::IterationLimit));
    assert_eq!(scripted.asked.get(), MAX_ITERATIONS as i64 + 1);
}
