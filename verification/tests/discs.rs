use kolli_desu::epa::{solve, TOLERANCE};
use kolli_desu::gjk::{collides, collides_internal};
use kolli_desu::shapes::{AnyShape, Aabb, Circle, ConvexPolygon, Shape};
use kolli_desu::vector::{Vector, WideVector, ONE};

fn at(x: i64, y: i64) -> Vector {
    Vector::new(x, y)
}

fn square(n: i64) -> i128 {
    (n as i128) * (n as i128)
}

fn apart(p: Vector, q: Vector) -> i128 {
    square(p.x - q.x) + square(p.y - q.y)
}

// Twice the slack of two discs of a radius below 268, and four.
const MARGIN: i64 = 8;

#[test]
fn the_verdict_for_two_discs_follows_the_distance_of_their_centres() {
    let a = Circle::new(at(0, 0), 900_000);
    let b = Circle::new(at(0, 0), 900_000);
    let sum = 1_800_000;
    for step in -30..=30 {
        for q in [at(sum + step, 0), at(0, sum + step), at(1_272_792 + step, 1_272_792)] {
            let verdict = collides((&a, at(0, 0)), (&b, q)).unwrap();
            if verdict {
                assert!(apart(at(0, 0), q) <= square(sum + MARGIN), "{:?}", q);
            } else {
                assert!(apart(at(0, 0), q) > square(sum - MARGIN), "{:?}", q);
            }
        }
    }
}

#[test]
fn discs_well_inside_the_sum_of_the_radii_collide_and_those_well_outside_do_not() {
    let a = Circle::new(at(100, -200), 500_000);
    let b = Circle::new(at(-300, 50), 250_000);
    assert_eq!(collides((&a, at(0, 0)), (&b, at(749_000, 0))), Ok(true));
    assert_eq!(collides((&a, at(0, 0)), (&b, at(751_000, 0))), Ok(false));
    assert_eq!(collides((&a, at(0, 0)), (&b, at(0, -749_000))), Ok(true));
    assert_eq!(collides((&a, at(0, 0)), (&b, at(0, -751_000))), Ok(false));
}

#[test]
fn the_depth_for_two_discs_is_the_sum_of_the_radii_less_the_distance_of_the_centres() {
    let a = Circle::new(at(0, 0), 500_000);
    let b = Circle::new(at(0, 0), 300_000);
    let sum = 800_000;
    for q in [at(400_000, 0), at(0, -650_000), at(300_000, 400_000), at(-120_000, 90_000)] {
        let (verdict, simplex) = collides_internal((&a, at(0, 0)), (&b, q)).unwrap();
        assert!(verdict);
        let (_, depth) = solve((&a, at(0, 0)), (&b, q), simplex).unwrap();
        let far = sum - depth - MARGIN - 1;
        let most = sum - depth + TOLERANCE + 3 * 2;
        assert!(far < 0 || apart(at(0, 0), q) > square(far), "{:?} {}", q, depth);
        assert!(most >= 1 && apart(at(0, 0), q) <= square(most), "{:?} {}", q, depth);
    }
}

#[test]
fn shapes_of_different_kinds_share_a_collection() {
    let shapes = vec![
        AnyShape::Point(at(0, 0)),
        AnyShape::Circle(Circle::new(at(0, 0), ONE)),
        AnyShape::Aabb(Aabb::new(at(-ONE, -ONE), at(ONE, ONE))),
        AnyShape::Polygon(ConvexPolygon::new(vec![at(-ONE, -ONE), at(ONE, -ONE), at(0, ONE)])),
    ];
    for shape in &shapes {
        assert_eq!(collides((shape, at(5, 5)), (shape, at(5, 5))), Ok(true));
        assert_eq!(collides((shape, at(0, 0)), (shape, at(3 * ONE, 0))), Ok(false));
    }
    assert_eq!(shapes[0].start(), at(0, 0));
    assert_eq!(shapes[1].farthest_in_dir(at(0, -ONE)), at(0, -ONE));
    assert_eq!(shapes[2].farthest_in_dir(at(ONE, -ONE)), at(ONE, -ONE));
    assert_eq!(shapes[3].farthest_in_dir(at(0, ONE)), at(0, ONE));
    assert_eq!(collides((&shapes[1], at(0, 0)), (&shapes[2], at(ONE, ONE))), Ok(true));
    assert_eq!(collides((&shapes[3], at(0, 0)), (&shapes[1], at(0, 3 * ONE))), Ok(false));
    assert_eq!(collides((&shapes[0], at(ONE / 2, 0)), (&shapes[2], at(0, 0))), Ok(true));
}

#[test]
fn a_wide_vector_tells_whether_it_is_zero() {
    assert!(WideVector::zero().is_zero());
    assert!(!WideVector::new(0, 1).is_zero());
    assert_eq!(WideVector::new(3, -4), WideVector { x: 3, y: -4 });
}
