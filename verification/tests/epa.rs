use kolli_desu::epa::solve;
use kolli_desu::gjk::collides_internal;
use kolli_desu::shapes::{Aabb, Circle};
use kolli_desu::simplex::Simplex;
use kolli_desu::vector::{Point, Vector};
use nalgebra::{Isometry2, Point2, Vector2};

const TAU: f32 = 2. * ::std::f32::consts::PI;

/// The fixed-point representation of a decimal number.
fn fixed(v: f32) -> i64 {
    (v as f64 * 1_000_000.0).round() as i64
}

/// The decimal number that a fixed-point value stands for.
fn decimal(v: i64) -> f32 {
    (v as f64 / 1_000_000.0) as f32
}

fn at(x: f32, y: f32) -> Point {
    Vector::new(fixed(x), fixed(y))
}

fn assert_unit(normal: Vector) {
    let length = ((normal.x as f64).powi(2) + (normal.y as f64).powi(2)).sqrt();
    assert!((length - 1_000_000.0).abs() < 3.0, "not of unit length: {:?}", normal);
}

#[test]
fn circle_circle_penetration_multi() {
    let circle = Circle::new(at(0., 0.), fixed(0.50001));
    let steps = 360;
    for n in 0..steps {
        let center =
            Isometry2::new(Vector2::new(0., 0.), n as f32 * TAU / steps as f32) * Point2::new(1., 0.);
        let other = Circle::new(at(center.x, center.y), fixed(0.5));
        let (_, simplex) = collides_internal((&circle, at(0., 0.)), (&other, at(0., 0.))).unwrap();
        let (vector, depth) = solve((&circle, at(0., 0.)), (&other, at(0., 0.)), simplex).unwrap();
        let depth = decimal(depth);
        assert!(
            (depth - 0.00001).abs() < 0.00001,
            "Depth wasn't close enough to 0.00001: {}",
            depth
        );
        let diff = (Vector2::new(decimal(vector.x), decimal(vector.y))
            - Vector2::new(decimal(other.center.x), decimal(other.center.y)))
        .norm();
        assert!(
            diff < 0.005,
            "Penetration vector {:?} wasn't close enough to {:?}: {}",
            other.center,
            vector,
            diff
        );
    }
}

#[test]
fn same_circle() {
    let circle = Circle::new(at(0., 0.), fixed(0.5));
    let (_, simplex) = collides_internal((&circle, at(0., 0.)), (&circle, at(0., 0.))).unwrap();
    let (_, depth) = solve((&circle, at(0., 0.)), (&circle, at(0., 0.)), simplex).unwrap();
    let depth = decimal(depth);
    assert!((depth - 1.) < 0.00001, "Depth wasn't close enough to 1: {}", depth);
}

#[test]
fn small_circle_penetrates_bigger_one() {
    let circle1 = Circle::new(at(0., 0.), fixed(0.5));
    let steps = 100;
    for x in 0..=steps {
        let percentage = (x as f32) / steps as f32;
        let circle2 = Circle::new(at(-0.5 + percentage, 0.), fixed(0.1));
        let (_, simplex) =
            collides_internal((&circle1, at(0., 0.)), (&circle2, at(0., 0.))).unwrap();
        let (_, depth) = solve((&circle1, at(0., 0.)), (&circle2, at(0., 0.)), simplex).unwrap();
        let depth = decimal(depth);
        let correct = 0.5 - (percentage - 0.5).abs() + 0.1;
        assert!(
            (depth - correct).abs() < 0.00001,
            "Depth wasn't close enough to {}: {}",
            correct,
            depth
        );
    }
}

#[test]
fn reproduction_of_infinite_loop_original() {
    let h1 = Circle::new(at(0.0, 0.0), fixed(0.25));
    let p1 = at(734.13696, 750.62823);
    let h2 = Aabb::new(at(-0.75, -0.75), at(0.75, 0.75));
    let p2 = at(735.0, 751.5);

    let (_, s) = collides_internal((&h1, p1), (&h2, p2)).unwrap();
    let (normal, depth) = solve((&h1, p1), (&h2, p2), s).unwrap();
    assert_unit(normal);
    assert!(depth >= 0);
}

#[test]
fn reproduction_of_infinite_loop_centered() {
    let h1 = Circle::new(at(256.136, 272.628), fixed(0.25));
    let p1 = at(0., 0.);
    let h2 = Aabb::new(at(257.0 - 0.75, 273.5 - 0.75), at(257.0 + 0.75, 273.5 + 0.75));
    let p2 = at(0., 0.);

    let (_, s) = collides_internal((&h1, p1), (&h2, p2)).unwrap();
    let (normal, depth) = solve((&h1, p1), (&h2, p2), s).unwrap();
    assert_unit(normal);
    assert!(depth >= 0);
}

#[test]
fn reproduction_of_support_was_not_between_adjanced_vectors() {
    let h1 = Aabb::new(at(-0.75, -0.75), at(0.75, 0.75));
    let p1 = at(739.5, 814.5);
    let h2 = Circle::new(at(0.0, 0.0), fixed(0.25));
    let p2 = at(739.597, 813.5169);
    let s = Simplex::Triangle(
        at(0.67755127, -0.015686035),
        at(-1.0445557, 0.07989502),
        at(-0.86083984, -0.016540527),
    );
    let (normal, depth) = solve((&h1, p1), (&h2, p2), s).unwrap();
    assert_unit(normal);
    assert!(depth >= 0);
}
