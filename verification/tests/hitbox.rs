use kolli_desu::gjk::collides;
use kolli_desu::shapes::{Aabb, Circle, ConvexPolygon, Shape};
use kolli_desu::vector::{Point, Vector};
use nalgebra::{Isometry2, Point2, Vector2};

const TAU: f32 = 2. * ::std::f32::consts::PI;

/// The fixed-point representation of a decimal number.
fn fx(v: f32) -> i64 {
    (v as f64 * 1_000_000.0).round() as i64
}

fn vector(x: f32, y: f32) -> Vector {
    Vector::new(fx(x), fx(y))
}

fn zero() -> Point {
    vector(0., 0.)
}

fn turn(center: Point2<f32>, angle: f32) -> Point2<f32> {
    Isometry2::new(Vector2::new(0., 0.), angle) * center
}

fn assert_collides<S1: Shape, S2: Shape>(hitbox1: &S1, hitbox2: &S2) {
    for pos in [zero(), vector(1000., 1000.)] {
        assert_eq!(collides((hitbox1, pos), (hitbox2, pos)), Ok(true));
        assert_eq!(collides((hitbox2, pos), (hitbox1, pos)), Ok(true));
        assert_eq!(collides((hitbox1, pos), (hitbox1, pos)), Ok(true));
        assert_eq!(collides((hitbox2, pos), (hitbox2, pos)), Ok(true));
    }
}

fn assert_not_collides<S1: Shape, S2: Shape>(hitbox1: &S1, hitbox2: &S2) {
    for pos in [zero(), vector(1000., 1000.)] {
        assert_eq!(collides((hitbox1, pos), (hitbox2, pos)), Ok(false));
        assert_eq!(collides((hitbox2, pos), (hitbox1, pos)), Ok(false));
    }
}

#[test]
fn circle_circle_collides_multi() {
    let circle = Circle::new(vector(0., 0.), fx(0.55));
    let mut other = Circle::new(vector(1., 0.), fx(0.5));
    let mut center = Point2::new(1., 0.);
    let steps = 360;
    for _ in 0..steps {
        center = turn(center, TAU / steps as f32);
        other.center = vector(center.x, center.y);
        assert_collides(&circle, &other);
    }
}

#[test]
fn circle_circle_doesnt_collide_multi() {
    let circle = Circle::new(vector(0., 0.), fx(0.45));
    let mut other = Circle::new(vector(1., 0.), fx(0.5));
    let mut center = Point2::new(1., 0.);
    let steps = 360;
    for _ in 0..steps {
        center = turn(center, TAU / steps as f32);
        other.center = vector(center.x, center.y);
        assert_not_collides(&circle, &other);
    }
}

#[test]
fn circle_aabb_collides_multi() {
    let aabb = Aabb::new(vector(-0.5, -0.5), vector(0.5, 0.5));
    let mut other = Circle::new(vector(1., 0.), fx(0.55));
    let mut center = Point2::new(1., 0.);
    let steps = 360;
    for _ in 0..steps {
        center = turn(center, TAU / steps as f32);
        other.center = vector(center.x, center.y);
        assert_collides(&aabb, &other);
    }
}

#[test]
fn circlee_aabb_doesnt_collide_multi() {
    let aabb = Aabb::new(vector(-0.5, -0.5), vector(0.5, 0.5));
    let mut other = Circle::new(vector(1., 0.), fx(0.28));
    let mut center = Point2::new(1., 0.);
    let steps = 360;
    for _ in 0..steps {
        center = turn(center, TAU / steps as f32);
        other.center = vector(center.x, center.y);
        assert_not_collides(&aabb, &other);
    }
}

#[test]
fn circle_circle_offset_non_collision() {
    let circle = Circle::new(vector(0., 0.), fx(1.));
    assert_eq!(collides((&circle, zero()), (&circle, vector(1000., 1000.))), Ok(false));
}

#[test]
fn circle_circle_non_collision() {
    assert_eq!(
        collides(
            (&Circle::new(vector(-1., 0.), fx(0.9)), vector(0., 0.)),
            (&Circle::new(vector(1., 0.), fx(0.9)), vector(0., 0.)),
        ),
        Ok(false)
    );
}

#[test]
fn circle_aabb_offset_non_collision() {
    let circle = Circle::new(vector(0., 0.), fx(1.));
    let aabb = Aabb::new(vector(-0.5, -0.5), vector(0.5, 0.5));
    assert_eq!(collides((&circle, zero()), (&aabb, vector(1000., 1000.))), Ok(false));
    assert_eq!(collides((&circle, vector(1000., 1000.)), (&aabb, zero())), Ok(false));
}

#[test]
fn aabb_aabb_offset_non_collision() {
    let aabb = Aabb::new(vector(-0.5, -0.5), vector(0.5, 0.5));
    assert_eq!(collides((&aabb, zero()), (&aabb, vector(1000., 1000.))), Ok(false));
}

#[test]
fn rectangle_rectangle_offset_non_collision() {
    let rectangle = ConvexPolygon::new_rectangle(vector(0., 0.), vector(1., 0.), fx(1.));
    assert_eq!(collides((&rectangle, zero()), (&rectangle, vector(1000., 1000.))), Ok(false));
}

#[test]
fn circle_circle_collision() {
    let circle1 = Circle::new(vector(0., 0.), fx(1.));
    let circle2 = Circle::new(vector(1.9, 0.), fx(1.));
    let circle3 = Circle::new(vector(2., 2.), fx(1.));

    assert_collides(&circle1, &circle2);

    assert_not_collides(&circle1, &circle3);
    assert_not_collides(&circle2, &circle3);
}
