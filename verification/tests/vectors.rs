use kolli_desu::numeric::{ceil_sqrt_u128, trunc_div_i128};
use kolli_desu::vector::{det, Perp, Vector, ONE};

#[test]
fn one_stands_for_a_million() {
    assert_eq!(ONE, 1_000_000);
}

#[test]
fn new_keeps_the_components() {
    let v = Vector::new(3, -4);
    assert_eq!(v.x, 3);
    assert_eq!(v.y, -4);
    assert_eq!(Vector::zero(), Vector::new(0, 0));
}

#[test]
fn is_zero_only_for_the_zero_vector() {
    assert!(Vector::new(0, 0).is_zero());
    assert!(!Vector::new(0, 1).is_zero());
    assert!(!Vector::new(-1, 0).is_zero());
}

#[test]
fn is_within_includes_the_bound() {
    assert!(Vector::new(5, -5).is_within(5));
    assert!(!Vector::new(6, 0).is_within(5));
    assert!(!Vector::new(0, -6).is_within(5));
    assert!(Vector::new(0, 0).is_within(0));
    assert!(!Vector::new(0, 0).is_within(-1));
}

#[test]
fn plus_minus_and_neg() {
    let a = Vector::new(3, -4);
    let b = Vector::new(-10, 7);
    assert_eq!(a.plus(b), Vector::new(-7, 3));
    assert_eq!(a.minus(b), Vector::new(13, -11));
    assert_eq!(a.neg(), Vector::new(-3, 4));
}

#[test]
fn dot_and_cross() {
    let a = Vector::new(3, -4);
    let b = Vector::new(-10, 7);
    assert_eq!(a.dot(b), -58);
    assert_eq!(a.cross(b), 3 * 7 - (-4) * (-10));
    assert_eq!(b.cross(a), 19);
    assert_eq!(a.cross(a), 0);
}

#[test]
fn dot_of_large_vectors_is_exact() {
    let a = Vector::new(9_000_000_000_000_000_000, -9_000_000_000_000_000_000);
    assert_eq!(a.dot(a), 162_000_000_000_000_000_000_000_000_000_000_000_000);
}

#[test]
fn perpendicular_is_a_quarter_turn_counter_clockwise() {
    assert_eq!(Vector::new(1, 0).perpendicular(), Vector::new(0, 1));
    assert_eq!(Vector::new(0, 1).perpendicular(), Vector::new(-1, 0));
    assert_eq!(Vector::new(3, -4).perpendicular(), Vector::new(4, 3));
}

#[test]
fn det_is_the_orientation_against_a_ray() {
    let a = Vector::new(1, 1);
    let b = Vector::new(5, 1);
    assert_eq!(det(a, b, Vector::new(3, 4)), -12);
    assert_eq!(det(a, b, Vector::new(3, -2)), 12);
    assert_eq!(det(a, b, Vector::new(9, 1)), 0);
}

#[test]
fn with_length_keeps_the_direction() {
    assert_eq!(Vector::new(3, 4).with_length(10), Vector::new(6, 8));
    assert_eq!(Vector::new(3, 4).with_length(-10), Vector::new(-6, -8));
    assert_eq!(Vector::new(-300, 400).with_length(5), Vector::new(-3, 4));
    assert_eq!(Vector::new(0, -7).with_length(ONE), Vector::new(0, -ONE));
}

#[test]
fn with_length_rounds_toward_zero() {
    assert_eq!(Vector::new(1, 1).with_length(ONE), Vector::new(707_106, 707_106));
    assert_eq!(Vector::new(-1, 1).with_length(ONE), Vector::new(-707_106, 707_106));
}

#[test]
fn with_length_leaves_the_zero_vector() {
    assert_eq!(Vector::new(0, 0).with_length(ONE), Vector::new(0, 0));
}

#[test]
fn projection_is_the_signed_length_along_the_direction() {
    assert_eq!(Vector::new(3, 4).projection(Vector::new(10, 0)), 6);
    assert_eq!(Vector::new(3, 4).projection(Vector::new(-10, 0)), -6);
    assert_eq!(Vector::new(1, 1).projection(Vector::new(ONE, 0)), 707_106);
    assert_eq!(Vector::new(0, 5).projection(Vector::new(123, 0)), 0);
}

#[test]
fn ceil_sqrt_rounds_up() {
    assert_eq!(ceil_sqrt_u128(0), 0);
    assert_eq!(ceil_sqrt_u128(1), 1);
    assert_eq!(ceil_sqrt_u128(2), 2);
    assert_eq!(ceil_sqrt_u128(4), 2);
    assert_eq!(ceil_sqrt_u128(5), 3);
    assert_eq!(ceil_sqrt_u128(1_000_000_000_000_000_000_000_000_000_000), 1_000_000_000_000_000);
    assert_eq!(ceil_sqrt_u128(1 << 126), 1 << 63);
}

#[test]
fn trunc_div_rounds_toward_zero() {
    assert_eq!(trunc_div_i128(7, 2), 3);
    assert_eq!(trunc_div_i128(-7, 2), -3);
    assert_eq!(trunc_div_i128(-1, 5), 0);
    assert_eq!(trunc_div_i128(0, 5), 0);
    assert_eq!(trunc_div_i128(10, 5), 2);
}
