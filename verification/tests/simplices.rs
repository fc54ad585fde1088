use kolli_desu::simplex::{Simplex, Winding};
use kolli_desu::vector::Vector;

fn v(x: i64, y: i64) -> Vector {
    Vector::new(x, y)
}

#[test]
fn add_grows_a_point_to_a_segment_and_a_segment_to_a_triangle() {
    let mut simplex = Simplex::Point(v(1, 2));
    simplex.add(v(3, 4));
    assert_eq!(simplex, Simplex::Line(v(1, 2), v(3, 4)));
    simplex.add(v(5, 6));
    assert_eq!(simplex, Simplex::Triangle(v(1, 2), v(3, 4), v(5, 6)));
}

#[test]
fn last_is_the_point_added_last() {
    assert_eq!(*Simplex::Point(v(1, 2)).last(), v(1, 2));
    assert_eq!(*Simplex::Line(v(1, 2), v(3, 4)).last(), v(3, 4));
    assert_eq!(*Simplex::Triangle(v(1, 2), v(3, 4), v(5, 6)).last(), v(5, 6));
}

#[test]
fn len_counts_the_points() {
    assert_eq!(Simplex::Point(v(1, 2)).len(), 1);
    assert_eq!(Simplex::Line(v(1, 2), v(3, 4)).len(), 2);
    assert_eq!(Simplex::Triangle(v(1, 2), v(3, 4), v(5, 6)).len(), 3);
}

#[test]
fn iter_hands_out_the_points_in_stored_order() {
    let simplex = Simplex::Triangle(v(1, 2), v(3, 4), v(5, 6));
    let mut it = simplex.iter();
    assert_eq!(it.next(), Some(v(1, 2)));
    assert_eq!(it.next(), Some(v(3, 4)));
    assert_eq!(it.next(), Some(v(5, 6)));
    assert_eq!(it.next(), None);
    assert_eq!(it.next(), None);

    let simplex = Simplex::Line(v(1, 2), v(3, 4));
    let mut it = simplex.iter();
    assert_eq!(it.next(), Some(v(1, 2)));
    assert_eq!(it.next(), Some(v(3, 4)));
    assert_eq!(it.next(), None);

    let simplex = Simplex::Point(v(1, 2));
    let mut it = simplex.iter();
    assert_eq!(it.next(), Some(v(1, 2)));
    assert_eq!(it.next(), None);
}

#[test]
fn winding_is_right_for_a_counter_clockwise_triangle() {
    assert_eq!(Simplex::Triangle(v(0, 0), v(4, 0), v(0, 4)).winding(), Winding::Right);
    assert_eq!(Simplex::Triangle(v(4, 0), v(0, 4), v(0, 0)).winding(), Winding::Right);
}

#[test]
fn winding_is_left_for_a_clockwise_triangle() {
    assert_eq!(Simplex::Triangle(v(0, 0), v(0, 4), v(4, 0)).winding(), Winding::Left);
}

#[test]
fn winding_is_left_for_a_flat_triangle() {
    assert_eq!(Simplex::Triangle(v(0, 0), v(2, 2), v(4, 4)).winding(), Winding::Left);
    assert_eq!(Simplex::Triangle(v(1, 1), v(1, 1), v(1, 1)).winding(), Winding::Left);
}
