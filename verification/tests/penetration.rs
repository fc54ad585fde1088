use kolli_desu::epa::{
    find_closest_edge, is_convex, perp, solve, solve_internal, EpaError, MAX_EXPANSIONS, TOLERANCE,
};
use kolli_desu::gjk::{collides, collides_internal};
use kolli_desu::shapes::{support, Aabb, Circle, ConvexPolygon, Shape};
use kolli_desu::simplex::{Simplex, Winding};
use kolli_desu::vector::{Vector, ONE};

fn v(x: i64, y: i64) -> Vector {
    Vector::new(x, y)
}

fn unit_box() -> Aabb {
    Aabb::new(v(-ONE / 2, -ONE / 2), v(ONE / 2, ONE / 2))
}

#[test]
fn tolerance_is_a_hundred_thousandth() {
    assert_eq!(TOLERANCE * 100_000, ONE);
}

#[test]
fn perp_names_the_side() {
    assert_eq!(perp(v(3, 4), Winding::Right), v(4, -3));
    assert_eq!(perp(v(3, 4), Winding::Left), v(-4, 3));
    assert_eq!(perp(v(0, 0), Winding::Left), v(0, 0));
}

#[test]
fn is_convex_accepts_polygons_that_turn_one_way() {
    assert!(is_convex(&vec![v(0, 0), v(4, 0), v(4, 4), v(0, 4)]));
    assert!(is_convex(&vec![v(0, 0), v(0, 4), v(4, 4), v(4, 0)]));
    assert!(is_convex(&vec![v(0, 0), v(2, 0), v(4, 0), v(4, 4)]));
    assert!(is_convex(&vec![v(0, 0), v(4, 0)]));
    assert!(is_convex(&vec![v(1, 1)]));
    assert!(is_convex(&vec![]));
}

#[test]
fn is_convex_rejects_a_dent() {
    assert!(!is_convex(&vec![v(0, 0), v(4, 0), v(1, 1), v(0, 4)]));
    assert!(!is_convex(&vec![v(0, 0), v(4, 0), v(4, 4), v(3, 1), v(0, 4)]));
}

#[test]
fn is_convex_rejects_a_dent_after_a_flat_corner() {
    assert!(!is_convex(&vec![v(0, 0), v(2, 0), v(4, 0), v(4, 4), v(3, 1), v(0, 4)]));
    assert!(is_convex(&vec![v(0, 0), v(2, 0), v(4, 0), v(4, 4), v(0, 4)]));
}

#[test]
fn find_closest_edge_takes_the_nearest_open_edge() {
    let b = unit_box();
    // The Minkowski difference is the box from (-1.75, -1) to (0.25, 1).
    let ring = vec![v(-1_750_000, -ONE), v(250_000, -ONE), v(250_000, ONE)];
    let edge = find_closest_edge(&ring, Winding::Right, (&b, v(0, 0)), (&b, v(750_000, 0))).unwrap();
    assert_eq!(edge.distance, 250_000);
    assert_eq!(edge.normal, v(ONE, 0));
    assert_eq!(edge.outward, v(2 * ONE, 0));
    assert_eq!(edge.index, 2);
}

#[test]
fn find_closest_edge_takes_the_first_of_equals() {
    let b = unit_box();
    // The Minkowski difference is the box from (-1, -1) to (1, 1).
    let ring = vec![v(-ONE, -ONE), v(ONE, -ONE), v(ONE, ONE), v(-ONE, ONE)];
    let edge = find_closest_edge(&ring, Winding::Right, (&b, v(0, 0)), (&b, v(0, 0))).unwrap();
    assert_eq!(edge.distance, ONE);
    assert_eq!(edge.normal, v(0, -ONE));
    assert_eq!(edge.outward, v(0, -2 * ONE));
    assert_eq!(edge.index, 1);
}

#[test]
fn find_closest_edge_wraps_around() {
    let b = unit_box();
    let ring = vec![v(250_000, ONE), v(-1_750_000, -ONE), v(250_000, -ONE)];
    let edge = find_closest_edge(&ring, Winding::Right, (&b, v(0, 0)), (&b, v(750_000, 0))).unwrap();
    assert_eq!(edge.distance, 250_000);
    assert_eq!(edge.normal, v(ONE, 0));
    assert_eq!(edge.index, 0);
}

#[test]
fn find_closest_edge_names_the_last_edge_by_the_first_index() {
    let b = Aabb::new(v(-ONE, -ONE), v(ONE, ONE));
    let ring = vec![v(2 * ONE, 2 * ONE), v(-2 * ONE, 2 * ONE), v(-2 * ONE, -2 * ONE)];
    let edge = find_closest_edge(&ring, Winding::Right, (&b, v(0, 0)), (&b, v(0, 0))).unwrap();
    assert_eq!(edge.distance, 0);
    assert_eq!(edge.index, 0);
    assert_eq!(edge.normal, v(707_106, -707_106));
    assert_eq!(edge.outward, v(4 * ONE, -4 * ONE));
    assert!(edge.index < ring.len());
}

#[test]
fn find_closest_edge_skips_edges_without_length() {
    let b = unit_box();
    let ring = vec![v(5, 5), v(5, 5), v(5, 5)];
    assert!(find_closest_edge(&ring, Winding::Right, (&b, v(0, 0)), (&b, v(0, 0))).is_none());
    let empty: Vec<Vector> = vec![];
    assert!(find_closest_edge(&empty, Winding::Right, (&b, v(0, 0)), (&b, v(0, 0))).is_none());
}

#[test]
fn overlapping_boxes_are_pushed_apart_along_the_shallow_axis() {
    let b = unit_box();
    let (_, simplex) = collides_internal((&b, v(0, 0)), (&b, v(750_000, 0))).unwrap();
    assert_eq!(solve((&b, v(0, 0)), (&b, v(750_000, 0)), simplex).unwrap(), (v(ONE, 0), 250_000));

    let (_, simplex) = collides_internal((&b, v(0, 0)), (&b, v(750_000, 100_000))).unwrap();
    assert_eq!(
        solve((&b, v(0, 0)), (&b, v(750_000, 100_000)), simplex).unwrap(),
        (v(ONE, 0), 250_000)
    );

    let (_, simplex) = collides_internal((&b, v(0, 0)), (&b, v(0, -900_000))).unwrap();
    assert_eq!(solve((&b, v(0, 0)), (&b, v(0, -900_000)), simplex).unwrap(), (v(0, -ONE), 100_000));
}

#[test]
fn touching_boxes_have_no_depth() {
    let b = unit_box();
    for (pos, normal) in [(v(ONE, 0), v(ONE, 0)), (v(ONE, ONE), v(ONE, 0)), (v(0, -ONE), v(0, -ONE))] {
        let (verdict, simplex) = collides_internal((&b, v(0, 0)), (&b, pos)).unwrap();
        assert!(verdict);
        assert_eq!(solve((&b, v(0, 0)), (&b, pos), simplex).unwrap(), (normal, 0));
    }
}

#[test]
fn a_point_on_the_boundary_of_a_triangle_has_no_depth() {
    let triangle = ConvexPolygon::new(vec![v(0, 0), v(4 * ONE, 0), v(0, 4 * ONE)]);
    for (point, normal) in [
        (v(2 * ONE, 2 * ONE), v(707_106, 707_106)),
        (v(0, 0), v(0, -ONE)),
        (v(ONE, 0), v(0, -ONE)),
    ] {
        let (verdict, simplex) = collides_internal((&triangle, v(0, 0)), (&point, v(0, 0))).unwrap();
        assert!(verdict);
        assert_eq!(solve((&triangle, v(0, 0)), (&point, v(0, 0)), simplex).unwrap(), (normal, 0));
    }
}

#[test]
fn touching_circles_have_next_to_no_depth() {
    let circle = Circle::new(v(0, 0), ONE / 2);
    for pos in [v(ONE, 0), v(0, ONE), v(600_000, 800_000)] {
        let (verdict, simplex) = collides_internal((&circle, v(0, 0)), (&circle, pos)).unwrap();
        assert!(verdict);
        let (normal, depth) = solve((&circle, v(0, 0)), (&circle, pos), simplex).unwrap();
        assert!(0 <= depth && depth < TOLERANCE);
        assert!((normal.x - pos.x).abs() < 5000 && (normal.y - pos.y).abs() < 5000);
    }
}

#[test]
fn a_point_in_a_triangle_is_pushed_to_the_nearest_side() {
    let triangle = ConvexPolygon::new(vec![v(0, 0), v(4 * ONE, 0), v(0, 4 * ONE)]);
    let point = v(ONE, ONE);
    let (_, simplex) = collides_internal((&triangle, v(0, 0)), (&point, v(0, 0))).unwrap();
    assert_eq!(
        solve((&triangle, v(0, 0)), (&point, v(0, 0)), simplex).unwrap(),
        (v(0, -ONE), ONE)
    );
}

#[test]
fn a_circle_in_a_box_is_pushed_out_sideways() {
    let circle = Circle::new(v(0, 0), ONE / 2);
    let b = unit_box();
    let (_, simplex) = collides_internal((&circle, v(0, 0)), (&b, v(900_000, 0))).unwrap();
    assert_eq!(
        solve((&circle, v(0, 0)), (&b, v(900_000, 0)), simplex).unwrap(),
        (v(999_999, 0), 99_999)
    );
}

#[test]
fn solve_internal_hands_back_the_polygon() {
    let b = unit_box();
    let simplex = Simplex::Line(v(-1_750_000, 0), v(250_000, 0));
    let (normal, depth, polytope) =
        solve_internal((&b, v(0, 0)), (&b, v(750_000, 0)), simplex).unwrap();
    assert_eq!(normal, v(ONE, 0));
    assert_eq!(depth, 250_000);
    assert_eq!(
        polytope,
        vec![
            v(-1_750_000, 0),
            v(-750_000, -ONE),
            v(250_000, -ONE),
            v(250_000, 0),
            v(250_000, ONE),
            v(-750_000, ONE)
        ]
    );
    assert!(is_convex(&polytope));
}

#[test]
fn a_polygon_without_open_edges_gives_no_edge() {
    let b = unit_box();
    let simplex = Simplex::Triangle(v(5, 5), v(5, 5), v(5, 5));
    match solve_internal((&b, v(0, 0)), (&b, v(0, 0)), simplex) {
        Err(EpaError::NoEdge { polytope }) => assert_eq!(polytope, vec![v(5, 5), v(5, 5), v(5, 5)]),
        other => panic!("{:?}", other),
    }
    let a = Aabb::new(v(-750_000, -750_000), v(750_000, 750_000));
    let c = Circle::new(v(0, 0), 250_000);
    let simplex = Simplex::Triangle(v(852_590, -712_846), v(718_154, -97_131), v(811_906, 153_894));
    assert!(matches!(
        solve((&a, v(0, 0)), (&c, v(152_259, -417_330)), simplex),
        Err(EpaError::NoEdge { .. })
    ));
}

#[test]
fn a_polygon_that_grows_a_dent_gives_not_convex() {
    let a = Aabb::new(v(-750_000, -750_000), v(750_000, 750_000));
    let c = Circle::new(v(0, 0), 250_000);
    let simplex = Simplex::Triangle(v(-233_095, 222_195), v(-878_368, 907_787), v(64_169, -549_746));
    match solve_internal((&a, v(0, 0)), (&c, v(123_826, -802_595)), simplex) {
        Err(EpaError::NotConvex { polytope }) => {
            assert_eq!(
                polytope,
                vec![
                    v(859_473, 1_642_435),
                    v(-233_095, 222_195),
                    v(-878_368, 907_787),
                    v(64_169, -549_746)
                ]
            );
            assert!(!is_convex(&polytope));
        }
        other => panic!("{:?}", other),
    }
}

#[test]
fn a_run_that_does_not_converge_ends_at_the_iteration_limit() {
    let big = Circle::new(v(0, 0), 10 * ONE);
    let (verdict, simplex) = collides_internal((&big, v(0, 0)), (&big, v(0, 0))).unwrap();
    assert!(verdict);
    match solve_internal((&big, v(0, 0)), (&big, v(0, 0)), simplex) {
        Err(EpaError::IterationLimit { normal, depth, polytope }) => {
            assert_eq!(polytope.len(), 3 + MAX_EXPANSIONS);
            assert_eq!((normal, depth), (v(166_426, -986_053), 19_999_998));
        }
        other => panic!("{:?}", other.map(|found| (found.0, found.1))),
    }
}

#[test]
fn an_answer_after_a_search_has_a_unit_normal_and_a_depth_that_is_not_negative() {
    let circle = Circle::new(v(0, 0), 400_000);
    let square = unit_box();
    let mut solved = 0;
    for x in -12..=12 {
        for y in -12..=12 {
            let pos = v(x * 100_000 + 7, y * 100_000 + 13);
            let (verdict, simplex) = collides_internal((&circle, pos), (&square, v(0, 0))).unwrap();
            if verdict {
                let (normal, depth) = solve((&circle, pos), (&square, v(0, 0)), simplex).unwrap();
                let length_sq = normal.x * normal.x + normal.y * normal.y;
                assert!(length_sq <= ONE * ONE);
                assert!((normal.x.abs() + 2).pow(2) + (normal.y.abs() + 2).pow(2) > ONE * ONE);
                assert!(depth >= 0);
                solved += 1;
            }
        }
    }
    assert!(solved > 200);
}

#[test]
fn moving_the_first_shape_against_the_normal_by_the_depth_separates() {
    let circle = Circle::new(v(0, 0), 400_000);
    let square = unit_box();
    let mut separated = 0;
    for x in -12..=12 {
        for y in -12..=12 {
            let pos = v(x * 100_000 + 7, y * 100_000 + 13);
            let (verdict, simplex) = collides_internal((&circle, pos), (&square, v(0, 0))).unwrap();
            if verdict {
                let (normal, depth) = solve((&circle, pos), (&square, v(0, 0)), simplex).unwrap();
                let by = |component: i64| -(component * (depth + 3)).div_euclid(ONE) - component.signum();
                let moved = v(pos.x + by(normal.x), pos.y + by(normal.y));
                assert_eq!(collides((&circle, moved), (&square, v(0, 0))), Ok(false));
                separated += 1;
            }
        }
    }
    assert!(separated > 200);
}

/// The least distance, over directions a degree apart, at which the
/// Minkowski difference of two placed shapes ends.
fn least_way_out<S1: Shape, S2: Shape>(a: (&S1, Vector), b: (&S2, Vector)) -> i64 {
    (0..360)
        .map(|degrees| {
            let angle = (degrees as f64).to_radians();
            let d = v((1e6 * angle.cos()).round() as i64, (1e6 * angle.sin()).round() as i64);
            d.projection(support(a, b, d))
        })
        .min()
        .unwrap()
}

#[test]
fn no_direction_offers_a_way_out_shorter_than_the_depth() {
    let circle = Circle::new(v(0, 0), 400_000);
    let square = unit_box();
    let kite = ConvexPolygon::new(vec![v(0, -700_000), v(300_000, 0), v(0, 900_000), v(-500_000, 0)]);
    let mut solved = 0;
    for x in -9..=9 {
        for y in -9..=9 {
            let pos = v(x * 130_000 + 7, y * 130_000 + 13);
            let (verdict, simplex) = collides_internal((&circle, pos), (&square, v(0, 0))).unwrap();
            if verdict {
                let (_, depth) = solve((&circle, pos), (&square, v(0, 0)), simplex).unwrap();
                assert!(least_way_out((&circle, pos), (&square, v(0, 0))) >= depth - TOLERANCE - 2);
                solved += 1;
            }
            let (verdict, simplex) = collides_internal((&kite, pos), (&square, v(0, 0))).unwrap();
            if verdict {
                let (_, depth) = solve((&kite, pos), (&square, v(0, 0)), simplex).unwrap();
                assert!(least_way_out((&kite, pos), (&square, v(0, 0))) >= depth - TOLERANCE - 2);
                solved += 1;
            }
            let (verdict, simplex) = collides_internal((&kite, pos), (&circle, v(0, 0))).unwrap();
            if verdict {
                let (_, depth) = solve((&kite, pos), (&circle, v(0, 0)), simplex).unwrap();
                assert!(least_way_out((&kite, pos), (&circle, v(0, 0))) >= depth - TOLERANCE - 2);
                solved += 1;
            }
        }
    }
    assert!(solved > 300);
}

#[test]
fn the_polygon_of_an_answer_is_convex() {
    let circle = Circle::new(v(0, 0), 400_000);
    let square = unit_box();
    for x in -9..=9 {
        let pos = v(x * 130_000 + 7, 300_013);
        let (verdict, simplex) = collides_internal((&circle, pos), (&square, v(0, 0))).unwrap();
        if verdict {
            let (_, _, polytope) = solve_internal((&circle, pos), (&square, v(0, 0)), simplex).unwrap();
            assert!(polytope.len() >= 3);
            assert!(is_convex(&polytope));
        }
    }
}

#[test]
fn runs_between_boxes_and_polygons_end_with_an_answer() {
    let square = unit_box();
    let kite = ConvexPolygon::new(vec![v(0, -700_000), v(300_000, 0), v(0, 900_000), v(-500_000, 0)]);
    let sliver = ConvexPolygon::new(vec![v(-900_000, 10), v(900_000, 0), v(-900_000, -10)]);
    let point = v(3, 4);
    let mut solved = 0;
    for x in -15..=15 {
        for y in -15..=15 {
            let pos = v(x * 97_001, y * 89_003);
            for found in [
                collides_internal((&kite, pos), (&square, v(1, 2)))
                    .map(|(verdict, simplex)| (verdict, solve((&kite, pos), (&square, v(1, 2)), simplex))),
                collides_internal((&sliver, pos), (&kite, v(1, 2)))
                    .map(|(verdict, simplex)| (verdict, solve((&sliver, pos), (&kite, v(1, 2)), simplex))),
                collides_internal((&square, pos), (&point, v(1, 2)))
                    .map(|(verdict, simplex)| (verdict, solve((&square, pos), (&point, v(1, 2)), simplex))),
            ] {
                let (verdict, answer) = found.unwrap();
                if verdict {
                    let (_, depth) = answer.unwrap();
                    assert!(depth >= 0);
                    solved += 1;
                }
            }
        }
    }
    assert!(solved > 300);
}
