//! How near the answer of the penetration solver comes to the least way
//! out: along no direction does the Minkowski difference end nearer to the
//! origin than the nearest edge of the polygon of the solver.

use crate::algebra::lemma_mul_dist;
use crate::epa::{
    closest_edge, completed, edge_distance, edge_normal, epa_spec, is_first_closest,
    lemma_epa_sound, outcome_is_sound, polytope_of, EpaOutcome, MAX_EXPANSIONS, TOLERANCE,
};
use crate::gjk::{gjk_spec, lemma_gjk_sound};
use crate::guard::{lemma_edge_is_open, lemma_run_answers, overlaps_strictly};
use crate::numeric::{lemma_trunc_div_reach, ROOT_SHIFT};
use crate::overlap::{are_support_points, is_support_point, lemma_support_inside};
use crate::polygon::{
    edge_reach, holds_origin_inside, is_well_turned, lemma_edges_have_length,
    lemma_polygon_reach, lemma_triangle_is_well_turned,
};
use crate::rounding::lemma_scaled_norm_positive;
use crate::shapes::{is_exact, support_spec, Shape};
use crate::simplex::{outward, winding_of, Winding};
use crate::vector::Vec2;
use vstd::prelude::*;

verus! {

/// The corners of the triangle from which a run sets out are support
/// points, where the points of the simplex are and the triangle is not
/// flat; and so are the corners of the polygon at which it ends.
proof fn lemma_polytope_points<S1: Shape, S2: Shape>(
    a: &S1,
    a_pos: Vec2,
    b: &S2,
    b_pos: Vec2,
    simplex: Seq<Vec2>,
)
    requires
        2 <= simplex.len() <= 3,
        are_support_points(a, a_pos, b, b_pos, simplex),
        ({
            let triangle = completed(a, a_pos, b, b_pos, simplex);
            triangle[1].minus(triangle[0]).cross(triangle[2].minus(triangle[1])) != 0
        }),
    ensures
        are_support_points(a, a_pos, b, b_pos, completed(a, a_pos, b, b_pos, simplex)),
        are_support_points(
            a,
            a_pos,
            b,
            b_pos,
            polytope_of(epa_spec(a, a_pos, b, b_pos, simplex)),
        ),
{
    let triangle = completed(a, a_pos, b, b_pos, simplex);
    let polytope = polytope_of(epa_spec(a, a_pos, b, b_pos, simplex));
    assert forall|k: int| 0 <= k < triangle.len() implies is_support_point(
        a,
        a_pos,
        b,
        b_pos,
        #[trigger] triangle[k],
    ) by {
        if k < simplex.len() {
            assert(triangle[k] == simplex[k]);
            assert(is_support_point(a, a_pos, b, b_pos, simplex[k]));
        } else {
            let side = simplex[1].minus(simplex[0]);
            let along = outward(side, Winding::Left);
            assert(side != Vec2::zero()) by {
                if side == Vec2::zero() {
                    assert(side.cross(triangle[2].minus(triangle[1])) == 0) by (nonlinear_arith)
                        requires
                            side == Vec2::zero(),
                    ;
                }
            }
            assert(along != Vec2::zero());
            assert(triangle[k] == support_spec(a, a_pos, b, b_pos, along));
        }
    }
    lemma_epa_sound(a, a_pos, b, b_pos, simplex);
    assert forall|v: int| 0 <= v < polytope.len() implies is_support_point(
        a,
        a_pos,
        b,
        b_pos,
        #[trigger] polytope[v],
    ) by {
        if triangle.contains(polytope[v]) {
            let k = choose|k: int| 0 <= k < triangle.len() && triangle[k] == polytope[v];
            assert(is_support_point(a, a_pos, b, b_pos, triangle[k]));
        }
    }
}

/// Along no direction does the Minkowski difference of two valid shapes end
/// nearer to the origin than the nearest edge of the polygon of the
/// solver.
///
/// The run sets out from a simplex of support points whose triangle is not
/// flat, and does not end because its polygon stops being convex. Where
/// every edge of the polygon at which it ends lies at a distance of `delta`
/// or more from the origin, the support point along any direction `d` lies,
/// up to the slack of the two shapes and the rounding of the length of
/// `d`, at a distance of `delta` or more along `d`.
pub proof fn lemma_no_shorter_way_out<S1: Shape, S2: Shape>(
    a: &S1,
    a_pos: Vec2,
    b: &S2,
    b_pos: Vec2,
    simplex: Seq<Vec2>,
    d: Vec2,
    delta: int,
)
    requires
        a.wf(),
        b.wf(),
        2 <= simplex.len() <= 3,
        are_support_points(a, a_pos, b, b_pos, simplex),
        ({
            let triangle = completed(a, a_pos, b, b_pos, simplex);
            triangle[1].minus(triangle[0]).cross(triangle[2].minus(triangle[1])) != 0
        }),
        !(epa_spec(a, a_pos, b, b_pos, simplex) is NotConvex),
        d != Vec2::zero(),
        delta >= 1,
        ({
            let triangle = completed(a, a_pos, b, b_pos, simplex);
            let winding = winding_of(triangle[0], triangle[1], triangle[2]);
            let polytope = polytope_of(epa_spec(a, a_pos, b, b_pos, simplex));
            forall|j: int|
                0 <= j < polytope.len() ==> #[trigger] edge_distance(polytope, winding, j) >= delta
        }),
    ensures
        (support_spec(a, a_pos, b, b_pos, d).dot(d) + (a.slack() + b.slack()) * d.norm1())
            * ROOT_SHIFT >= delta * (d.scaled_norm() - 1),
{
    let triangle = completed(a, a_pos, b, b_pos, simplex);
    let winding = winding_of(triangle[0], triangle[1], triangle[2]);
    let outcome = epa_spec(a, a_pos, b, b_pos, simplex);
    let polytope = polytope_of(outcome);
    assert(triangle.len() == 3);
    lemma_epa_sound(a, a_pos, b, b_pos, simplex);
    assert(outcome_is_sound(a, a_pos, b, b_pos, simplex, outcome));
    let v = lemma_polygon_reach(polytope, winding, d, delta);
    lemma_polytope_points(a, a_pos, b, b_pos, simplex);
    assert(is_support_point(a, a_pos, b, b_pos, polytope[v]));
    let e = choose|e: Vec2|
        e != Vec2::zero() && polytope[v] == #[trigger] support_spec(a, a_pos, b, b_pos, e);
    lemma_support_inside(a, a_pos, b, b_pos, e, d);
    let far = support_spec(a, a_pos, b, b_pos, d).dot(d) + (a.slack() + b.slack()) * d.norm1();
    assert(polytope[v].dot(d) * ROOT_SHIFT <= far * ROOT_SHIFT) by (nonlinear_arith)
        requires
            polytope[v].dot(d) <= far,
    ;
}

/// The answer of the solver is, within the tolerance, the least way out,
/// where no edge of its polygon lies nearer to the origin than the edge
/// from which the answer was read.
///
/// The run sets out from a simplex of support points whose triangle is not
/// flat. Where it answers with a depth of at least [`TOLERANCE`], the
/// support point along any direction `d` lies, up to the slack of the two
/// shapes and the rounding of the length of `d`, at a distance along `d` of
/// more than the depth less the tolerance.
pub proof fn lemma_answer_is_least<S1: Shape, S2: Shape>(
    a: &S1,
    a_pos: Vec2,
    b: &S2,
    b_pos: Vec2,
    simplex: Seq<Vec2>,
    d: Vec2,
)
    requires
        a.wf(),
        b.wf(),
        2 <= simplex.len() <= 3,
        are_support_points(a, a_pos, b, b_pos, simplex),
        ({
            let triangle = completed(a, a_pos, b, b_pos, simplex);
            triangle[1].minus(triangle[0]).cross(triangle[2].minus(triangle[1])) != 0
        }),
        d != Vec2::zero(),
        epa_spec(a, a_pos, b, b_pos, simplex) matches EpaOutcome::Solved { depth, polytope, .. }
            && depth >= TOLERANCE && ({
            let triangle = completed(a, a_pos, b, b_pos, simplex);
            let winding = winding_of(triangle[0], triangle[1], triangle[2]);
            forall|j: int|
                0 <= j < polytope.len() ==> #[trigger] edge_distance(polytope, winding, j) > depth
                    - TOLERANCE
        }),
    ensures
        epa_spec(a, a_pos, b, b_pos, simplex) matches EpaOutcome::Solved { depth, .. } && (
        support_spec(a, a_pos, b, b_pos, d).dot(d) + (a.slack() + b.slack()) * d.norm1())
            * ROOT_SHIFT >= (depth - TOLERANCE + 1) * (d.scaled_norm() - 1),
{
    let outcome = epa_spec(a, a_pos, b, b_pos, simplex);
    match outcome {
        EpaOutcome::Solved { depth, .. } => {
            lemma_no_shorter_way_out(a, a_pos, b, b_pos, simplex, d, depth - TOLERANCE + 1);
        },
        _ => {},
    }
}

/// After a search that ends at a triangle, the answer of the solver is,
/// within the tolerance, the least way out, where no edge of its polygon
/// lies nearer to the origin than the edge from which the answer was read.
pub proof fn lemma_answer_after_search_is_least<S1: Shape, S2: Shape>(
    a: &S1,
    a_pos: Vec2,
    b: &S2,
    b_pos: Vec2,
    simplex: Seq<Vec2>,
    d: Vec2,
)
    requires
        a.wf(),
        b.wf(),
        gjk_spec(a, a_pos, b, b_pos) == Some((true, simplex)),
        simplex.len() == 3,
        d != Vec2::zero(),
        epa_spec(a, a_pos, b, b_pos, simplex) matches EpaOutcome::Solved { depth, polytope, .. }
            && depth >= TOLERANCE && (forall|j: int|
            0 <= j < polytope.len() ==> #[trigger] edge_distance(
                polytope,
                winding_of(simplex[0], simplex[1], simplex[2]),
                j,
            ) > depth - TOLERANCE),
    ensures
        epa_spec(a, a_pos, b, b_pos, simplex) matches EpaOutcome::Solved { depth, .. } && (
        support_spec(a, a_pos, b, b_pos, d).dot(d) + (a.slack() + b.slack()) * d.norm1())
            * ROOT_SHIFT >= (depth - TOLERANCE + 1) * (d.scaled_norm() - 1),
{
    lemma_gjk_sound(a, a_pos, b, b_pos);
    assert(completed(a, a_pos, b, b_pos, simplex) == simplex);
    lemma_answer_is_least(a, a_pos, b, b_pos, simplex, d);
}

/// Between shapes with exact support mappings, the answer of the solver
/// is, within the tolerance, the least way out, where the triangle from
/// which the run sets out holds the origin at a distance of one or more
/// from each of its edges.
///
/// The run sets out from a simplex of support points. Where it answers with
/// a depth of at least [`TOLERANCE`], the support point along any direction
/// `d` lies, up to the rounding of the length of `d`, at a distance along
/// `d` of more than the depth less the tolerance.
pub proof fn lemma_exact_answer_is_least<S1: Shape, S2: Shape>(
    a: &S1,
    a_pos: Vec2,
    b: &S2,
    b_pos: Vec2,
    simplex: Seq<Vec2>,
    d: Vec2,
)
    requires
        a.wf(),
        b.wf(),
        is_exact(a),
        is_exact(b),
        2 <= simplex.len() <= 3,
        are_support_points(a, a_pos, b, b_pos, simplex),
        ({
            let triangle = completed(a, a_pos, b, b_pos, simplex);
            let winding = winding_of(triangle[0], triangle[1], triangle[2]);
            &&& triangle[1].minus(triangle[0]).cross(triangle[2].minus(triangle[1])) != 0
            &&& forall|j: int| 0 <= j < 3 ==> #[trigger] edge_distance(triangle, winding, j) >= 1
        }),
        d != Vec2::zero(),
        epa_spec(a, a_pos, b, b_pos, simplex) matches EpaOutcome::Solved { depth, .. } && depth
            >= TOLERANCE,
    ensures
        epa_spec(a, a_pos, b, b_pos, simplex) matches EpaOutcome::Solved { depth, .. }
            && support_spec(a, a_pos, b, b_pos, d).dot(d) * ROOT_SHIFT >= (depth - TOLERANCE + 1)
            * (d.scaled_norm() - 1),
{
    let triangle = completed(a, a_pos, b, b_pos, simplex);
    let winding = winding_of(triangle[0], triangle[1], triangle[2]);
    let outcome = epa_spec(a, a_pos, b, b_pos, simplex);
    let polytope = polytope_of(outcome);
    assert(triangle.len() == 3);
    assert(triangle =~= seq![triangle[0], triangle[1], triangle[2]]);
    lemma_triangle_is_well_turned(triangle[0], triangle[1], triangle[2]);
    lemma_polytope_points(a, a_pos, b, b_pos, simplex);
    lemma_far_edges_hold_origin(triangle, winding);
    lemma_strict_overlap(a, a_pos, b, b_pos, triangle, winding);
    lemma_epa_sound(a, a_pos, b, b_pos, simplex);
    assert(outcome_is_sound(a, a_pos, b, b_pos, simplex, outcome));
    match outcome {
        EpaOutcome::Solved { depth, .. } => {
            let i = closest_edge(a, a_pos, b, b_pos, polytope, winding)->0;
            assert(is_first_closest(a, a_pos, b, b_pos, polytope, winding, i));
            assert forall|j: int| 0 <= j < polytope.len() implies #[trigger] edge_distance(
                polytope,
                winding,
                j,
            ) > depth - TOLERANCE by {
                assert(edge_reach(polytope, winding, j) > 0);
                lemma_edge_is_open(a, a_pos, b, b_pos, polytope, winding, j);
            }
            lemma_answer_is_least(a, a_pos, b, b_pos, simplex, d);
        },
        _ => {},
    }
}

/// A polygon whose edges all lie at a distance of one or more from the
/// origin, and have a length, holds the origin on the inner side of all
/// of them.
proof fn lemma_far_edges_hold_origin(ring: Seq<Vec2>, winding: Winding)
    requires
        is_well_turned(ring, winding),
        forall|j: int| 0 <= j < ring.len() ==> #[trigger] edge_distance(ring, winding, j) >= 1,
    ensures
        holds_origin_inside(ring, winding),
{
    assert forall|j: int| 0 <= j < ring.len() implies #[trigger] edge_reach(ring, winding, j)
        > 0 by {
        let n = edge_normal(ring, winding, j);
        lemma_edges_have_length(ring, winding, j);
        assert(n != Vec2::zero());
        lemma_scaled_norm_positive(n);
        assert(edge_distance(ring, winding, j) >= 1);
        lemma_trunc_div_reach(n.dot(ring[j]) * ROOT_SHIFT, n.scaled_norm(), 1);
        assert(n.dot(ring[j]) > 0) by (nonlinear_arith)
            requires
                n.dot(ring[j]) * ROOT_SHIFT >= 1 * n.scaled_norm(),
                n.scaled_norm() > 0,
        ;
    }
}

/// Two shapes with exact support mappings overlap strictly, where a polygon
/// of support points of their Minkowski difference turns one way and all
/// its edges lie at a distance of one or more from the origin.
pub proof fn lemma_strict_overlap<S1: Shape, S2: Shape>(
    a: &S1,
    a_pos: Vec2,
    b: &S2,
    b_pos: Vec2,
    ring: Seq<Vec2>,
    winding: Winding,
)
    requires
        a.wf(),
        b.wf(),
        is_exact(a),
        is_exact(b),
        are_support_points(a, a_pos, b, b_pos, ring),
        is_well_turned(ring, winding),
        forall|j: int| 0 <= j < ring.len() ==> #[trigger] edge_distance(ring, winding, j) >= 1,
    ensures
        overlaps_strictly(a, a_pos, b, b_pos),
{
    assert forall|d: Vec2| d != Vec2::zero() implies 0 < (#[trigger] support_spec(
        a,
        a_pos,
        b,
        b_pos,
        d,
    )).dot(d) by {
        let v = lemma_polygon_reach(ring, winding, d, 1);
        lemma_scaled_norm_positive(d);
        assert(d.scaled_norm() >= ROOT_SHIFT) by {
            if d.x != 0 {
                assert(ROOT_SHIFT * d.x >= ROOT_SHIFT || ROOT_SHIFT * -d.x >= ROOT_SHIFT);
            } else {
                assert(ROOT_SHIFT * d.y >= ROOT_SHIFT || ROOT_SHIFT * -d.y >= ROOT_SHIFT);
            }
        }
        assert(ring[v].dot(d) > 0) by (nonlinear_arith)
            requires
                ring[v].dot(d) * ROOT_SHIFT >= 1 * (d.scaled_norm() - 1),
                d.scaled_norm() >= ROOT_SHIFT,
                ROOT_SHIFT > 1,
        ;
        assert(is_support_point(a, a_pos, b, b_pos, ring[v]));
        let e = choose|e: Vec2|
            e != Vec2::zero() && ring[v] == #[trigger] support_spec(a, a_pos, b, b_pos, e);
        lemma_support_inside(a, a_pos, b, b_pos, e, d);
        lemma_mul_dist(a.slack() as int, b.slack() as int, d.norm1());
    }
}

/// Between shapes with exact support mappings, a run ends with an answer,
/// unless it runs out of steps, where the triangle from which it sets out
/// is made of support points and holds the origin at a distance of one or
/// more from each of its edges: it never lacks an edge to grow, and its
/// polygon never stops being convex.
pub proof fn lemma_exact_run_answers<S1: Shape, S2: Shape>(
    a: &S1,
    a_pos: Vec2,
    b: &S2,
    b_pos: Vec2,
    simplex: Seq<Vec2>,
)
    requires
        a.wf(),
        b.wf(),
        is_exact(a),
        is_exact(b),
        2 <= simplex.len() <= 3,
        are_support_points(a, a_pos, b, b_pos, simplex),
        ({
            let triangle = completed(a, a_pos, b, b_pos, simplex);
            let winding = winding_of(triangle[0], triangle[1], triangle[2]);
            &&& triangle[1].minus(triangle[0]).cross(triangle[2].minus(triangle[1])) != 0
            &&& forall|j: int| 0 <= j < 3 ==> #[trigger] edge_distance(triangle, winding, j) >= 1
        }),
    ensures
        epa_spec(a, a_pos, b, b_pos, simplex) is Solved || epa_spec(a, a_pos, b, b_pos, simplex)
            is IterationLimit,
{
    let triangle = completed(a, a_pos, b, b_pos, simplex);
    let winding = winding_of(triangle[0], triangle[1], triangle[2]);
    assert(triangle.len() == 3);
    assert(triangle =~= seq![triangle[0], triangle[1], triangle[2]]);
    lemma_triangle_is_well_turned(triangle[0], triangle[1], triangle[2]);
    lemma_polytope_points(a, a_pos, b, b_pos, simplex);
    lemma_far_edges_hold_origin(triangle, winding);
    lemma_strict_overlap(a, a_pos, b, b_pos, triangle, winding);
    lemma_run_answers(
        a,
        a_pos,
        b,
        b_pos,
        triangle,
        winding,
        Vec2::zero(),
        0,
        MAX_EXPANSIONS as nat,
    );
}

} // verus!
