//! Polygons that turn one way around the origin: along no direction do
//! their corners end nearer to the origin than their nearest edge.

use crate::algebra::{
    lemma_cross_antisymmetric, lemma_cross_linear, lemma_cross_scale, lemma_cross_scale_left,
    lemma_dot_linear, lemma_dot_scale, lemma_dot_symmetric, lemma_frame, lemma_level_edges,
    lemma_mul3, lemma_mul_commutes, lemma_mul_dist, lemma_same_way, lemma_stretch,
};
use crate::epa::{
    corner_turn, edge_distance, edge_normal, is_convex_spec, next_index, same_side,
    turns_against,
};
use crate::gjk::lemma_triple_product_is_turned;
use crate::numeric::{lemma_trunc_div_reach, ROOT_SHIFT};
use crate::rounding::{
    lemma_scaled_norm_positive, lemma_scaled_norm_scale, lemma_scaled_norm_scale_lower,
    lemma_scaled_norm_triangle,
};
use crate::simplex::{lemma_turn_is_negated_det, outward, winding_of, Winding};
use crate::vector::{det_spec, Vec2};
use vstd::prelude::*;

verus! {

/// The edge that starts at index `i`.
pub open spec fn edge(ring: Seq<Vec2>, i: int) -> Vec2 {
    ring[next_index(i, ring.len() as int)].minus(ring[i])
}

/// The sign of the cross product of two edges that follow one another
/// around a polygon of the given winding: 1 for `Right`, -1 for `Left`.
pub open spec fn handedness(winding: Winding) -> int {
    match winding {
        Winding::Right => 1,
        Winding::Left => -1,
    }
}

/// From the edge `e0` to the edge `e1` the polygon turns the way of its
/// winding, or goes straight on.
pub open spec fn corner_is_well_turned(e0: Vec2, e1: Vec2, winding: Winding) -> bool {
    let k = handedness(winding) * e0.cross(e1);
    k > 0 || (k == 0 && e0.dot(e1) > 0)
}

/// At the corner that follows index `i` the polygon turns the way of its
/// winding, or goes straight on.
pub open spec fn turns_well_at(ring: Seq<Vec2>, winding: Winding, i: int) -> bool {
    corner_is_well_turned(edge(ring, i), edge(ring, next_index(i, ring.len() as int)), winding)
}

/// The polygon has at least three corners, and at every corner it turns the
/// way of its winding or goes straight on.
pub open spec fn is_well_turned(ring: Seq<Vec2>, winding: Winding) -> bool {
    &&& ring.len() >= 3
    &&& forall|i: int| 0 <= i < ring.len() ==> #[trigger] turns_well_at(ring, winding, i)
}

/// A direction is a combination of the outward normals of two edges that
/// meet at a corner, with the scalar products of the direction with the
/// edges as weights.
proof fn lemma_direction_between_normals(e0: Vec2, e1: Vec2, winding: Winding, d: Vec2)
    ensures
        d.scale(handedness(winding) * e0.cross(e1)) == outward(e0, winding).scale(-e1.dot(d)).plus(
            outward(e1, winding).scale(e0.dot(d)),
        ),
{
    lemma_triple_product_is_turned(e0, e1, d);
    lemma_dot_symmetric(d, e0);
    lemma_dot_symmetric(d, e1);
    let a = e1.dot(d);
    let b = e0.dot(d);
    let k = e0.cross(e1);
    // b * e1 - a * e0 == k * perp(d), component by component.
    assert(b * e1.x - a * e0.x == k * (-d.y));
    assert(b * e1.y - a * e0.y == k * d.x);
    lemma_mul_dist(a, 0, e0.x);
    lemma_mul_dist(a, 0, e0.y);
    lemma_mul_dist(b, 0, e1.x);
    lemma_mul_dist(b, 0, e1.y);
    lemma_mul_dist(k, 0, d.x);
    lemma_mul_dist(k, 0, d.y);
    lemma_mul_dist(0, e0.x, -a);
    lemma_mul_dist(0, e0.y, -a);
    lemma_mul_dist(0, e1.x, b);
    lemma_mul_dist(0, e1.y, b);
    lemma_mul_dist(0, d.x, k);
    lemma_mul_dist(0, d.y, k);
    lemma_mul_dist(0, d.x, -k);
    lemma_mul_dist(0, d.y, -k);
}

/// The corner `p` between the edges from `q` and to `r` of a polygon reaches
/// along a direction `d`, up to which the polygon climbs and from which it
/// descends, as far as the nearer of the two edges lies from the origin.
proof fn lemma_corner_reach(q: Vec2, p: Vec2, r: Vec2, winding: Winding, d: Vec2, delta: int)
    requires
        p.minus(q).dot(d) >= 0,
        r.minus(p).dot(d) < 0,
        handedness(winding) * p.minus(q).cross(r.minus(p)) > 0,
        delta >= 1,
        outward(p.minus(q), winding).projection(q) >= delta,
        outward(r.minus(p), winding).projection(p) >= delta,
    ensures
        p.dot(d) * ROOT_SHIFT >= delta * (d.scaled_norm() - 1),
{
    let e0 = p.minus(q);
    let e1 = r.minus(p);
    let n0 = outward(e0, winding);
    let n1 = outward(e1, winding);
    let k = handedness(winding) * e0.cross(e1);
    let a = -e1.dot(d);
    let b = e0.dot(d);
    assert(d != Vec2::zero()) by {
        if d == Vec2::zero() {
            assert(e1.dot(d) == 0) by (nonlinear_arith)
                requires
                    d == Vec2::zero(),
            ;
        }
    }
    assert(e0 != Vec2::zero() && e1 != Vec2::zero()) by {
        if e0 == Vec2::zero() || e1 == Vec2::zero() {
            assert(e0.cross(e1) == 0) by (nonlinear_arith)
                requires
                    e0 == Vec2::zero() || e1 == Vec2::zero(),
            ;
        }
    }
    assert(n0 != Vec2::zero() && n1 != Vec2::zero());
    lemma_scaled_norm_positive(n0);
    lemma_scaled_norm_positive(n1);
    let s0 = n0.scaled_norm();
    let s1 = n1.scaled_norm();
    // The distances of the two edges, before rounding.
    lemma_trunc_div_reach(n0.dot(q) * ROOT_SHIFT, s0, delta);
    lemma_trunc_div_reach(n1.dot(p) * ROOT_SHIFT, s1, delta);
    assert(n0.dot(e0) == 0) by (nonlinear_arith)
        requires
            n0 == outward(e0, winding),
    ;
    lemma_dot_symmetric(n0, p);
    lemma_dot_symmetric(n0, q);
    lemma_dot_linear(p, q, n0);
    lemma_dot_symmetric(n0, e0);
    assert(n0.dot(p) == n0.dot(q));
    // The direction, scaled, between the two normals.
    lemma_direction_between_normals(e0, e1, winding, d);
    let t0 = n0.scale(a);
    let t1 = n1.scale(b);
    assert(d.scale(k) == t0.plus(t1));
    lemma_dot_scale(d, k, p);
    lemma_dot_scale(n0, a, p);
    lemma_dot_scale(n1, b, p);
    lemma_dot_linear(t0, t1, p);
    lemma_dot_symmetric(d, p);
    assert(k * p.dot(d) == a * n0.dot(p) + b * n1.dot(p));
    // The lengths.
    lemma_scaled_norm_scale(n0, a);
    lemma_scaled_norm_scale(n1, b);
    lemma_scaled_norm_triangle(t0, t1);
    lemma_scaled_norm_scale_lower(d, k);
    let sd = d.scaled_norm();
    let sk = d.scale(k).scaled_norm();
    assert(a * s0 + b * s1 >= sk);
    assert(sk > k * (sd - 1));
    let x = p.dot(d) * ROOT_SHIFT;
    let u = n0.dot(p) * ROOT_SHIFT;
    let v = n1.dot(p) * ROOT_SHIFT;
    lemma_mul3(k, p.dot(d), ROOT_SHIFT as int);
    lemma_mul3(a, n0.dot(p), ROOT_SHIFT as int);
    lemma_mul3(b, n1.dot(p), ROOT_SHIFT as int);
    lemma_mul_dist(a * n0.dot(p), b * n1.dot(p), ROOT_SHIFT as int);
    assert(k * x == a * u + b * v);
    assert(a * u >= a * (delta * s0)) by (nonlinear_arith)
        requires
            u >= delta * s0,
            a > 0,
    ;
    assert(b * v >= b * (delta * s1)) by (nonlinear_arith)
        requires
            v >= delta * s1,
            b >= 0,
    ;
    lemma_mul3(a, delta, s0);
    lemma_mul3(b, delta, s1);
    lemma_mul_dist(a * s0, b * s1, delta);
    assert(a * (delta * s0) + b * (delta * s1) == delta * (a * s0 + b * s1));
    assert(k * x >= delta * (a * s0 + b * s1));
    let reach = a * s0 + b * s1;
    assert(delta * reach >= delta * (k * (sd - 1))) by (nonlinear_arith)
        requires
            reach >= sk,
            sk > k * (sd - 1),
            delta >= 1,
    ;
    lemma_mul3(delta, k, sd - 1);
    assert(delta * (k * (sd - 1)) == k * (delta * (sd - 1)));
    assert(k * x >= k * (delta * (sd - 1)));
    assert(x >= delta * (sd - 1)) by (nonlinear_arith)
        requires
            k * x >= k * (delta * (sd - 1)),
            k > 0,
    ;
}

/// Where a polygon climbs along `d` on none of its edges, its corners do
/// not rise from one index to a later one.
proof fn lemma_no_climb_chain(ring: Seq<Vec2>, d: Vec2, i: int, j: int)
    requires
        forall|k: int| 0 <= k < ring.len() ==> (#[trigger] edge(ring, k)).dot(d) <= 0,
        0 <= i <= j < ring.len(),
    ensures
        ring[j].dot(d) <= ring[i].dot(d),
    decreases j - i,
{
    if i < j {
        lemma_no_climb_chain(ring, d, i, j - 1);
        assert(edge(ring, j - 1).dot(d) <= 0);
        assert(edge(ring, j - 1) == ring[j].minus(ring[j - 1]));
        lemma_dot_linear(ring[j], ring[j - 1], d);
    }
}

/// A polygon that climbs along `d` on none of its edges is level along `d`.
proof fn lemma_level(ring: Seq<Vec2>, d: Vec2)
    requires
        ring.len() >= 1,
        forall|k: int| 0 <= k < ring.len() ==> (#[trigger] edge(ring, k)).dot(d) <= 0,
    ensures
        forall|k: int| 0 <= k < ring.len() ==> (#[trigger] edge(ring, k)).dot(d) == 0,
{
    let n = ring.len() as int;
    assert(edge(ring, n - 1).dot(d) <= 0);
    assert(edge(ring, n - 1) == ring[0].minus(ring[n - 1]));
    lemma_dot_linear(ring[0], ring[n - 1], d);
    assert forall|k: int| 0 <= k < ring.len() implies (#[trigger] edge(ring, k)).dot(d) == 0 by {
        lemma_no_climb_chain(ring, d, 0, k);
        lemma_no_climb_chain(ring, d, k, n - 1);
        if k < n - 1 {
            lemma_no_climb_chain(ring, d, k + 1, n - 1);
            assert(edge(ring, k) == ring[k + 1].minus(ring[k]));
            lemma_dot_linear(ring[k + 1], ring[k], d);
        }
    }
}

/// Between an edge on which a polygon does not descend along `d` and a
/// later edge on which it does, there is a corner at which it starts to.
proof fn lemma_first_descent(ring: Seq<Vec2>, d: Vec2, lo: int, hi: int) -> (i: int)
    requires
        0 <= lo < hi < ring.len(),
        edge(ring, lo).dot(d) >= 0,
        edge(ring, hi).dot(d) < 0,
    ensures
        lo <= i < hi,
        edge(ring, i).dot(d) >= 0,
        edge(ring, i + 1).dot(d) < 0,
    decreases hi - lo,
{
    if edge(ring, hi - 1).dot(d) >= 0 {
        hi - 1
    } else {
        lemma_first_descent(ring, d, lo, hi - 1)
    }
}

/// A polygon that descends along `d` on one of its edges has a corner up to
/// which it does not descend and from which it does.
proof fn lemma_turning_point(ring: Seq<Vec2>, d: Vec2, j: int) -> (i: int)
    requires
        0 <= j < ring.len(),
        edge(ring, j).dot(d) < 0,
    ensures
        0 <= i < ring.len(),
        edge(ring, i).dot(d) >= 0,
        edge(ring, next_index(i, ring.len() as int)).dot(d) < 0,
{
    let n = ring.len() as int;
    if forall|k: int| 0 <= k < ring.len() ==> (#[trigger] edge(ring, k)).dot(d) <= 0 {
        lemma_level(ring, d);
        assert(edge(ring, j).dot(d) == 0);
        0
    } else {
        let k = choose|k: int| 0 <= k < ring.len() && !((#[trigger] edge(ring, k)).dot(d) <= 0);
        if k < j {
            lemma_first_descent(ring, d, k, j)
        } else if edge(ring, n - 1).dot(d) < 0 {
            lemma_first_descent(ring, d, k, n - 1)
        } else if edge(ring, 0).dot(d) < 0 {
            n - 1
        } else {
            lemma_first_descent(ring, d, 0, j)
        }
    }
}

/// The edges of a polygon that turns one way are not of length zero.
pub proof fn lemma_edges_have_length(ring: Seq<Vec2>, winding: Winding, i: int)
    requires
        is_well_turned(ring, winding),
        0 <= i < ring.len(),
    ensures
        edge(ring, i) != Vec2::zero(),
{
    let e0 = edge(ring, i);
    let e1 = edge(ring, next_index(i, ring.len() as int));
    assert(turns_well_at(ring, winding, i));
    if e0 == Vec2::zero() {
        assert(e0.cross(e1) == 0 && e0.dot(e1) == 0) by (nonlinear_arith)
            requires
                e0 == Vec2::zero(),
        ;
    }
}

/// No polygon that turns one way is level along a direction: on one of
/// its edges it climbs or descends.
proof fn lemma_not_level(ring: Seq<Vec2>, winding: Winding, d: Vec2)
    requires
        is_well_turned(ring, winding),
        d != Vec2::zero(),
    ensures
        exists|k: int| 0 <= k < ring.len() && (#[trigger] edge(ring, k)).dot(d) != 0,
{
    if forall|k: int| 0 <= k < ring.len() ==> (#[trigger] edge(ring, k)).dot(d) == 0 {
        lemma_level_is_absurd(ring, winding, d);
    }
}

/// A polygon that is level along `d` would turn back on itself.
proof fn lemma_level_is_absurd(ring: Seq<Vec2>, winding: Winding, d: Vec2)
    requires
        is_well_turned(ring, winding),
        d != Vec2::zero(),
        forall|k: int| 0 <= k < ring.len() ==> (#[trigger] edge(ring, k)).dot(d) == 0,
    ensures
        exists|k: int| 0 <= k < ring.len() && (#[trigger] edge(ring, k)).dot(d) != 0,
{
    let u = d.perp();
    let n = ring.len() as int;
    assert forall|k: int| 0 <= k < ring.len() implies (#[trigger] edge(ring, k)).dot(u) != 0 by {
        lemma_edges_have_length(ring, winding, k);
        lemma_level_edges(edge(ring, k), edge(ring, k), d);
    }
    if exists|j: int| 0 <= j < ring.len() && (#[trigger] edge(ring, j)).dot(u) < 0 {
        let j = choose|j: int| 0 <= j < ring.len() && (#[trigger] edge(ring, j)).dot(u) < 0;
        let i = lemma_turning_point(ring, u, j);
        let e0 = edge(ring, i);
        let e1 = edge(ring, next_index(i, n));
        assert(e0.dot(d) == 0 && e1.dot(d) == 0);
        lemma_level_edges(e0, e1, d);
        assert(turns_well_at(ring, winding, i));
        assert(e0.dot(u) * e1.dot(u) < 0) by (nonlinear_arith)
            requires
                e0.dot(u) > 0,
                e1.dot(u) < 0,
        ;
        assert(d.norm_sq() > 0) by (nonlinear_arith)
            requires
                d != Vec2::zero(),
                d.norm_sq() == d.x * d.x + d.y * d.y,
        ;
        assert(e0.dot(e1) < 0) by (nonlinear_arith)
            requires
                d.norm_sq() * e0.dot(e1) < 0,
                d.norm_sq() > 0,
        ;
        assert(false);
    } else {
        let back = u.neg();
        assert forall|k: int| 0 <= k < ring.len() implies (#[trigger] edge(ring, k)).dot(back) <= 0 by {
            assert(!(edge(ring, k).dot(u) < 0));
            lemma_dot_linear(u, u, edge(ring, k));
            lemma_dot_symmetric(edge(ring, k), back);
            lemma_dot_symmetric(edge(ring, k), u);
        }
        lemma_level(ring, back);
        assert(edge(ring, 0).dot(back) == 0);
        lemma_dot_linear(u, u, edge(ring, 0));
        lemma_dot_symmetric(edge(ring, 0), back);
        lemma_dot_symmetric(edge(ring, 0), u);
        assert(edge(ring, 0).dot(u) != 0);
        assert(false);
    }
}

/// A polygon does not start to descend along `d` at a corner at which it
/// goes straight on: there it turns.
proof fn lemma_turn_is_strict(e0: Vec2, e1: Vec2, winding: Winding, d: Vec2)
    requires
        corner_is_well_turned(e0, e1, winding),
        e0.dot(d) >= 0,
        e1.dot(d) < 0,
    ensures
        handedness(winding) * e0.cross(e1) > 0,
{
    let k = handedness(winding) * e0.cross(e1);
    if k == 0 {
        assert(e0 != Vec2::zero()) by {
            if e0 == Vec2::zero() {
                assert(e0.dot(e1) == 0) by (nonlinear_arith)
                    requires
                        e0 == Vec2::zero(),
                ;
            }
        }
        lemma_frame(e1, d, e0);
        assert(e0.cross(e1) == 0);
        assert(e1.dot(e0.perp()) == e0.cross(e1)) by (nonlinear_arith);
        lemma_dot_symmetric(e1, e0);
        lemma_dot_symmetric(d, e0);
        assert(e0.norm_sq() > 0) by (nonlinear_arith)
            requires
                e0 != Vec2::zero(),
                e0.norm_sq() == e0.x * e0.x + e0.y * e0.y,
        ;
        assert(e1.dot(d) >= 0) by (nonlinear_arith)
            requires
                e0.norm_sq() * e1.dot(d) == e0.dot(e1) * e0.dot(d) + e1.dot(e0.perp()) * d.dot(
                    e0.perp(),
                ),
                e1.dot(e0.perp()) == 0,
                e0.dot(e1) > 0,
                e0.dot(d) >= 0,
                e0.norm_sq() > 0,
        ;
    }
}

/// The corner at which a polygon that turns one way starts to descend along
/// `d` reaches along `d` as far as the nearer of its two edges lies from the
/// origin.
proof fn lemma_reach_at_turn(ring: Seq<Vec2>, winding: Winding, d: Vec2, delta: int, i: int)
    requires
        is_well_turned(ring, winding),
        0 <= i < ring.len(),
        edge(ring, i).dot(d) >= 0,
        edge(ring, next_index(i, ring.len() as int)).dot(d) < 0,
        delta >= 1,
        edge_distance(ring, winding, i) >= delta,
        edge_distance(ring, winding, next_index(i, ring.len() as int)) >= delta,
    ensures
        ring[next_index(i, ring.len() as int)].dot(d) * ROOT_SHIFT >= delta * (d.scaled_norm() - 1),
{
    let n = ring.len() as int;
    let v = next_index(i, n);
    let e0 = edge(ring, i);
    let e1 = edge(ring, v);
    assert(turns_well_at(ring, winding, i));
    lemma_turn_is_strict(e0, e1, winding, d);
    lemma_corner_reach(ring[i], ring[v], ring[next_index(v, n)], winding, d, delta);
}

/// A polygon that turns one way descends along every direction on one of
/// its edges.
proof fn lemma_descends_somewhere(ring: Seq<Vec2>, winding: Winding, d: Vec2) -> (j: int)
    requires
        is_well_turned(ring, winding),
        d != Vec2::zero(),
    ensures
        0 <= j < ring.len(),
        edge(ring, j).dot(d) < 0,
{
    if exists|j: int| 0 <= j < ring.len() && (#[trigger] edge(ring, j)).dot(d) < 0 {
        choose|j: int| 0 <= j < ring.len() && (#[trigger] edge(ring, j)).dot(d) < 0
    } else {
        let back = d.neg();
        assert forall|k: int| 0 <= k < ring.len() implies (#[trigger] edge(ring, k)).dot(back) <= 0 by {
            assert(!(edge(ring, k).dot(d) < 0));
            lemma_dot_linear(d, d, edge(ring, k));
            lemma_dot_symmetric(edge(ring, k), back);
            lemma_dot_symmetric(edge(ring, k), d);
        }
        lemma_level(ring, back);
        assert forall|k: int| 0 <= k < ring.len() implies (#[trigger] edge(ring, k)).dot(d) == 0 by {
            assert(edge(ring, k).dot(back) == 0);
            lemma_dot_linear(d, d, edge(ring, k));
            lemma_dot_symmetric(edge(ring, k), back);
            lemma_dot_symmetric(edge(ring, k), d);
        }
        lemma_not_level(ring, winding, d);
        let k = choose|k: int| 0 <= k < ring.len() && (#[trigger] edge(ring, k)).dot(d) != 0;
        assert(edge(ring, k).dot(d) == 0);
        0
    }
}

/// Along no direction do the corners of a polygon that turns one way end
/// nearer to the origin than its nearest edge: some corner `v` reaches
/// along `d`, up to the rounding of the length of `d`, as far as `delta`,
/// where every edge lies at a distance of `delta` or more.
pub proof fn lemma_polygon_reach(ring: Seq<Vec2>, winding: Winding, d: Vec2, delta: int) -> (v: int)
    requires
        is_well_turned(ring, winding),
        d != Vec2::zero(),
        delta >= 1,
        forall|j: int| 0 <= j < ring.len() ==> #[trigger] edge_distance(ring, winding, j) >= delta,
    ensures
        0 <= v < ring.len(),
        ring[v].dot(d) * ROOT_SHIFT >= delta * (d.scaled_norm() - 1),
{
    let n = ring.len() as int;
    let j = lemma_descends_somewhere(ring, winding, d);
    let i = lemma_turning_point(ring, d, j);
    let v = next_index(i, n);
    assert(edge_distance(ring, winding, i) >= delta);
    assert(edge_distance(ring, winding, v) >= delta);
    lemma_reach_at_turn(ring, winding, d, delta, i);
    v
}

/// The turn that a polygon takes at a corner is the negated cross product
/// of the two edges that meet there.
pub proof fn lemma_corner_turn_is_cross(ring: Seq<Vec2>, i: int)
    ensures
        corner_turn(ring, i) == -edge(ring, i).cross(edge(ring, next_index(i, ring.len() as int))),
{
    let len = ring.len() as int;
    let j = next_index(i, len);
    lemma_turn_is_negated_det(ring[i], ring[j], ring[next_index(j, len)]);
}

/// A triangle that is not flat turns one way, that of its winding.
pub proof fn lemma_triangle_is_well_turned(v0: Vec2, v1: Vec2, v2: Vec2)
    requires
        v1.minus(v0).cross(v2.minus(v1)) != 0,
    ensures
        is_well_turned(seq![v0, v1, v2], winding_of(v0, v1, v2)),
{
    let ring = seq![v0, v1, v2];
    let w = winding_of(v0, v1, v2);
    assert(ring[0] == v0 && ring[1] == v1 && ring[2] == v2);
    let e0 = v1.minus(v0);
    let e1 = v2.minus(v1);
    let e2 = v0.minus(v2);
    assert(e1.cross(e2) == e0.cross(e1) && e2.cross(e0) == e0.cross(e1)) by (nonlinear_arith)
        requires
            e0 == v1.minus(v0),
            e1 == v2.minus(v1),
            e2 == v0.minus(v2),
    ;
    assert forall|i: int| 0 <= i < ring.len() implies #[trigger] turns_well_at(ring, w, i) by {
        if i == 0 {
            assert(edge(ring, 0) == e0 && edge(ring, 1) == e1);
        } else if i == 1 {
            assert(edge(ring, 1) == e1 && edge(ring, 2) == e2);
        } else {
            assert(edge(ring, 2) == e2 && edge(ring, 0) == e0);
        }
    }
}

/// The scalar product of the outward normal of an edge with another edge
/// is, up to the handedness, the cross product of the two.
pub proof fn lemma_outward_dot(e: Vec2, f: Vec2, winding: Winding)
    ensures
        outward(e, winding).dot(f) == handedness(winding) * f.cross(e),
        outward(e, winding).dot(e) == 0,
{
    lemma_mul_dist(e.x, 0, f.y);
    lemma_mul_dist(e.y, 0, f.x);
    lemma_mul_commutes(e.y, f.x);
    lemma_mul_commutes(e.x, f.y);
    lemma_mul_dist(e.x, 0, e.y);
    lemma_mul_dist(e.y, 0, e.x);
    lemma_mul_commutes(e.x, e.y);
    lemma_mul_dist(0, f.cross(e), handedness(winding));
}

/// The corner at a point that lies beyond an edge from `a` to `b`, seen
/// from `a` and `b`, turns the way of the winding.
pub proof fn lemma_new_corner(a: Vec2, b: Vec2, s: Vec2, winding: Winding)
    requires
        outward(b.minus(a), winding).dot(s.minus(a)) > 0,
    ensures
        handedness(winding) * s.minus(a).cross(b.minus(s)) > 0,
{
    lemma_outward_dot(b.minus(a), s.minus(a), winding);
    assert(s.minus(a).cross(b.minus(s)) == s.minus(a).cross(b.minus(a))) by (nonlinear_arith);
}

/// Where a point `s` lies beyond the edge from `a` to `b`, and the polygon
/// goes on from `b` to `c` in line with the edge from `s` to `b`, it goes on
/// the same way.
proof fn lemma_end_corner(a: Vec2, b: Vec2, c: Vec2, s: Vec2, winding: Winding)
    requires
        corner_is_well_turned(b.minus(a), c.minus(b), winding),
        c != b,
        outward(b.minus(a), winding).dot(s.minus(a)) > 0,
        b.minus(s).cross(c.minus(b)) == 0,
    ensures
        b.minus(s).dot(c.minus(b)) > 0,
{
    let e = b.minus(a);
    let e0 = b.minus(s);
    let e1 = c.minus(b);
    let normal = outward(e, winding);
    let back = normal.neg();
    lemma_outward_dot(e, e1, winding);
    lemma_outward_dot(e, e, winding);
    assert(e1.cross(e) == -e.cross(e1)) by (nonlinear_arith);
    let h = handedness(winding);
    assert(h * e1.cross(e) == -(h * e.cross(e1))) by (nonlinear_arith)
        requires
            e1.cross(e) == -e.cross(e1),
    ;
    assert(back.dot(e1) == -normal.dot(e1)) by (nonlinear_arith)
        requires
            back == normal.neg(),
    ;
    assert(back.dot(e1) >= 0);
    assert(normal.dot(s.minus(a)) == normal.dot(e) - normal.dot(e0)) by (nonlinear_arith)
        requires
            e == b.minus(a),
            e0 == b.minus(s),
    ;
    assert(back.dot(e0) == -normal.dot(e0)) by (nonlinear_arith)
        requires
            back == normal.neg(),
    ;
    assert(back.dot(e0) > 0);
    assert(e1 != Vec2::zero());
    assert(e1.cross(e0) == 0) by (nonlinear_arith)
        requires
            e0.cross(e1) == 0,
    ;
    lemma_same_way(e1, e0, back);
    lemma_dot_symmetric(e1, e0);
}

/// Where a point `s` lies beyond the edge from `a` to `b`, and the edge
/// from `a` to `s` lies in line with the edge that leads from `p` to `a`,
/// the polygon goes on the same way at `a`.
proof fn lemma_start_corner(p: Vec2, a: Vec2, b: Vec2, s: Vec2, winding: Winding)
    requires
        corner_is_well_turned(a.minus(p), b.minus(a), winding),
        a != p,
        outward(b.minus(a), winding).dot(s.minus(a)) > 0,
        a.minus(p).cross(s.minus(a)) == 0,
    ensures
        a.minus(p).dot(s.minus(a)) > 0,
{
    let e0 = a.minus(p);
    let normal = outward(b.minus(a), winding);
    lemma_outward_dot(b.minus(a), e0, winding);
    assert(normal.dot(e0) >= 0);
    assert(e0 != Vec2::zero());
    lemma_same_way(e0, s.minus(a), normal);
}

/// The edges of a polygon into which a point has been inserted.
pub proof fn lemma_grown_edges(ring: Seq<Vec2>, i: int, s: Vec2, g: int)
    requires
        ring.len() >= 3,
        0 <= i < ring.len(),
        0 <= g <= ring.len(),
    ensures
        edge(ring.insert(i + 1, s), g) == (if g < i {
            edge(ring, g)
        } else if g == i {
            s.minus(ring[i])
        } else if g == i + 1 {
            ring[next_index(i, ring.len() as int)].minus(s)
        } else {
            edge(ring, g - 1)
        }),
{
    let n = ring.len() as int;
    let grown = ring.insert(i + 1, s);
    let h = next_index(g, n + 1);
    assert(grown.len() == n + 1);
    assert(grown[g] == (if g <= i {
        ring[g]
    } else if g == i + 1 {
        s
    } else {
        ring[g - 1]
    }));
    assert(grown[h] == (if h <= i {
        ring[h]
    } else if h == i + 1 {
        s
    } else {
        ring[h - 1]
    }));
}

/// A corner that turns no way against a corner that turns the way of the
/// winding does not turn against the winding.
proof fn lemma_turns_along(h: int, strict: int, other: int)
    by (nonlinear_arith)
    requires
        h == 1 || h == -1,
        h * strict > 0,
        !turns_against(-strict, -other),
    ensures
        h * other >= 0,
{
}

/// A polygon that turns one way still does so once a point that lies
/// beyond one of its edges has been inserted after the start of that edge,
/// if it is convex then.
pub proof fn lemma_insert_keeps_turning(ring: Seq<Vec2>, winding: Winding, i: int, s: Vec2)
    requires
        is_well_turned(ring, winding),
        0 <= i < ring.len(),
        edge_normal(ring, winding, i).dot(s.minus(ring[i])) > 0,
        is_convex_spec(ring.insert(i + 1, s)),
    ensures
        is_well_turned(ring.insert(i + 1, s), winding),
{
    let n = ring.len() as int;
    let m = n + 1;
    let grown = ring.insert(i + 1, s);
    let a = ring[i];
    let b = ring[next_index(i, n)];
    let h = handedness(winding);
    assert(grown.len() == m);
    lemma_grown_edges(ring, i, s, i);
    lemma_grown_edges(ring, i, s, i + 1);
    lemma_new_corner(a, b, s, winding);
    lemma_corner_turn_is_cross(grown, i);
    assert forall|g: int| 0 <= g < m implies #[trigger] turns_well_at(grown, winding, g) by {
        lemma_insert_keeps_corner(ring, winding, i, s, g);
    }
}

/// One corner of the polygon into which a point has been inserted.
proof fn lemma_insert_keeps_corner(ring: Seq<Vec2>, winding: Winding, i: int, s: Vec2, g: int)
    requires
        is_well_turned(ring, winding),
        0 <= i < ring.len(),
        0 <= g <= ring.len(),
        edge_normal(ring, winding, i).dot(s.minus(ring[i])) > 0,
        is_convex_spec(ring.insert(i + 1, s)),
    ensures
        corner_is_well_turned(
            edge(ring.insert(i + 1, s), g),
            edge(ring.insert(i + 1, s), next_index(g, ring.len() as int + 1)),
            winding,
        ),
{
    let n = ring.len() as int;
    let m = n + 1;
    let grown = ring.insert(i + 1, s);
    let a = ring[i];
    let b = ring[next_index(i, n)];
    let h = handedness(winding);
    let g1 = next_index(g, m);
    assert(grown.len() == m);
    lemma_grown_edges(ring, i, s, i);
    lemma_grown_edges(ring, i, s, i + 1);
    lemma_grown_edges(ring, i, s, g);
    lemma_grown_edges(ring, i, s, g1);
    lemma_new_corner(a, b, s, winding);
    lemma_corner_turn_is_cross(grown, i);
    lemma_corner_turn_is_cross(grown, g);
    let e0 = edge(grown, g);
    let e1 = edge(grown, g1);
    assert(next_index(i, m) == i + 1);
    assert(!turns_against(corner_turn(grown, i), corner_turn(grown, g)));
    lemma_turns_along(h, edge(grown, i).cross(edge(grown, i + 1)), e0.cross(e1));
    if h * e0.cross(e1) == 0 {
        assert(e0.cross(e1) == 0);
        if g == i {
        } else if g == i + 1 {
            let j = next_index(i, n);
            let c = ring[next_index(j, n)];
            assert(e1 == edge(ring, j));
            assert(turns_well_at(ring, winding, i));
            lemma_edges_have_length(ring, winding, j);
            lemma_end_corner(a, b, c, s, winding);
        } else if g1 == i {
            let prev = if i == 0 { n - 1 } else { i - 1 };
            assert(next_index(prev, n) == i);
            assert(e0 == edge(ring, prev));
            assert(turns_well_at(ring, winding, prev));
            lemma_edges_have_length(ring, winding, prev);
            lemma_start_corner(ring[prev], a, b, s, winding);
        } else {
            let c = if g < i { g } else { g - 1 };
            assert(e0 == edge(ring, c));
            assert(e1 == edge(ring, next_index(c, n)));
            assert(turns_well_at(ring, winding, c));
        }
    }
}

/// How far the line of the edge that starts at index `i` lies from the
/// origin, in units of the length of the edge: positive where the origin
/// lies on the inner side of the line.
pub open spec fn edge_reach(ring: Seq<Vec2>, winding: Winding, i: int) -> int {
    edge_normal(ring, winding, i).dot(ring[i])
}

/// The origin lies on the inner side of the line of every edge.
pub open spec fn holds_origin_inside(ring: Seq<Vec2>, winding: Winding) -> bool {
    forall|i: int| 0 <= i < ring.len() ==> #[trigger] edge_reach(ring, winding, i) > 0
}

/// The reach of an edge from `p` to `q` is, up to the handedness, the cross
/// product of its ends.
pub proof fn lemma_reach_is_cross(p: Vec2, q: Vec2, winding: Winding)
    ensures
        outward(q.minus(p), winding).dot(p) == handedness(winding) * p.cross(q),
        outward(q.minus(p), winding).dot(q) == handedness(winding) * p.cross(q),
{
    lemma_outward_dot(q.minus(p), p, winding);
    lemma_outward_dot(q.minus(p), q, winding);
    assert(p.cross(q.minus(p)) == p.cross(q) && q.cross(q.minus(p)) == p.cross(q)) by (nonlinear_arith);
}

/// Where the origin lies on the inner side of the edges that end and start
/// at `a`, a point beyond the edge from `a` to `b` that lies in line with
/// `a`, seen from the origin, makes the polygon turn the wrong way at `a`.
proof fn lemma_start_reach(prev: Vec2, a: Vec2, b: Vec2, s: Vec2, winding: Winding)
    requires
        handedness(winding) * prev.cross(a) > 0,
        handedness(winding) * a.cross(b) > 0,
        a.cross(s) == 0,
        outward(b.minus(a), winding).dot(s.minus(a)) > 0,
    ensures
        handedness(winding) * a.minus(prev).cross(s.minus(a)) < 0,
{
    let h = handedness(winding);
    let n = outward(b.minus(a), winding);
    lemma_reach_is_cross(a, b, winding);
    lemma_dot_linear(s, a, n);
    lemma_dot_symmetric(n, s);
    lemma_dot_symmetric(n, a);
    lemma_dot_symmetric(n, s.minus(a));
    lemma_stretch(a, s, n);
    // prev x s, in terms of prev x a.
    lemma_cross_scale(prev, s, a.dot(a));
    lemma_cross_scale(prev, a, a.dot(s));
    assert(a.dot(a) * prev.cross(s) == a.dot(s) * prev.cross(a));
    let k = prev.cross(a);
    let m = prev.cross(s);
    lemma_cross_linear(a, prev, s.minus(a));
    lemma_cross_linear(s, a, a);
    lemma_cross_linear(s, a, prev);
    lemma_cross_antisymmetric(a, a);
    assert(a.minus(prev).cross(s.minus(a)) == k - m);
    assert(h * (k - m) < 0) by (nonlinear_arith)
        requires
            a.dot(a) * m == a.dot(s) * k,
            a.dot(s) > a.dot(a),
            a.dot(a) > 0,
            h * k > 0,
            h == 1 || h == -1,
    ;
}

/// Where the origin lies on the inner side of the edges that end and start
/// at `b`, a point beyond the edge from `a` to `b` that lies in line with
/// `b`, seen from the origin, makes the polygon turn the wrong way at `b`.
proof fn lemma_end_reach(a: Vec2, b: Vec2, c: Vec2, s: Vec2, winding: Winding)
    requires
        handedness(winding) * b.cross(c) > 0,
        handedness(winding) * a.cross(b) > 0,
        s.cross(b) == 0,
        outward(b.minus(a), winding).dot(s.minus(a)) > 0,
    ensures
        handedness(winding) * b.minus(s).cross(c.minus(b)) < 0,
{
    let h = handedness(winding);
    let n = outward(b.minus(a), winding);
    lemma_reach_is_cross(a, b, winding);
    lemma_dot_linear(s, a, n);
    lemma_dot_symmetric(n, s);
    lemma_dot_symmetric(n, a);
    lemma_dot_symmetric(n, b);
    lemma_dot_symmetric(n, s.minus(a));
    assert(b.cross(s) == 0) by (nonlinear_arith)
        requires
            s.cross(b) == 0,
    ;
    lemma_stretch(b, s, n);
    lemma_cross_scale_left(s, c, b.dot(b));
    lemma_cross_scale_left(b, c, b.dot(s));
    assert(b.dot(b) * s.cross(c) == b.dot(s) * b.cross(c));
    let k = b.cross(c);
    let m = s.cross(c);
    lemma_cross_linear(b, s, c.minus(b));
    lemma_cross_linear(c, b, b);
    lemma_cross_linear(c, b, s);
    lemma_cross_antisymmetric(b, b);
    assert(b.minus(s).cross(c.minus(b)) == k - m);
    assert(h * (k - m) < 0) by (nonlinear_arith)
        requires
            b.dot(b) * m == b.dot(s) * k,
            b.dot(s) > b.dot(b),
            b.dot(b) > 0,
            h * k > 0,
            h == 1 || h == -1,
    ;
}

/// The point from which an edge of a polygon into which a point has been
/// inserted starts.
proof fn lemma_grown_points(ring: Seq<Vec2>, i: int, s: Vec2, g: int)
    requires
        0 <= i < ring.len(),
        0 <= g <= ring.len(),
    ensures
        ring.insert(i + 1, s)[g] == (if g <= i {
            ring[g]
        } else if g == i + 1 {
            s
        } else {
            ring[g - 1]
        }),
{
}

/// A point beyond an edge from `a` to `b` that lies, seen from the origin,
/// between `a` and `b`, the ends included, lies on no wrong side of either:
/// the two cross products do not have the sign against the winding.
pub proof fn lemma_between_ends(a: Vec2, b: Vec2, s: Vec2, winding: Winding)
    requires
        handedness(winding) * a.cross(b) > 0,
        outward(b.minus(a), winding).dot(s.minus(a)) > 0,
        !same_side(a.cross(s), b.cross(s)),
    ensures
        handedness(winding) * a.cross(s) >= 0,
        handedness(winding) * s.cross(b) >= 0,
{
    let h = handedness(winding);
    let n = outward(b.minus(a), winding);
    lemma_outward_dot(b.minus(a), s.minus(a), winding);
    let x = a.cross(s);
    let y = s.cross(b);
    let z = a.cross(b);
    lemma_cross_linear(s, a, b.minus(a));
    lemma_cross_linear(b, a, s);
    lemma_cross_linear(b, a, a);
    lemma_cross_antisymmetric(s, a);
    lemma_cross_antisymmetric(a, a);
    lemma_cross_antisymmetric(b, s);
    assert(s.minus(a).cross(b.minus(a)) == x + y - z && b.cross(s) == -y);
    assert(h * (x + y - z) > 0);
    assert(h * x >= 0 && h * y >= 0) by (nonlinear_arith)
        requires
            h == 1 || h == -1,
            h * (x + y - z) > 0,
            h * z > 0,
            !same_side(x, -y),
    ;
}

/// A polygon that turns one way and holds the origin on the inner side of
/// all its edges still holds it there once a point has been inserted that
/// lies beyond one of its edges and, seen from the origin, between the ends
/// of that edge, if the polygon still turns one way then.
pub proof fn lemma_insert_keeps_origin(ring: Seq<Vec2>, winding: Winding, i: int, s: Vec2)
    requires
        is_well_turned(ring, winding),
        holds_origin_inside(ring, winding),
        0 <= i < ring.len(),
        edge_normal(ring, winding, i).dot(s.minus(ring[i])) > 0,
        !same_side(
            det_spec(Vec2::zero(), s, ring[i]),
            det_spec(Vec2::zero(), s, ring[next_index(i, ring.len() as int)]),
        ),
        is_well_turned(ring.insert(i + 1, s), winding),
    ensures
        holds_origin_inside(ring.insert(i + 1, s), winding),
{
    let n = ring.len() as int;
    let grown = ring.insert(i + 1, s);
    assert forall|g: int| 0 <= g < grown.len() implies #[trigger] edge_reach(grown, winding, g) > 0 by {
        lemma_insert_keeps_reach(ring, winding, i, s, g);
    }
}

/// One edge of the polygon into which a point has been inserted.
proof fn lemma_insert_keeps_reach(ring: Seq<Vec2>, winding: Winding, i: int, s: Vec2, g: int)
    requires
        is_well_turned(ring, winding),
        holds_origin_inside(ring, winding),
        0 <= i < ring.len(),
        0 <= g <= ring.len(),
        edge_normal(ring, winding, i).dot(s.minus(ring[i])) > 0,
        !same_side(
            det_spec(Vec2::zero(), s, ring[i]),
            det_spec(Vec2::zero(), s, ring[next_index(i, ring.len() as int)]),
        ),
        is_well_turned(ring.insert(i + 1, s), winding),
    ensures
        edge_reach(ring.insert(i + 1, s), winding, g) > 0,
{
    let n = ring.len() as int;
    let m = n + 1;
    let grown = ring.insert(i + 1, s);
    let h = handedness(winding);
    let j = next_index(i, n);
    let a = ring[i];
    let b = ring[j];
    assert(grown.len() == m);
    lemma_grown_edges(ring, i, s, g);
    lemma_grown_points(ring, i, s, g);
    if g == i || g == i + 1 {
        assert(edge_reach(ring, winding, i) > 0);
        lemma_reach_is_cross(a, b, winding);
        lemma_reach_is_cross(a, s, winding);
        lemma_reach_is_cross(s, b, winding);
        assert(det_spec(Vec2::zero(), s, a) == a.cross(s) && det_spec(Vec2::zero(), s, b) == b.cross(s))
            by (nonlinear_arith);
        lemma_between_ends(a, b, s, winding);
        if g == i {
            if a.cross(s) == 0 {
                // The polygon would turn the wrong way at the start of the edge.
                let prev = if i == 0 { n - 1 } else { i - 1 };
                let before = if i == 0 { n } else { i - 1 };
                assert(next_index(prev, n) == i);
                assert(next_index(before, m) == i);
                assert(edge_reach(ring, winding, prev) > 0);
                lemma_reach_is_cross(ring[prev], a, winding);
                lemma_start_reach(ring[prev], a, b, s, winding);
                lemma_grown_edges(ring, i, s, before);
                lemma_grown_edges(ring, i, s, i);
                assert(turns_well_at(grown, winding, before));
                assert(edge(grown, before) == a.minus(ring[prev]));
                assert(edge(grown, i) == s.minus(a));
            }
            assert(h * a.cross(s) != 0) by (nonlinear_arith)
                requires
                    a.cross(s) != 0,
                    h == 1 || h == -1,
            ;
        } else {
            if s.cross(b) == 0 {
                // The polygon would turn the wrong way at the end of the edge.
                let c = ring[next_index(j, n)];
                assert(edge_reach(ring, winding, j) > 0);
                lemma_reach_is_cross(b, c, winding);
                lemma_end_reach(a, b, c, s, winding);
                lemma_grown_edges(ring, i, s, i + 1);
                lemma_grown_edges(ring, i, s, next_index(i + 1, m));
                assert(turns_well_at(grown, winding, i + 1));
                assert(edge(grown, i + 1) == b.minus(s));
                assert(edge(grown, next_index(i + 1, m)) == c.minus(b));
            }
            assert(h * s.cross(b) != 0) by (nonlinear_arith)
                requires
                    s.cross(b) != 0,
                    h == 1 || h == -1,
            ;
        }
    } else {
        let c = if g < i { g } else { g - 1 };
        assert(edge_reach(ring, winding, c) > 0);
    }
}

/// The index that precedes `i` around a polygon of `len` points.
pub open spec fn prev_index(i: int, len: int) -> int {
    if i == 0 {
        len - 1
    } else {
        i - 1
    }
}

/// The polygon `ring` named from its last point on: the same points in the
/// same order around.
pub open spec fn from_last(ring: Seq<Vec2>) -> Seq<Vec2> {
    seq![ring.last()] + ring.drop_last()
}

/// Each point of a polygon named from its last point on is the point that
/// precedes it in the polygon.
pub proof fn lemma_from_last_points(ring: Seq<Vec2>, j: int)
    requires
        0 <= j < ring.len(),
    ensures
        from_last(ring).len() == ring.len(),
        from_last(ring)[j] == ring[prev_index(j, ring.len() as int)],
        from_last(ring)[next_index(j, ring.len() as int)] == ring[j],
{
}

/// Each edge and corner of a polygon named from its last point on is the
/// edge and corner that precedes it in the polygon.
pub proof fn lemma_from_last_corners(ring: Seq<Vec2>, winding: Winding, j: int)
    requires
        0 <= j < ring.len(),
    ensures
        ({
            let turned = from_last(ring);
            let p = prev_index(j, ring.len() as int);
            &&& edge(turned, j) == edge(ring, p)
            &&& edge_reach(turned, winding, j) == edge_reach(ring, winding, p)
            &&& turns_well_at(turned, winding, j) == turns_well_at(ring, winding, p)
            &&& corner_turn(turned, j) == corner_turn(ring, p)
        }),
{
    let len = ring.len() as int;
    let k = next_index(j, len);
    lemma_from_last_points(ring, j);
    lemma_from_last_points(ring, k);
    lemma_from_last_points(ring, next_index(k, len));
}

/// A polygon named from its last point on turns one way, holds the origin
/// on the inner side of all its edges and is convex where the polygon does
/// and is.
pub proof fn lemma_from_last_keeps(ring: Seq<Vec2>, winding: Winding)
    requires
        ring.len() >= 1,
    ensures
        is_well_turned(from_last(ring), winding) == is_well_turned(ring, winding),
        holds_origin_inside(from_last(ring), winding) == holds_origin_inside(ring, winding),
        is_convex_spec(from_last(ring)) == is_convex_spec(ring),
{
    let turned = from_last(ring);
    let len = ring.len() as int;
    assert(turned.len() == len);
    assert forall|j: int| 0 <= j < len implies #[trigger] corner_turn(turned, j) == corner_turn(
        ring,
        prev_index(j, len),
    ) by {
        lemma_from_last_corners(ring, winding, j);
    }
    assert forall|p: int| 0 <= p < len implies #[trigger] corner_turn(ring, p) == corner_turn(
        turned,
        next_index(p, len),
    ) by {
        lemma_from_last_corners(ring, winding, next_index(p, len));
    }
    if is_well_turned(ring, winding) {
        assert forall|j: int| 0 <= j < len implies #[trigger] turns_well_at(turned, winding, j) by {
            lemma_from_last_corners(ring, winding, j);
            assert(turns_well_at(ring, winding, prev_index(j, len)));
        }
    }
    if is_well_turned(turned, winding) {
        assert forall|p: int| 0 <= p < len implies #[trigger] turns_well_at(ring, winding, p) by {
            lemma_from_last_corners(ring, winding, next_index(p, len));
            assert(turns_well_at(turned, winding, next_index(p, len)));
        }
    }
    if holds_origin_inside(ring, winding) {
        assert forall|j: int| 0 <= j < len implies #[trigger] edge_reach(turned, winding, j) > 0 by {
            lemma_from_last_corners(ring, winding, j);
            assert(edge_reach(ring, winding, prev_index(j, len)) > 0);
        }
    }
    if holds_origin_inside(turned, winding) {
        assert forall|p: int| 0 <= p < len implies #[trigger] edge_reach(ring, winding, p) > 0 by {
            lemma_from_last_corners(ring, winding, next_index(p, len));
            assert(edge_reach(turned, winding, next_index(p, len)) > 0);
        }
    }
    if is_convex_spec(ring) {
        assert forall|i: int, j: int| 0 <= i < len && 0 <= j < len implies !turns_against(
            #[trigger] corner_turn(turned, i),
            #[trigger] corner_turn(turned, j),
        ) by {
            assert(!turns_against(
                corner_turn(ring, prev_index(i, len)),
                corner_turn(ring, prev_index(j, len)),
            ));
        }
    }
    if is_convex_spec(turned) {
        assert forall|i: int, j: int| 0 <= i < len && 0 <= j < len implies !turns_against(
            #[trigger] corner_turn(ring, i),
            #[trigger] corner_turn(ring, j),
        ) by {
            assert(!turns_against(
                corner_turn(turned, next_index(i, len)),
                corner_turn(turned, next_index(j, len)),
            ));
        }
    }
}

/// A point that splits the last edge of a polygon stands first; the polygon
/// is then the one with the point at its end, named from its last point on.
pub proof fn lemma_split(ring: Seq<Vec2>, i: int, s: Vec2)
    requires
        0 <= i < ring.len(),
    ensures
        ring.insert(next_index(i, ring.len() as int), s) == (if i + 1 == ring.len() {
            from_last(ring.insert(i + 1, s))
        } else {
            ring.insert(i + 1, s)
        }),
{
    if i + 1 == ring.len() {
        let plain = ring.insert(i + 1, s);
        assert(plain.last() == s);
        assert(plain.drop_last() =~= ring);
        assert(ring.insert(0, s) =~= from_last(plain));
    }
}

/// A polygon is convex once a point splits one of its edges whether the
/// point is put at the index of the end of the edge or after its start.
pub proof fn lemma_split_is_convex(ring: Seq<Vec2>, i: int, s: Vec2)
    requires
        0 <= i < ring.len(),
    ensures
        is_convex_spec(ring.insert(next_index(i, ring.len() as int), s)) == is_convex_spec(
            ring.insert(i + 1, s),
        ),
{
    lemma_split(ring, i, s);
    lemma_from_last_keeps(ring.insert(i + 1, s), Winding::Left);
}

/// A polygon that turns one way still does so once a point that lies
/// beyond one of its edges splits that edge, if it is convex then.
pub proof fn lemma_split_keeps_turning(ring: Seq<Vec2>, winding: Winding, i: int, s: Vec2)
    requires
        is_well_turned(ring, winding),
        0 <= i < ring.len(),
        edge_normal(ring, winding, i).dot(s.minus(ring[i])) > 0,
        is_convex_spec(ring.insert(next_index(i, ring.len() as int), s)),
    ensures
        is_well_turned(ring.insert(next_index(i, ring.len() as int), s), winding),
{
    lemma_split(ring, i, s);
    lemma_split_is_convex(ring, i, s);
    lemma_from_last_keeps(ring.insert(i + 1, s), winding);
    lemma_insert_keeps_turning(ring, winding, i, s);
}

/// A polygon that turns one way and holds the origin on the inner side of
/// all its edges still holds it there once a point splits one of its edges
/// that lies beyond that edge and, seen from the origin, between its ends,
/// if the polygon still turns one way then.
pub proof fn lemma_split_keeps_origin(ring: Seq<Vec2>, winding: Winding, i: int, s: Vec2)
    requires
        is_well_turned(ring, winding),
        holds_origin_inside(ring, winding),
        0 <= i < ring.len(),
        edge_normal(ring, winding, i).dot(s.minus(ring[i])) > 0,
        !same_side(
            det_spec(Vec2::zero(), s, ring[i]),
            det_spec(Vec2::zero(), s, ring[next_index(i, ring.len() as int)]),
        ),
        is_well_turned(ring.insert(next_index(i, ring.len() as int), s), winding),
    ensures
        holds_origin_inside(ring.insert(next_index(i, ring.len() as int), s), winding),
{
    lemma_split(ring, i, s);
    lemma_from_last_keeps(ring.insert(i + 1, s), winding);
    lemma_insert_keeps_origin(ring, winding, i, s);
}

} // verus!
