//! Which edges the penetration solver may grow: between shapes with exact
//! support mappings that overlap strictly, every edge of a polygon of
//! support points that does not pass through the origin.

use crate::algebra::{
    lemma_cross_antisymmetric, lemma_cross_linear, lemma_dot_linear, lemma_dot_scale,
    lemma_dot_symmetric, lemma_level_edges, lemma_mul_dist, lemma_scale_unit,
    lemma_three_vectors,
};
use crate::epa::{
    closest_edge, corner_turn, edge_distance, edge_is_open, edge_normal, epa_run, is_convex_spec,
    is_first_closest, lemma_beyond, next_index, same_side, turns_against, TOLERANCE,
};
use crate::gjk::lemma_triple_product_is_turned;
use crate::overlap::{
    are_support_points, is_support_point, lemma_support_inside, lemma_support_spec_scales,
};
use crate::polygon::{
    edge, edge_reach, handedness, holds_origin_inside, is_well_turned, lemma_between_ends,
    lemma_corner_turn_is_cross, lemma_grown_edges, lemma_new_corner, lemma_outward_dot,
    lemma_reach_is_cross, lemma_split_is_convex, lemma_split_keeps_origin,
    lemma_split_keeps_turning, turns_well_at,
};
use crate::shapes::{is_exact, support_spec, Shape};
use crate::simplex::{outward, Winding};
use crate::vector::{det_spec, Vec2, ONE};
use vstd::prelude::*;

verus! {

/// Two placed shapes overlap strictly: along every direction the Minkowski
/// difference of the two ends beyond the origin.
pub open spec fn overlaps_strictly<S1: Shape, S2: Shape>(
    a: &S1,
    a_pos: Vec2,
    b: &S2,
    b_pos: Vec2,
) -> bool {
    forall|d: Vec2|
        d != Vec2::zero() ==> 0 < (#[trigger] support_spec(a, a_pos, b, b_pos, d)).dot(d)
}

/// A point `v` between two points `u` and `s`, seen from the origin, that
/// lies no nearer along `n` than `s` and no nearer along `e` than either,
/// while `u` lies as far along `n` as `v`: then `s` lies as far along `n`
/// too, and `e` points the way of `n`.
proof fn lemma_pivot(u: Vec2, v: Vec2, s: Vec2, n: Vec2, e: Vec2, big: int, w1: int, w2: int)
    requires
        w1 > 0,
        w2 > 0,
        v.scale(big) == u.scale(w1).plus(s.scale(w2)),
        u.dot(n) == v.dot(n),
        v.dot(n) > 0,
        s.dot(n) >= v.dot(n),
        u.dot(e) <= v.dot(e),
        s.dot(e) <= v.dot(e),
        v.dot(e) > 0,
        u != v,
    ensures
        e.cross(n) == 0,
        e.dot(n) > 0,
        e.scale(n.dot(n)) == n.scale(e.dot(n)),
{
    let d = v.dot(n);
    let h = v.dot(e);
    lemma_dot_scale(v, big, n);
    lemma_dot_scale(u, w1, n);
    lemma_dot_scale(s, w2, n);
    lemma_dot_linear(u.scale(w1), s.scale(w2), n);
    lemma_dot_scale(v, big, e);
    lemma_dot_scale(u, w1, e);
    lemma_dot_scale(s, w2, e);
    lemma_dot_linear(u.scale(w1), s.scale(w2), e);
    assert(big * d == w1 * d + w2 * s.dot(n));
    assert(big * h == w1 * u.dot(e) + w2 * s.dot(e));
    assert(big >= w1 + w2) by (nonlinear_arith)
        requires
            big * d == w1 * d + w2 * s.dot(n),
            s.dot(n) >= d,
            d > 0,
            w2 > 0,
    ;
    assert(big <= w1 + w2) by (nonlinear_arith)
        requires
            big * h == w1 * u.dot(e) + w2 * s.dot(e),
            u.dot(e) <= h,
            s.dot(e) <= h,
            h > 0,
            w1 > 0,
            w2 > 0,
    ;
    assert(u.dot(e) == h) by (nonlinear_arith)
        requires
            (w1 + w2) * h == w1 * u.dot(e) + w2 * s.dot(e),
            u.dot(e) <= h,
            s.dot(e) <= h,
            w1 > 0,
            w2 > 0,
    ;
    // Both `e` and `n` are at right angles to the way from `u` to `v`.
    let way = v.minus(u);
    lemma_dot_linear(v, u, n);
    lemma_dot_linear(v, u, e);
    lemma_dot_symmetric(e, way);
    lemma_dot_symmetric(n, way);
    lemma_level_edges(e, n, way);
    // Two vectors on one line are multiples of one another.
    lemma_triple_product_is_turned(n, e, n);
    lemma_scale_unit(n.perp());
    assert(n.cross(e) == 0) by (nonlinear_arith)
        requires
            e.cross(n) == 0,
    ;
    assert(e.scale(n.dot(n)).minus(n.scale(n.dot(e))) == Vec2::zero());
    lemma_dot_symmetric(n, e);
    assert(e.scale(n.dot(n)) == n.scale(e.dot(n)));
    lemma_dot_scale(e, n.dot(n), v);
    lemma_dot_scale(n, e.dot(n), v);
    lemma_dot_symmetric(e, v);
    lemma_dot_symmetric(n, v);
    assert(n != Vec2::zero()) by {
        if n == Vec2::zero() {
            assert(v.dot(n) == 0) by (nonlinear_arith)
                requires
                    n == Vec2::zero(),
            ;
        }
    }
    assert(n.dot(n) > 0) by (nonlinear_arith)
        requires
            n.dot(n) == n.x * n.x + n.y * n.y,
            n != Vec2::zero(),
    ;
    assert(e.dot(n) > 0) by (nonlinear_arith)
        requires
            n.dot(n) * h == e.dot(n) * d,
            n.dot(n) > 0,
            h > 0,
            d > 0,
    ;
}

/// Between shapes with exact support mappings that overlap strictly, a
/// support point `v` that lies, seen from the origin, between a support
/// point `u` and the support point along `n`, and as far along `n` as `u`,
/// is the support point along `n`.
proof fn lemma_pivot_is_the_support<S1: Shape, S2: Shape>(
    a: &S1,
    a_pos: Vec2,
    b: &S2,
    b_pos: Vec2,
    u: Vec2,
    v: Vec2,
    n: Vec2,
    big: int,
    w1: int,
    w2: int,
)
    requires
        a.wf(),
        b.wf(),
        is_exact(a),
        is_exact(b),
        overlaps_strictly(a, a_pos, b, b_pos),
        is_support_point(a, a_pos, b, b_pos, u),
        is_support_point(a, a_pos, b, b_pos, v),
        w1 > 0,
        w2 > 0,
        v.scale(big) == u.scale(w1).plus(support_spec(a, a_pos, b, b_pos, n).scale(w2)),
        u.dot(n) == v.dot(n),
        v.dot(n) > 0,
        u != v,
    ensures
        v == support_spec(a, a_pos, b, b_pos, n),
{
    let s = support_spec(a, a_pos, b, b_pos, n);
    let e = choose|e: Vec2| e != Vec2::zero() && v == #[trigger] support_spec(a, a_pos, b, b_pos, e);
    let f = choose|f: Vec2| f != Vec2::zero() && u == #[trigger] support_spec(a, a_pos, b, b_pos, f);
    assert(0 < support_spec(a, a_pos, b, b_pos, e).dot(e));
    lemma_support_inside(a, a_pos, b, b_pos, f, e);
    lemma_support_inside(a, a_pos, b, b_pos, n, e);
    lemma_support_inside(a, a_pos, b, b_pos, e, n);
    lemma_mul_dist(a.slack() as int, b.slack() as int, e.norm1());
    lemma_mul_dist(a.slack() as int, b.slack() as int, n.norm1());
    lemma_pivot(u, v, s, n, e, big, w1, w2);
    assert(n.dot(n) > 0) by (nonlinear_arith)
        requires
            n.dot(n) == n.x * n.x + n.y * n.y,
            v.dot(n) > 0,
            v.dot(n) == v.x * n.x + v.y * n.y,
    ;
    lemma_support_spec_scales(a, a_pos, b, b_pos, e, n.dot(n));
    lemma_support_spec_scales(a, a_pos, b, b_pos, n, e.dot(n));
}

/// Three vectors of the plane, each as a combination of the other two.
proof fn lemma_pivot_identity(a: Vec2, b: Vec2, s: Vec2)
    ensures
        b.scale(a.cross(s)) == a.scale(b.cross(s)).plus(s.scale(a.cross(b))),
        b.scale(-a.cross(s)) == a.scale(-b.cross(s)).plus(s.scale(-a.cross(b))),
        a.scale(b.cross(s)) == b.scale(a.cross(s)).plus(s.scale(-a.cross(b))),
        a.scale(-b.cross(s)) == b.scale(-a.cross(s)).plus(s.scale(a.cross(b))),
{
    lemma_three_vectors(a, b, s);
    let x = a.cross(s);
    let y = b.cross(s);
    let z = a.cross(b);
    assert(s.cross(b) == -y && b.cross(a) == -z) by (nonlinear_arith)
        requires
            y == b.cross(s),
            z == a.cross(b),
    ;
    lemma_mul_dist(0, x, b.x);
    lemma_mul_dist(0, x, b.y);
    lemma_mul_dist(0, y, a.x);
    lemma_mul_dist(0, y, a.y);
    lemma_mul_dist(0, z, s.x);
    lemma_mul_dist(0, z, s.y);
    lemma_mul_dist(x, 0, b.x);
    lemma_mul_dist(x, 0, b.y);
    lemma_mul_dist(y, 0, a.x);
    lemma_mul_dist(y, 0, a.y);
    lemma_mul_dist(z, 0, s.x);
    lemma_mul_dist(z, 0, s.y);
}

/// Between shapes with exact support mappings that overlap strictly, every
/// edge of a polygon of support points can be grown, unless its line
/// passes through the origin or separates the origin from the polygon.
pub proof fn lemma_edge_is_open<S1: Shape, S2: Shape>(
    a: &S1,
    a_pos: Vec2,
    b: &S2,
    b_pos: Vec2,
    ring: Seq<Vec2>,
    winding: Winding,
    i: int,
)
    requires
        a.wf(),
        b.wf(),
        is_exact(a),
        is_exact(b),
        overlaps_strictly(a, a_pos, b, b_pos),
        are_support_points(a, a_pos, b, b_pos, ring),
        0 <= i < ring.len(),
        edge_normal(ring, winding, i).dot(ring[i]) > 0,
    ensures
        edge_is_open(a, a_pos, b, b_pos, ring, winding, i),
{
    let n = ring.len() as int;
    let j = next_index(i, n);
    let p = ring[i];
    let q = ring[j];
    let normal = edge_normal(ring, winding, i);
    let s = support_spec(a, a_pos, b, b_pos, normal);
    let before = det_spec(Vec2::zero(), s, p);
    let after = det_spec(Vec2::zero(), s, q);
    assert(normal != Vec2::zero()) by {
        if normal == Vec2::zero() {
            assert(normal.dot(p) == 0) by (nonlinear_arith)
                requires
                    normal == Vec2::zero(),
            ;
        }
    }
    assert(before == p.cross(s) && after == q.cross(s)) by (nonlinear_arith)
        requires
            before == det_spec(Vec2::zero(), s, p),
            after == det_spec(Vec2::zero(), s, q),
    ;
    if same_side(before, after) {
        let h = handedness(winding);
        let side = q.minus(p);
        lemma_outward_dot(side, p, winding);
        lemma_outward_dot(side, side, winding);
        lemma_dot_linear(q, p, normal);
        lemma_dot_symmetric(normal, p);
        lemma_dot_symmetric(normal, q);
        lemma_dot_symmetric(normal, side);
        assert(p.dot(normal) == q.dot(normal));
        assert(p.cross(side) == p.cross(q)) by (nonlinear_arith)
            requires
                side == q.minus(p),
        ;
        assert(h * p.cross(q) > 0);
        assert(p != q) by {
            if p == q {
                assert(p.cross(q) == 0) by (nonlinear_arith)
                    requires
                        p == q,
                ;
            }
        }
        assert(is_support_point(a, a_pos, b, b_pos, p));
        assert(is_support_point(a, a_pos, b, b_pos, q));
        lemma_pivot_identity(p, q, s);
        let x = p.cross(s);
        let y = q.cross(s);
        let z = p.cross(q);
        if h == 1 {
            if x > 0 {
                lemma_pivot_is_the_support(a, a_pos, b, b_pos, p, q, normal, x, y, z);
                assert(q.cross(q) == 0) by (nonlinear_arith);
            } else {
                lemma_pivot_is_the_support(a, a_pos, b, b_pos, q, p, normal, -y, -x, z);
                assert(p.cross(p) == 0) by (nonlinear_arith);
            }
        } else {
            if x > 0 {
                lemma_pivot_is_the_support(a, a_pos, b, b_pos, q, p, normal, y, x, -z);
                assert(p.cross(p) == 0) by (nonlinear_arith);
            } else {
                lemma_pivot_is_the_support(a, a_pos, b, b_pos, p, q, normal, -x, -y, -z);
                assert(q.cross(q) == 0) by (nonlinear_arith);
            }
        }
    }
}

/// Among the first `k` edges of a polygon, all of which can be grown, one is
/// the first to lie at the least distance from the origin.
proof fn lemma_first_closest_among<S1: Shape, S2: Shape>(
    a: &S1,
    a_pos: Vec2,
    b: &S2,
    b_pos: Vec2,
    ring: Seq<Vec2>,
    winding: Winding,
    k: int,
) -> (i: int)
    requires
        1 <= k <= ring.len(),
    ensures
        0 <= i < k,
        forall|j: int| 0 <= j < k ==> edge_distance(ring, winding, i) <= #[trigger] edge_distance(
            ring,
            winding,
            j,
        ),
        forall|j: int| 0 <= j < i ==> edge_distance(ring, winding, i) < #[trigger] edge_distance(
            ring,
            winding,
            j,
        ),
    decreases k,
{
    if k == 1 {
        0
    } else {
        let i = lemma_first_closest_among(a, a_pos, b, b_pos, ring, winding, k - 1);
        if edge_distance(ring, winding, k - 1) < edge_distance(ring, winding, i) {
            k - 1
        } else {
            i
        }
    }
}

/// A polygon all of whose edges can be grown has a closest edge.
pub proof fn lemma_some_edge_is_closest<S1: Shape, S2: Shape>(
    a: &S1,
    a_pos: Vec2,
    b: &S2,
    b_pos: Vec2,
    ring: Seq<Vec2>,
    winding: Winding,
)
    requires
        ring.len() >= 1,
        forall|j: int|
            0 <= j < ring.len() ==> #[trigger] edge_is_open(a, a_pos, b, b_pos, ring, winding, j),
    ensures
        closest_edge(a, a_pos, b, b_pos, ring, winding) is Some,
{
    let i = lemma_first_closest_among(a, a_pos, b, b_pos, ring, winding, ring.len() as int);
    assert(edge_is_open(a, a_pos, b, b_pos, ring, winding, i));
    assert(is_first_closest(a, a_pos, b, b_pos, ring, winding, i));
}

/// Between shapes with exact support mappings that overlap strictly, a
/// polygon of support points has no dent: at a corner `p` that lies, seen
/// from the origin, between its neighbours `q` and `r`, it does not turn
/// against its winding.
proof fn lemma_no_dent<S1: Shape, S2: Shape>(
    a: &S1,
    a_pos: Vec2,
    b: &S2,
    b_pos: Vec2,
    q: Vec2,
    p: Vec2,
    r: Vec2,
    winding: Winding,
)
    requires
        a.wf(),
        b.wf(),
        is_exact(a),
        is_exact(b),
        overlaps_strictly(a, a_pos, b, b_pos),
        is_support_point(a, a_pos, b, b_pos, q),
        is_support_point(a, a_pos, b, b_pos, p),
        is_support_point(a, a_pos, b, b_pos, r),
        handedness(winding) * q.cross(p) >= 0,
        handedness(winding) * p.cross(r) >= 0,
        handedness(winding) * q.cross(p) + handedness(winding) * p.cross(r) > 0,
    ensures
        handedness(winding) * p.minus(q).cross(r.minus(p)) >= 0,
{
    let h = handedness(winding);
    let x = q.cross(r);
    let y = p.cross(r);
    let z = q.cross(p);
    lemma_cross_linear(p, q, r.minus(p));
    lemma_cross_linear(r, p, p);
    lemma_cross_linear(r, p, q);
    lemma_cross_antisymmetric(p, p);
    assert(p.minus(q).cross(r.minus(p)) == y - x + z);
    if h * (y - x + z) < 0 {
        let e = choose|e: Vec2|
            e != Vec2::zero() && p == #[trigger] support_spec(a, a_pos, b, b_pos, e);
        let f = choose|f: Vec2|
            f != Vec2::zero() && q == #[trigger] support_spec(a, a_pos, b, b_pos, f);
        let g = choose|g: Vec2|
            g != Vec2::zero() && r == #[trigger] support_spec(a, a_pos, b, b_pos, g);
        assert(0 < support_spec(a, a_pos, b, b_pos, e).dot(e));
        lemma_support_inside(a, a_pos, b, b_pos, f, e);
        lemma_support_inside(a, a_pos, b, b_pos, g, e);
        lemma_mul_dist(a.slack() as int, b.slack() as int, e.norm1());
        // The corner is a combination of its neighbours.
        lemma_pivot_identity(q, p, r);
        let big = h * x;
        let w1 = h * y;
        let w2 = h * z;
        assert(p.scale(big) == q.scale(w1).plus(r.scale(w2))) by {
            if h == 1 {
                assert(h * x == x && h * y == y && h * z == z);
            } else {
                assert(h * x == -x && h * y == -y && h * z == -z);
            }
        }
        lemma_dot_scale(p, big, e);
        lemma_dot_scale(q, w1, e);
        lemma_dot_scale(r, w2, e);
        lemma_dot_linear(q.scale(w1), r.scale(w2), e);
        assert(big > w1 + w2) by {
            if h == 1 {
                assert(h * (y - x + z) == y - x + z);
            } else {
                assert(h * (y - x + z) == -(y - x + z));
            }
        }
        assert(false) by (nonlinear_arith)
            requires
                big * p.dot(e) == w1 * q.dot(e) + w2 * r.dot(e),
                q.dot(e) <= p.dot(e),
                r.dot(e) <= p.dot(e),
                p.dot(e) > 0,
                w1 >= 0,
                w2 >= 0,
                big > w1 + w2,
        ;
    }
}

/// Between shapes with exact support mappings that overlap strictly, a
/// polygon of support points that turns one way and holds the origin on the
/// inner side of all its edges stays convex when the support point along
/// the normal of one of its edges is inserted after the start of that edge.
pub proof fn lemma_grown_is_convex<S1: Shape, S2: Shape>(
    a: &S1,
    a_pos: Vec2,
    b: &S2,
    b_pos: Vec2,
    ring: Seq<Vec2>,
    winding: Winding,
    i: int,
)
    requires
        a.wf(),
        b.wf(),
        is_exact(a),
        is_exact(b),
        overlaps_strictly(a, a_pos, b, b_pos),
        are_support_points(a, a_pos, b, b_pos, ring),
        is_well_turned(ring, winding),
        holds_origin_inside(ring, winding),
        0 <= i < ring.len(),
        edge_is_open(a, a_pos, b, b_pos, ring, winding, i),
        ({
            let n = edge_normal(ring, winding, i);
            n.dot(support_spec(a, a_pos, b, b_pos, n).minus(ring[i])) > 0
        }),
    ensures
        is_convex_spec(
            ring.insert(i + 1, support_spec(a, a_pos, b, b_pos, edge_normal(ring, winding, i))),
        ),
{
    let n = edge_normal(ring, winding, i);
    let s = support_spec(a, a_pos, b, b_pos, n);
    let grown = ring.insert(i + 1, s);
    let h = handedness(winding);
    assert forall|g: int| 0 <= g < grown.len() implies h * #[trigger] corner_turn(grown, g)
        <= 0 by {
        lemma_grown_corner(a, a_pos, b, b_pos, ring, winding, i, g);
    }
    assert forall|g: int, k: int| 0 <= g < grown.len() && 0 <= k < grown.len() implies !turns_against(
        #[trigger] corner_turn(grown, g),
        #[trigger] corner_turn(grown, k),
    ) by {
        assert(h * corner_turn(grown, g) <= 0);
        assert(h * corner_turn(grown, k) <= 0);
        if h == 1 {
            assert(h * corner_turn(grown, g) == corner_turn(grown, g));
            assert(h * corner_turn(grown, k) == corner_turn(grown, k));
        } else {
            assert(h * corner_turn(grown, g) == -corner_turn(grown, g));
            assert(h * corner_turn(grown, k) == -corner_turn(grown, k));
        }
    }
}

/// One corner of the polygon into which a support point has been inserted.
proof fn lemma_grown_corner<S1: Shape, S2: Shape>(
    a: &S1,
    a_pos: Vec2,
    b: &S2,
    b_pos: Vec2,
    ring: Seq<Vec2>,
    winding: Winding,
    i: int,
    g: int,
)
    requires
        a.wf(),
        b.wf(),
        is_exact(a),
        is_exact(b),
        overlaps_strictly(a, a_pos, b, b_pos),
        are_support_points(a, a_pos, b, b_pos, ring),
        is_well_turned(ring, winding),
        holds_origin_inside(ring, winding),
        0 <= i < ring.len(),
        0 <= g <= ring.len(),
        edge_is_open(a, a_pos, b, b_pos, ring, winding, i),
        ({
            let n = edge_normal(ring, winding, i);
            n.dot(support_spec(a, a_pos, b, b_pos, n).minus(ring[i])) > 0
        }),
    ensures
        handedness(winding) * corner_turn(
            ring.insert(i + 1, support_spec(a, a_pos, b, b_pos, edge_normal(ring, winding, i))),
            g,
        ) <= 0,
{
    let len = ring.len() as int;
    let m = len + 1;
    let n = edge_normal(ring, winding, i);
    let s = support_spec(a, a_pos, b, b_pos, n);
    let grown = ring.insert(i + 1, s);
    let h = handedness(winding);
    let j = next_index(i, len);
    let p = ring[i];
    let q = ring[j];
    let g1 = next_index(g, m);
    assert(grown.len() == m);
    lemma_corner_turn_is_cross(grown, g);
    lemma_grown_edges(ring, i, s, g);
    lemma_grown_edges(ring, i, s, g1);
    let e0 = edge(grown, g);
    let e1 = edge(grown, g1);
    assert(n != Vec2::zero());
    assert(is_support_point(a, a_pos, b, b_pos, s));
    assert(is_support_point(a, a_pos, b, b_pos, p));
    assert(is_support_point(a, a_pos, b, b_pos, q));
    assert(edge_reach(ring, winding, i) > 0);
    lemma_reach_is_cross(p, q, winding);
    assert(det_spec(Vec2::zero(), s, p) == p.cross(s) && det_spec(Vec2::zero(), s, q) == q.cross(s))
        by (nonlinear_arith);
    lemma_between_ends(p, q, s, winding);
    if g == i {
        lemma_new_corner(p, q, s, winding);
    } else if g == i + 1 {
        let c = ring[next_index(j, len)];
        assert(is_support_point(a, a_pos, b, b_pos, c));
        assert(edge_reach(ring, winding, j) > 0);
        lemma_reach_is_cross(q, c, winding);
        lemma_no_dent(a, a_pos, b, b_pos, s, q, c, winding);
        assert(e0 == q.minus(s));
        assert(e1 == c.minus(q));
    } else if g1 == i {
        let prev = if i == 0 { len - 1 } else { i - 1 };
        assert(next_index(prev, len) == i);
        assert(is_support_point(a, a_pos, b, b_pos, ring[prev]));
        assert(edge_reach(ring, winding, prev) > 0);
        lemma_reach_is_cross(ring[prev], p, winding);
        lemma_no_dent(a, a_pos, b, b_pos, ring[prev], p, s, winding);
        assert(e0 == p.minus(ring[prev]));
        assert(e1 == s.minus(p));
    } else {
        let c = if g < i { g } else { g - 1 };
        assert(e0 == edge(ring, c));
        assert(e1 == edge(ring, next_index(c, len)));
        assert(turns_well_at(ring, winding, c));
    }
    assert(h * e0.cross(e1) >= 0);
    lemma_mul_dist(0, e0.cross(e1), h);
}

/// Between shapes with exact support mappings that overlap strictly, a run
/// that sets out from a polygon of support points that turns one way and
/// holds the origin on the inner side of all its edges ends with an answer,
/// unless it runs out of steps.
pub proof fn lemma_run_answers<S1: Shape, S2: Shape>(
    a: &S1,
    a_pos: Vec2,
    b: &S2,
    b_pos: Vec2,
    ring: Seq<Vec2>,
    winding: Winding,
    normal: Vec2,
    depth: int,
    fuel: nat,
)
    requires
        a.wf(),
        b.wf(),
        is_exact(a),
        is_exact(b),
        overlaps_strictly(a, a_pos, b, b_pos),
        are_support_points(a, a_pos, b, b_pos, ring),
        is_well_turned(ring, winding),
        holds_origin_inside(ring, winding),
    ensures
        ({
            let outcome = epa_run(a, a_pos, b, b_pos, ring, winding, normal, depth, fuel);
            outcome is Solved || outcome is IterationLimit
        }),
    decreases fuel,
{
    if fuel == 0 {
    } else {
        assert forall|j: int| 0 <= j < ring.len() implies #[trigger] edge_is_open(
            a,
            a_pos,
            b,
            b_pos,
            ring,
            winding,
            j,
        ) by {
            assert(edge_reach(ring, winding, j) > 0);
            lemma_edge_is_open(a, a_pos, b, b_pos, ring, winding, j);
        }
        lemma_some_edge_is_closest(a, a_pos, b, b_pos, ring, winding);
        let i = closest_edge(a, a_pos, b, b_pos, ring, winding)->0;
        assert(is_first_closest(a, a_pos, b, b_pos, ring, winding, i));
        let n = edge_normal(ring, winding, i);
        let sup = support_spec(a, a_pos, b, b_pos, n);
        let reach = n.projection(sup);
        if reach - edge_distance(ring, winding, i) < TOLERANCE {
        } else {
            let at = next_index(i, ring.len() as int);
            let grown = ring.insert(at, sup);
            lemma_beyond(n, sup, ring[i]);
            lemma_grown_is_convex(a, a_pos, b, b_pos, ring, winding, i);
            lemma_split_is_convex(ring, i, sup);
            lemma_split_keeps_turning(ring, winding, i, sup);
            lemma_split_keeps_origin(ring, winding, i, sup);
            assert(is_support_point(a, a_pos, b, b_pos, sup));
            assert forall|k: int| 0 <= k < grown.len() implies is_support_point(
                a,
                a_pos,
                b,
                b_pos,
                #[trigger] grown[k],
            ) by {
                if k < at {
                    assert(grown[k] == ring[k]);
                } else if k > at {
                    assert(grown[k] == ring[k - 1]);
                }
            }
            lemma_run_answers(
                a,
                a_pos,
                b,
                b_pos,
                grown,
                winding,
                n.resized(ONE as int),
                reach,
                (fuel - 1) as nat,
            );
        }
    }
}

} // verus!
