//! What it means for two placed shapes to overlap, stated over the support
//! mapping of their Minkowski difference, and the certificates from which
//! the searches conclude it.

use crate::algebra::{lemma_dot_linear, lemma_dot_scale, lemma_mul_dist};
use crate::shapes::{is_exact, support_spec, Shape};
use crate::vector::Vec2;
use vstd::prelude::*;

verus! {

/// Two placed shapes overlap: along no direction does the Minkowski
/// difference of the two end before the origin, so that no line separates
/// one shape from the other.
pub open spec fn overlaps<S1: Shape, S2: Shape>(a: &S1, a_pos: Vec2, b: &S2, b_pos: Vec2) -> bool {
    forall|d: Vec2| 0 <= (#[trigger] support_spec(a, a_pos, b, b_pos, d)).dot(d)
}

/// Two placed shapes overlap or nearly do: along no direction does the
/// Minkowski difference of the two end before the origin by more than
/// `slack` for each unit of the components of the direction.
pub open spec fn overlaps_within<S1: Shape, S2: Shape>(
    a: &S1,
    a_pos: Vec2,
    b: &S2,
    b_pos: Vec2,
    slack: int,
) -> bool {
    forall|d: Vec2| 0 <= (#[trigger] support_spec(a, a_pos, b, b_pos, d)).dot(d) + slack * d.norm1()
}

/// To overlap is to overlap within no slack.
pub proof fn lemma_overlaps_within_zero<S1: Shape, S2: Shape>(
    a: &S1,
    a_pos: Vec2,
    b: &S2,
    b_pos: Vec2,
)
    ensures
        overlaps(a, a_pos, b, b_pos) == overlaps_within(a, a_pos, b, b_pos, 0),
{
    if overlaps(a, a_pos, b, b_pos) {
        assert forall|d: Vec2| 0 <= (#[trigger] support_spec(a, a_pos, b, b_pos, d)).dot(d) + 0
            * d.norm1() by {}
    }
    if overlaps_within(a, a_pos, b, b_pos, 0) {
        assert forall|d: Vec2| 0 <= (#[trigger] support_spec(a, a_pos, b, b_pos, d)).dot(d) by {
            assert(0 <= support_spec(a, a_pos, b, b_pos, d).dot(d) + 0 * d.norm1());
        }
    }
}

/// The point of the Minkowski difference that the start points of the two
/// shapes give.
pub open spec fn start_between<S1: Shape, S2: Shape>(
    a: &S1,
    a_pos: Vec2,
    b: &S2,
    b_pos: Vec2,
) -> Vec2 {
    a_pos.plus(a.start_point()).minus(b_pos.plus(b.start_point()))
}

/// `p` is a value of the support mapping of the Minkowski difference, for
/// a direction that is not zero.
pub open spec fn is_support_point<S1: Shape, S2: Shape>(
    a: &S1,
    a_pos: Vec2,
    b: &S2,
    b_pos: Vec2,
    p: Vec2,
) -> bool {
    exists|d: Vec2| d != Vec2::zero() && p == #[trigger] support_spec(a, a_pos, b, b_pos, d)
}

/// Every point of `points` is a value of the support mapping of the
/// Minkowski difference.
pub open spec fn are_support_points<S1: Shape, S2: Shape>(
    a: &S1,
    a_pos: Vec2,
    b: &S2,
    b_pos: Vec2,
    points: Seq<Vec2>,
) -> bool {
    forall|i: int| 0 <= i < points.len() ==> is_support_point(a, a_pos, b, b_pos, #[trigger] points[i])
}

/// The sum of `c` and of the first three of `points`, each scaled by its
/// weight.
pub open spec fn weighted_sum(wc: int, w0: int, w1: int, w2: int, c: Vec2, points: Seq<Vec2>) -> Vec2 {
    c.scale(wc).plus(points[0].scale(w0)).plus(points[1].scale(w1)).plus(points[2].scale(w2))
}

/// The weights are not negative, not all zero, zero for the points that
/// `points` lacks, and balance `c` and `points` about the origin.
pub open spec fn is_balance(wc: int, w0: int, w1: int, w2: int, c: Vec2, points: Seq<Vec2>) -> bool {
    &&& 1 <= points.len() <= 3
    &&& wc >= 0 && w0 >= 0 && w1 >= 0 && w2 >= 0
    &&& wc + w0 + w1 + w2 > 0
    &&& points.len() < 2 ==> w1 == 0
    &&& points.len() < 3 ==> w2 == 0
    &&& weighted_sum(wc, w0, w1, w2, c, points) == Vec2::zero()
}

/// The origin lies in the convex hull of `c` and `points`.
pub open spec fn holds_origin(c: Vec2, points: Seq<Vec2>) -> bool {
    exists|wc: int, w0: int, w1: int, w2: int| is_balance(wc, w0, w1, w2, c, points)
}

/// The origin lies in the convex hull of `points` themselves.
pub open spec fn encloses_origin(points: Seq<Vec2>) -> bool {
    exists|w0: int, w1: int, w2: int| is_balance(0, w0, w1, w2, Vec2::zero(), points)
}

/// Along no direction does the point between the start points lie beyond
/// the support point of the Minkowski difference.
pub proof fn lemma_start_between_inside<S1: Shape, S2: Shape>(
    a: &S1,
    a_pos: Vec2,
    b: &S2,
    b_pos: Vec2,
    d: Vec2,
)
    requires
        a.wf(),
        b.wf(),
    ensures
        start_between(a, a_pos, b, b_pos).dot(d) <= support_spec(a, a_pos, b, b_pos, d).dot(d),
{
    a.lemma_start_inside(d);
    b.lemma_start_inside(d.neg());
    lemma_dot_linear(a_pos.plus(a.start_point()), b_pos.plus(b.start_point()), d);
    lemma_dot_linear(a_pos, a.start_point(), d);
    lemma_dot_linear(b_pos, b.start_point(), d);
    lemma_dot_linear(a_pos.plus(a.support_point(d)), b_pos.plus(b.support_point(d.neg())), d);
    lemma_dot_linear(a_pos, a.support_point(d), d);
    lemma_dot_linear(b_pos, b.support_point(d.neg()), d);
    lemma_dot_neg_right(b.start_point(), d);
    lemma_dot_neg_right(b.support_point(d.neg()), d);
}

/// The scalar product changes its sign with either factor.
pub proof fn lemma_dot_neg_right(a: Vec2, d: Vec2)
    by (nonlinear_arith)
    ensures
        a.dot(d.neg()) == -a.dot(d),
{
}

/// No support point of the Minkowski difference lies, along `d`, beyond the
/// one for `d` by more than the slack of the two shapes allows.
pub proof fn lemma_support_inside<S1: Shape, S2: Shape>(
    a: &S1,
    a_pos: Vec2,
    b: &S2,
    b_pos: Vec2,
    e: Vec2,
    d: Vec2,
)
    requires
        a.wf(),
        b.wf(),
    ensures
        support_spec(a, a_pos, b, b_pos, e).dot(d) <= support_spec(a, a_pos, b, b_pos, d).dot(d) + (
        a.slack() + b.slack()) * d.norm1(),
{
    a.lemma_support_consistent(d, e);
    b.lemma_support_consistent(d.neg(), e.neg());
    assert(d.neg().norm1() == d.norm1());
    lemma_dot_linear(a_pos.plus(a.support_point(e)), b_pos.plus(b.support_point(e.neg())), d);
    lemma_dot_linear(a_pos, a.support_point(e), d);
    lemma_dot_linear(b_pos, b.support_point(e.neg()), d);
    lemma_dot_linear(a_pos.plus(a.support_point(d)), b_pos.plus(b.support_point(d.neg())), d);
    lemma_dot_linear(a_pos, a.support_point(d), d);
    lemma_dot_linear(b_pos, b.support_point(d.neg()), d);
    lemma_dot_neg_right(b.support_point(e.neg()), d);
    lemma_dot_neg_right(b.support_point(d.neg()), d);
    lemma_mul_dist(a.slack() as int, b.slack() as int, d.norm1());
}

/// Where the origin lies in the convex hull of the point between the start
/// points and of support points of the Minkowski difference, the shapes
/// overlap within the slack of the two: they overlap, where the support
/// mappings of both are exact.
pub proof fn lemma_hull_overlaps<S1: Shape, S2: Shape>(
    a: &S1,
    a_pos: Vec2,
    b: &S2,
    b_pos: Vec2,
    points: Seq<Vec2>,
)
    requires
        a.wf(),
        b.wf(),
        are_support_points(a, a_pos, b, b_pos, points),
        holds_origin(start_between(a, a_pos, b, b_pos), points),
    ensures
        overlaps_within(a, a_pos, b, b_pos, a.slack() + b.slack()),
        is_exact(a) && is_exact(b) ==> overlaps(a, a_pos, b, b_pos),
{
    let c = start_between(a, a_pos, b, b_pos);
    let slack = a.slack() + b.slack();
    let (wc, w0, w1, w2) = choose|wc: int, w0: int, w1: int, w2: int|
        is_balance(wc, w0, w1, w2, c, points);
    assert forall|d: Vec2| 0 <= (#[trigger] support_spec(a, a_pos, b, b_pos, d)).dot(d) + slack
        * d.norm1() by {
        let h = support_spec(a, a_pos, b, b_pos, d).dot(d) + slack * d.norm1();
        lemma_start_between_inside(a, a_pos, b, b_pos, d);
        a.lemma_support_consistent(d, d);
        b.lemma_support_consistent(d, d);
        assert(slack * d.norm1() >= 0) by (nonlinear_arith)
            requires
                slack >= 0,
                d.norm1() >= 0,
        ;
        lemma_weight_bound(a, a_pos, b, b_pos, points, 0, w0, d);
        lemma_weight_bound(a, a_pos, b, b_pos, points, 1, w1, d);
        lemma_weight_bound(a, a_pos, b, b_pos, points, 2, w2, d);
        let t0 = c.scale(wc);
        let t1 = points[0].scale(w0);
        let t2 = points[1].scale(w1);
        let t3 = points[2].scale(w2);
        lemma_dot_linear(t0.plus(t1).plus(t2), t3, d);
        lemma_dot_linear(t0.plus(t1), t2, d);
        lemma_dot_linear(t0, t1, d);
        lemma_dot_scale(c, wc, d);
        assert(wc * c.dot(d) <= wc * h) by (nonlinear_arith)
            requires
                wc >= 0,
                c.dot(d) <= h,
        ;
        assert(Vec2::zero().dot(d) == 0);
        lemma_mul_dist(wc + w0, w1 + w2, h);
        lemma_mul_dist(wc, w0, h);
        lemma_mul_dist(w1, w2, h);
        assert(0 <= (wc + w0 + w1 + w2) * h);
        assert(0 <= h) by (nonlinear_arith)
            requires
                0 <= (wc + w0 + w1 + w2) * h,
                wc + w0 + w1 + w2 > 0,
        ;
    }
    if is_exact(a) && is_exact(b) {
        lemma_overlaps_within_zero(a, a_pos, b, b_pos);
    }
}

/// A weighted support point reaches along `d` no farther than the weight
/// times the reach of the Minkowski difference, slack included.
proof fn lemma_weight_bound<S1: Shape, S2: Shape>(
    a: &S1,
    a_pos: Vec2,
    b: &S2,
    b_pos: Vec2,
    points: Seq<Vec2>,
    i: int,
    w: int,
    d: Vec2,
)
    requires
        a.wf(),
        b.wf(),
        are_support_points(a, a_pos, b, b_pos, points),
        w >= 0,
        0 <= i,
        i >= points.len() ==> w == 0,
    ensures
        points[i].scale(w).dot(d) <= w * (support_spec(a, a_pos, b, b_pos, d).dot(d) + (a.slack()
            + b.slack()) * d.norm1()),
{
    let h = support_spec(a, a_pos, b, b_pos, d).dot(d) + (a.slack() + b.slack()) * d.norm1();
    lemma_dot_scale(points[i], w, d);
    if i < points.len() {
        assert(is_support_point(a, a_pos, b, b_pos, points[i]));
        let e = choose|e: Vec2|
            e != Vec2::zero() && points[i] == #[trigger] support_spec(a, a_pos, b, b_pos, e);
        lemma_support_inside(a, a_pos, b, b_pos, e, d);
        assert(w * points[i].dot(d) <= w * h) by (nonlinear_arith)
            requires
                w >= 0,
                points[i].dot(d) <= h,
        ;
    } else {
        assert(w * points[i].dot(d) == 0 && w * h == 0) by (nonlinear_arith)
            requires
                w == 0,
        ;
    }
}

/// Whether two shapes overlap does not depend on which is named first.
pub proof fn lemma_overlaps_symmetric<S1: Shape, S2: Shape>(a: &S1, a_pos: Vec2, b: &S2, b_pos: Vec2)
    ensures
        overlaps(a, a_pos, b, b_pos) == overlaps(b, b_pos, a, a_pos),
{
    if overlaps(a, a_pos, b, b_pos) {
        assert forall|d: Vec2| 0 <= (#[trigger] support_spec(b, b_pos, a, a_pos, d)).dot(d) by {
            lemma_support_mirrored(a, a_pos, b, b_pos, d.neg());
            assert(d.neg().neg() == d);
            assert(0 <= support_spec(a, a_pos, b, b_pos, d.neg()).dot(d.neg()));
        }
    }
    if overlaps(b, b_pos, a, a_pos) {
        assert forall|d: Vec2| 0 <= (#[trigger] support_spec(a, a_pos, b, b_pos, d)).dot(d) by {
            lemma_support_mirrored(b, b_pos, a, a_pos, d.neg());
            assert(d.neg().neg() == d);
            assert(0 <= support_spec(b, b_pos, a, a_pos, d.neg()).dot(d.neg()));
        }
    }
}

/// With the shapes exchanged, the support mapping of the Minkowski
/// difference is mirrored at the origin.
pub proof fn lemma_support_mirrored<S1: Shape, S2: Shape>(
    a: &S1,
    a_pos: Vec2,
    b: &S2,
    b_pos: Vec2,
    d: Vec2,
)
    ensures
        support_spec(b, b_pos, a, a_pos, d.neg()) == support_spec(a, a_pos, b, b_pos, d).neg(),
        support_spec(b, b_pos, a, a_pos, d.neg()).dot(d.neg()) == support_spec(
            a,
            a_pos,
            b,
            b_pos,
            d,
        ).dot(d),
{
    assert(d.neg().neg() == d);
    let m = support_spec(a, a_pos, b, b_pos, d);
    assert(m.neg().dot(d.neg()) == m.dot(d)) by (nonlinear_arith);
}

/// Whether two shapes overlap does not change when both are moved alike.
pub proof fn lemma_overlaps_translated<S1: Shape, S2: Shape>(
    a: &S1,
    a_pos: Vec2,
    b: &S2,
    b_pos: Vec2,
    t: Vec2,
)
    ensures
        overlaps(a, a_pos.plus(t), b, b_pos.plus(t)) == overlaps(a, a_pos, b, b_pos),
{
    assert forall|d: Vec2|
        support_spec(a, a_pos.plus(t), b, b_pos.plus(t), d) == support_spec(a, a_pos, b, b_pos, d) by {
    }
    if overlaps(a, a_pos, b, b_pos) {
        assert forall|d: Vec2| 0 <= (#[trigger] support_spec(a, a_pos.plus(t), b, b_pos.plus(t), d)).dot(
            d,
        ) by {
            assert(support_spec(a, a_pos.plus(t), b, b_pos.plus(t), d) == support_spec(
                a,
                a_pos,
                b,
                b_pos,
                d,
            ));
        }
    }
    if overlaps(a, a_pos.plus(t), b, b_pos.plus(t)) {
        assert forall|d: Vec2| 0 <= (#[trigger] support_spec(a, a_pos, b, b_pos, d)).dot(d) by {
            assert(support_spec(a, a_pos.plus(t), b, b_pos.plus(t), d) == support_spec(
                a,
                a_pos,
                b,
                b_pos,
                d,
            ));
        }
    }
}

/// A valid shape overlaps itself.
pub proof fn lemma_overlaps_reflexive<S: Shape>(a: &S, pos: Vec2)
    requires
        a.wf(),
    ensures
        overlaps(a, pos, a, pos),
{
    assert forall|d: Vec2| 0 <= (#[trigger] support_spec(a, pos, a, pos, d)).dot(d) by {
        lemma_start_between_inside(a, pos, a, pos, d);
        assert(start_between(a, pos, a, pos) == Vec2::zero());
    }
}

/// Between shapes whose support mappings are exact, the support mapping
/// of the Minkowski difference does not depend on the length of the
/// direction asked about.
pub proof fn lemma_support_spec_scales<S1: Shape, S2: Shape>(
    a: &S1,
    a_pos: Vec2,
    b: &S2,
    b_pos: Vec2,
    d: Vec2,
    k: int,
)
    requires
        a.wf(),
        b.wf(),
        is_exact(a),
        is_exact(b),
        k >= 1,
    ensures
        support_spec(a, a_pos, b, b_pos, d.scale(k)) == support_spec(a, a_pos, b, b_pos, d),
{
    a.lemma_support_scales(d, k);
    b.lemma_support_scales(d.neg(), k);
    assert(d.scale(k).neg() == d.neg().scale(k)) by (nonlinear_arith);
}

} // verus!
