//! What the verdict of the search and the answer of the solver say of two
//! discs, in terms of the distance of their centres.

use crate::algebra::{lemma_cauchy_schwarz, lemma_dot_linear, lemma_dot_symmetric};
use crate::epa::{
    closest_edge, completed, edge_distance, edge_normal, epa_spec, lemma_epa_sound, EpaOutcome,
    TOLERANCE,
};
use crate::minimum::lemma_answer_is_least;
use crate::gjk::{gjk_spec, lemma_verdict_is_overlap};
use crate::numeric::{lemma_ceil_sqrt_upper, ROOT_SHIFT, ROOT_SHIFT_SQ};
use crate::overlap::{are_support_points, overlaps, overlaps_within};
use crate::rounding::{
    lemma_projection_ceiling, lemma_resized_length, lemma_resized_neg, lemma_resized_reach,
    lemma_scaled_norm_positive,
};
use crate::shapes::{support_spec, Circle, Shape};
use crate::simplex::winding_of;
use crate::vector::Vec2;
use vstd::arithmetic::div_mod::{lemma_fundamental_div_mod, lemma_mod_bound};
use vstd::prelude::*;

verus! {

/// The vector from the centre of the placed disc `b` to that of the placed
/// disc `a`.
pub open spec fn between_centres(a: &Circle, a_pos: Vec2, b: &Circle, b_pos: Vec2) -> Vec2 {
    a_pos.plus(a.center@).minus(b_pos.plus(b.center@))
}

/// How far the distance of the centres of two discs at which the verdict
/// changes may lie from the sum of the radii: what the rounding of the
/// support points can cost.
pub open spec fn margin(a: &Circle, b: &Circle) -> int {
    2 * (a.slack() + b.slack()) + 4
}

/// A number whose square is at most that of a number that is not negative
/// is at most that number.
proof fn lemma_root_order(x: int, y: int)
    by (nonlinear_arith)
    requires
        x * x <= y * y,
        y >= 0,
    ensures
        x <= y,
{
}

/// Two numbers whose squares are bounded by multiples of `n` have a sum
/// whose square is bounded likewise.
proof fn lemma_bounded_sum(a: int, b: int, p: int, q: int, n: int)
    requires
        p >= 0,
        q >= 0,
        n >= 0,
        a * a <= (p * p) * n,
        b * b <= (q * q) * n,
    ensures
        (a + b) * (a + b) <= ((p + q) * (p + q)) * n,
{
    let t = (p * q) * n;
    assert(t >= 0) by (nonlinear_arith)
        requires
            t == (p * q) * n,
            p >= 0,
            q >= 0,
            n >= 0,
    ;
    assert(a * a >= 0 && b * b >= 0) by (nonlinear_arith);
    assert((a * a) * (b * b) <= ((p * p) * n) * ((q * q) * n)) by (nonlinear_arith)
        requires
            0 <= a * a <= (p * p) * n,
            0 <= b * b <= (q * q) * n,
    ;
    assert((a * b) * (a * b) == (a * a) * (b * b)) by (nonlinear_arith);
    assert(((p * p) * n) * ((q * q) * n) == t * t) by (nonlinear_arith)
        requires
            t == (p * q) * n,
    ;
    lemma_root_order(a * b, t);
    assert((a + b) * (a + b) == a * a + 2 * (a * b) + b * b) by (nonlinear_arith);
    assert(((p + q) * (p + q)) * n == (p * p) * n + 2 * t + (q * q) * n) by (nonlinear_arith)
        requires
            t == (p * q) * n,
    ;
}

/// A number that is at most a number whose square is bounded by a multiple
/// of the first is at most the multiplier.
proof fn lemma_root_bound(n: int, s: int, bound: int)
    requires
        0 <= n <= s,
        s * s <= bound * n,
        bound >= 0,
    ensures
        n <= bound,
{
    if n > 0 {
        assert(n * n <= s * s) by (nonlinear_arith)
            requires
                0 <= n <= s,
        ;
        assert(n <= bound) by (nonlinear_arith)
            requires
                n * n <= bound * n,
                n > 0,
        ;
    }
}

/// The sum of the magnitudes of the components of a vector is at most
/// twice its length.
proof fn lemma_norm1_square(d: Vec2)
    ensures
        d.norm1() * d.norm1() <= 2 * d.norm_sq(),
        d.norm1() >= 0,
        d.norm_sq() >= 0,
{
    let mx = if d.x >= 0 { d.x } else { -d.x };
    let my = if d.y >= 0 { d.y } else { -d.y };
    assert((mx + my) * (mx + my) <= 2 * (d.x * d.x + d.y * d.y) && d.x * d.x + d.y * d.y >= 0)
        by (nonlinear_arith)
        requires
            mx == d.x || mx == -d.x,
            my == d.y || my == -d.y,
    ;
}

/// The slack of a disc, in units of [`ROOT_SHIFT`], exceeds the radius.
proof fn lemma_slack_covers(shape: &Circle)
    requires
        shape.wf(),
    ensures
        shape.slack() * ROOT_SHIFT > shape.radius,
        1 <= shape.slack() <= 9,
{
    let r = shape.radius as int;
    let k = shape.slack() as int;
    shape.lemma_support_consistent(Vec2::zero(), Vec2::zero());
    lemma_fundamental_div_mod(r, ROOT_SHIFT as int);
    lemma_mod_bound(r, ROOT_SHIFT as int);
    assert(r / (ROOT_SHIFT as int) <= 8) by (nonlinear_arith)
        requires
            r == ROOT_SHIFT * (r / (ROOT_SHIFT as int)) + r % (ROOT_SHIFT as int),
            0 <= r % (ROOT_SHIFT as int),
            r <= 0x8000_0000,
            ROOT_SHIFT == 0x1000_0000,
    ;
    assert(r / (ROOT_SHIFT as int) >= 0) by (nonlinear_arith)
        requires
            r == ROOT_SHIFT * (r / (ROOT_SHIFT as int)) + r % (ROOT_SHIFT as int),
            r % (ROOT_SHIFT as int) < ROOT_SHIFT,
            r >= 0,
            ROOT_SHIFT == 0x1000_0000,
    ;
    assert(k == r / (ROOT_SHIFT as int) + 1);
    assert(k * ROOT_SHIFT > r) by (nonlinear_arith)
        requires
            r == ROOT_SHIFT * (r / (ROOT_SHIFT as int)) + r % (ROOT_SHIFT as int),
            r % (ROOT_SHIFT as int) < ROOT_SHIFT,
            k == r / (ROOT_SHIFT as int) + 1,
    ;
}

/// How far the Minkowski difference of two valid discs reaches from the
/// centre of the difference toward the origin, the slack of the two
/// included: no farther than the sum of the radii and twice the slack.
proof fn lemma_toward_origin(a: &Circle, a_pos: Vec2, b: &Circle, b_pos: Vec2)
    requires
        a.wf(),
        b.wf(),
    ensures
        ({
            let c = between_centres(a, a_pos, b, b_pos);
            let d = c.neg();
            let gap = a.slack() + b.slack();
            let reach = a.radius + b.radius + 2 * gap;
            let most = support_spec(a, a_pos, b, b_pos, d).dot(d) + c.norm_sq() + gap * d.norm1();
            &&& most * most <= (reach * reach) * c.norm_sq()
            &&& d.norm_sq() == c.norm_sq()
            &&& c.norm_sq() >= 0
        }),
{
    let c = between_centres(a, a_pos, b, b_pos);
    let d = c.neg();
    let r1 = a.radius as int;
    let r2 = b.radius as int;
    let slack = a.slack() + b.slack();
    let n = c.norm_sq();
    let u1 = d.resized(r1);
    let u2 = c.resized(r2);
    let sup = support_spec(a, a_pos, b, b_pos, d);
    lemma_slack_covers(a);
    lemma_slack_covers(b);
    assert(d.neg() == c);
    assert(sup == c.plus(u1).minus(u2));
    lemma_dot_linear(c.plus(u1), u2, d);
    lemma_dot_linear(c, u1, d);
    lemma_dot_linear(c, c, u2);
    lemma_dot_linear(c, c, c);
    lemma_dot_symmetric(u2, c);
    let a1 = u1.dot(d);
    let a2 = u2.dot(c);
    let a3 = slack * d.norm1();
    assert(c.dot(c) == n);
    assert(d.norm_sq() == n) by {
        lemma_dot_linear(c, c, d);
        assert(d.dot(d) == d.norm_sq());
    }
    assert(sup.dot(d) + n == a1 + a2);
    // Each of the three is bounded by the distance of the centres.
    lemma_cauchy_schwarz(u1, d);
    lemma_cauchy_schwarz(u2, c);
    lemma_resized_length(d, r1);
    lemma_resized_length(c, r2);
    lemma_norm1_square(d);
    assert(a1 * a1 <= (r1 * r1) * n) by (nonlinear_arith)
        requires
            a1 * a1 <= u1.norm_sq() * n,
            u1.norm_sq() <= r1 * r1,
            n >= 0,
    ;
    assert(a2 * a2 <= (r2 * r2) * n) by (nonlinear_arith)
        requires
            a2 * a2 <= u2.norm_sq() * n,
            u2.norm_sq() <= r2 * r2,
            n >= 0,
    ;
    let m = d.norm1();
    assert(a3 * a3 <= ((2 * slack) * (2 * slack)) * n) by (nonlinear_arith)
        requires
            a3 == slack * m,
            m * m <= 2 * n,
            n >= 0,
    ;
    lemma_bounded_sum(a1, a2, r1, r2, n);
    lemma_bounded_sum(a1 + a2, a3, r1 + r2, 2 * slack, n);
}

/// Two valid discs that overlap within the slack of the two have centres
/// that lie no farther apart than the sum of the radii and twice the slack.
pub proof fn lemma_discs_near(a: &Circle, a_pos: Vec2, b: &Circle, b_pos: Vec2)
    requires
        a.wf(),
        b.wf(),
        overlaps_within(a, a_pos, b, b_pos, a.slack() + b.slack()),
    ensures
        ({
            let reach = a.radius + b.radius + 2 * (a.slack() + b.slack());
            between_centres(a, a_pos, b, b_pos).norm_sq() <= reach * reach
        }),
{
    let c = between_centres(a, a_pos, b, b_pos);
    let d = c.neg();
    let gap = a.slack() + b.slack();
    let sup = support_spec(a, a_pos, b, b_pos, d);
    let most = sup.dot(d) + c.norm_sq() + gap * d.norm1();
    let reach = a.radius + b.radius + 2 * gap;
    lemma_toward_origin(a, a_pos, b, b_pos);
    assert(0 <= sup.dot(d) + gap * d.norm1());
    assert(reach * reach >= 0) by (nonlinear_arith);
    lemma_root_bound(c.norm_sq(), most, reach * reach);
}

/// Where the Minkowski difference of two valid discs ends, along a
/// direction `n`, at a distance of less than `t`, the centres lie farther
/// apart than the sum of the radii less `t` and the margin.
pub proof fn lemma_disc_short(a: &Circle, a_pos: Vec2, b: &Circle, b_pos: Vec2, n: Vec2, t: int)
    requires
        a.wf(),
        b.wf(),
        n != Vec2::zero(),
        support_spec(a, a_pos, b, b_pos, n).dot(n) * ROOT_SHIFT < t * n.scaled_norm(),
        a.radius + b.radius - t - margin(a, b) >= 0,
    ensures
        ({
            let far = a.radius + b.radius - t - margin(a, b);
            between_centres(a, a_pos, b, b_pos).norm_sq() > far * far
        }),
{
    let c = between_centres(a, a_pos, b, b_pos);
    let r1 = a.radius as int;
    let r2 = b.radius as int;
    let r = r1 + r2;
    let far = r - t - margin(a, b);
    let apart = c.norm_sq();
    let sup = support_spec(a, a_pos, b, b_pos, n);
    let w = sup.dot(n);
    let u1 = n.resized(r1);
    let u2 = n.resized(r2);
    lemma_resized_neg(n, r2);
    assert(sup == c.plus(u1).plus(u2));
    lemma_dot_linear(c.plus(u1), u2, n);
    lemma_dot_linear(c, u1, n);
    let x = -c.dot(n);
    assert(w + x == u1.dot(n) + u2.dot(n));
    let s = n.scaled_norm();
    let m = n.norm_sq();
    let n1 = n.norm1();
    let shift = ROOT_SHIFT as int;
    lemma_scaled_norm_positive(n);
    lemma_resized_reach(n, r1);
    lemma_resized_reach(n, r2);
    lemma_norm1_square(n);
    lemma_norm1_square(c);
    lemma_slack_covers(a);
    lemma_slack_covers(b);
    assert(m >= 1) by (nonlinear_arith)
        requires
            m == n.x * n.x + n.y * n.y,
            n.x != 0 || n.y != 0,
    ;
    // The discs reach as far as their radii, less the rounding.
    assert((w + x + 2 * n1) * s >= m * (r * shift)) by (nonlinear_arith)
        requires
            w + x == u1.dot(n) + u2.dot(n),
            (u1.dot(n) + n1) * s >= m * (r1 * shift),
            (u2.dot(n) + n1) * s >= m * (r2 * shift),
            r == r1 + r2,
    ;
    if apart <= far * far {
        lemma_cauchy_schwarz(c, n);
        assert(x * x == c.dot(n) * c.dot(n)) by (nonlinear_arith)
            requires
                x == -c.dot(n),
        ;
        assert(s * s >= m * ROOT_SHIFT_SQ && (s - 1) * (s - 1) < m * ROOT_SHIFT_SQ);
        assert(ROOT_SHIFT_SQ == shift * shift);
        // What the distance of the centres allows.
        assert((x * shift) * (x * shift) <= (far * s) * (far * s)) by (nonlinear_arith)
            requires
                x * x <= apart * m,
                0 <= apart <= far * far,
                m >= 0,
                s * s >= m * (shift * shift),
        ;
        assert(far * s >= 0) by (nonlinear_arith)
            requires
                far >= 0,
                s > 0,
        ;
        lemma_root_order(x * shift, far * s);
        assert((n1 * shift) * (n1 * shift) <= (2 * s) * (2 * s)) by (nonlinear_arith)
            requires
                n1 * n1 <= 2 * m,
                s * s >= m * (shift * shift),
                m >= 0,
        ;
        lemma_root_order(n1 * shift, 2 * s);
        let gap = a.slack() + b.slack();
        let most = r - 2 * gap;
        assert(t + far + 4 == most);
        assert((w + x + 2 * n1) * shift < most * s) by (nonlinear_arith)
            requires
                w * shift < t * s,
                x * shift <= far * s,
                n1 * shift <= 2 * s,
                t + far + 4 == most,
        ;
        assert(m * (r * (shift * shift)) < most * (s * s)) by (nonlinear_arith)
            requires
                (w + x + 2 * n1) * s >= m * (r * shift),
                (w + x + 2 * n1) * shift < most * s,
                s > 0,
                shift > 0,
        ;
        assert(m * (r * (shift * shift)) >= 0) by (nonlinear_arith)
            requires
                m >= 1,
                r >= 0,
                shift > 0,
        ;
        assert(most > 0) by (nonlinear_arith)
            requires
                0 < most * (s * s),
                s > 0,
        ;
        // The scaled length is hardly more than the length.
        assert((m * shift) * (m * shift) >= m * ROOT_SHIFT_SQ) by (nonlinear_arith)
            requires
                m >= 1,
                ROOT_SHIFT_SQ == shift * shift,
        ;
        lemma_ceil_sqrt_upper(m * ROOT_SHIFT_SQ, m * shift);
        assert(s <= m * shift);
        assert(s * s < m * (shift * shift) + 2 * s) by (nonlinear_arith)
            requires
                (s - 1) * (s - 1) < m * (shift * shift),
        ;
        assert(most * (s * s) <= most * (m * (shift * shift)) + most * (2 * (m * shift)))
            by (nonlinear_arith)
            requires
                most > 0,
                s * s < m * (shift * shift) + 2 * s,
                s <= m * shift,
        ;
        assert(gap * shift > r);
        assert(false) by (nonlinear_arith)
            requires
                m * (r * (shift * shift)) < (r - 2 * gap) * (m * (shift * shift)) + (r - 2 * gap) * (
                2 * (m * shift)),
                gap * shift > r,
                gap >= 0,
                m >= 1,
                shift > 0,
                r >= 0,
        ;
    }
}

/// Two valid discs that do not overlap have centres that lie farther apart
/// than the sum of the radii less the margin.
pub proof fn lemma_discs_apart(a: &Circle, a_pos: Vec2, b: &Circle, b_pos: Vec2)
    requires
        a.wf(),
        b.wf(),
        !overlaps(a, a_pos, b, b_pos),
        a.radius + b.radius >= margin(a, b),
    ensures
        ({
            let reach = a.radius + b.radius - margin(a, b);
            between_centres(a, a_pos, b, b_pos).norm_sq() > reach * reach
        }),
{
    let d = choose|d: Vec2| 0 > (#[trigger] support_spec(a, a_pos, b, b_pos, d)).dot(d);
    let sup = support_spec(a, a_pos, b, b_pos, d);
    assert(sup.dot(d) < 0);
    assert(d != Vec2::zero()) by {
        if d == Vec2::zero() {
            assert(sup.dot(d) == 0) by (nonlinear_arith)
                requires
                    sup.dot(d) == sup.x * d.x + sup.y * d.y,
                    d.x == 0,
                    d.y == 0,
            ;
        }
    }
    lemma_scaled_norm_positive(d);
    assert(sup.dot(d) * ROOT_SHIFT < 0 * d.scaled_norm()) by (nonlinear_arith)
        requires
            sup.dot(d) < 0,
            ROOT_SHIFT > 0,
    ;
    lemma_disc_short(a, a_pos, b, b_pos, d, 0);
}

/// The depth with which the solver answers for two valid discs is hardly
/// less than what the sum of the radii exceeds the distance of the centres
/// by: the centres lie farther apart than the sum of the radii less the
/// depth, the margin and one.
pub proof fn lemma_disc_depth_floor(
    a: &Circle,
    a_pos: Vec2,
    b: &Circle,
    b_pos: Vec2,
    simplex: Seq<Vec2>,
)
    requires
        a.wf(),
        b.wf(),
    ensures
        epa_spec(a, a_pos, b, b_pos, simplex) matches EpaOutcome::Solved { depth, .. } ==> ({
            let far = a.radius + b.radius - depth - margin(a, b) - 1;
            far >= 0 ==> between_centres(a, a_pos, b, b_pos).norm_sq() > far * far
        }),
{
    lemma_epa_sound(a, a_pos, b, b_pos, simplex);
    match epa_spec(a, a_pos, b, b_pos, simplex) {
        EpaOutcome::Solved { depth, polytope, .. } => {
            let triangle = completed(a, a_pos, b, b_pos, simplex);
            let winding = winding_of(triangle[0], triangle[1], triangle[2]);
            let i = closest_edge(a, a_pos, b, b_pos, polytope, winding)->0;
            let n = edge_normal(polytope, winding, i);
            let sup = support_spec(a, a_pos, b, b_pos, n);
            lemma_projection_ceiling(n, sup);
            lemma_dot_symmetric(n, sup);
            if a.radius + b.radius - depth - margin(a, b) - 1 >= 0 {
                lemma_disc_short(a, a_pos, b, b_pos, n, depth + 1);
            }
        },
        _ => {},
    }
}

/// The depth with which the solver answers for two valid discs is hardly
/// more than what the sum of the radii exceeds the distance of the centres
/// by, where no edge of its polygon lies nearer to the origin than the edge
/// from which the answer was read.
///
/// The run sets out from a simplex of support points whose triangle is not
/// flat, and answers with a depth of at least [`TOLERANCE`]. The centres
/// then lie no farther apart than the sum of the radii less the depth,
/// with the tolerance and three times the slack of the two added.
pub proof fn lemma_disc_depth_ceiling(
    a: &Circle,
    a_pos: Vec2,
    b: &Circle,
    b_pos: Vec2,
    simplex: Seq<Vec2>,
)
    requires
        a.wf(),
        b.wf(),
        2 <= simplex.len() <= 3,
        are_support_points(a, a_pos, b, b_pos, simplex),
        ({
            let triangle = completed(a, a_pos, b, b_pos, simplex);
            triangle[1].minus(triangle[0]).cross(triangle[2].minus(triangle[1])) != 0
        }),
        epa_spec(a, a_pos, b, b_pos, simplex) matches EpaOutcome::Solved { depth, polytope, .. }
            && depth >= TOLERANCE && ({
            let triangle = completed(a, a_pos, b, b_pos, simplex);
            let winding = winding_of(triangle[0], triangle[1], triangle[2]);
            forall|j: int|
                0 <= j < polytope.len() ==> #[trigger] edge_distance(polytope, winding, j) > depth
                    - TOLERANCE
        }),
    ensures
        epa_spec(a, a_pos, b, b_pos, simplex) matches EpaOutcome::Solved { depth, .. } && ({
            let most = a.radius + b.radius - depth + TOLERANCE + 3 * (a.slack() + b.slack());
            most >= 1 ==> between_centres(a, a_pos, b, b_pos).norm_sq() <= most * most
        }),
{
    let c = between_centres(a, a_pos, b, b_pos);
    let d = c.neg();
    let apart = c.norm_sq();
    let gap = a.slack() + b.slack();
    let reach = a.radius + b.radius + 2 * gap;
    let shift = ROOT_SHIFT as int;
    match epa_spec(a, a_pos, b, b_pos, simplex) {
        EpaOutcome::Solved { depth, .. } => {
            let least = depth - TOLERANCE + 1;
            let most = reach - least + gap + 1;
            assert(most == a.radius + b.radius - depth + TOLERANCE + 3 * gap);
            lemma_toward_origin(a, a_pos, b, b_pos);
            lemma_slack_covers(a);
            lemma_slack_covers(b);
            if most >= 1 && apart > most * most {
                assert(most * most >= 0) by (nonlinear_arith);
                assert(d != Vec2::zero());
                lemma_answer_is_least(a, a_pos, b, b_pos, simplex, d);
                let s = d.scaled_norm();
                let q = s - 1;
                let sup = support_spec(a, a_pos, b, b_pos, d);
                let tot = sup.dot(d) + apart + gap * d.norm1();
                lemma_scaled_norm_positive(d);
                assert(ROOT_SHIFT_SQ == shift * shift);
                assert(s * s >= apart * (shift * shift) && q * q < apart * (shift * shift));
                assert((tot - apart) * shift >= least * q);
                // The reach, in units of the scaled length.
                assert((tot * shift) * (tot * shift) <= (reach * s) * (reach * s))
                    by (nonlinear_arith)
                    requires
                        tot * tot <= (reach * reach) * apart,
                        s * s >= apart * (shift * shift),
                        reach * reach >= 0,
                        apart >= 0,
                ;
                assert(reach * s >= 0) by (nonlinear_arith)
                    requires
                        reach >= 0,
                        s > 0,
                ;
                lemma_root_order(tot * shift, reach * s);
                assert(apart * shift <= (reach - least) * q + reach) by (nonlinear_arith)
                    requires
                        (tot - apart) * shift >= least * q,
                        tot * shift <= reach * s,
                        q == s - 1,
                ;
                // The scaled length, in units of the distance of the centres.
                assert(s > most * shift) by {
                    if s <= most * shift {
                        assert(s * s <= (most * shift) * (most * shift)) by (nonlinear_arith)
                            requires
                                0 < s <= most * shift,
                        ;
                        assert((most * shift) * (most * shift) == (most * most) * (shift * shift))
                            by (nonlinear_arith);
                        assert((most * most) * (shift * shift) < apart * (shift * shift))
                            by (nonlinear_arith)
                            requires
                                most * most < apart,
                                shift > 0,
                        ;
                    }
                }
                assert(q >= most * shift);
                assert(q * q < ((reach - least) * q + reach) * shift) by (nonlinear_arith)
                    requires
                        q * q < apart * (shift * shift),
                        apart * shift <= (reach - least) * q + reach,
                        shift > 0,
                ;
                assert(q * q >= ((reach - least) * q) * shift + ((gap + 1) * q) * shift)
                    by (nonlinear_arith)
                    requires
                        q >= most * shift,
                        most == reach - least + gap + 1,
                        q >= 0,
                ;
                assert((gap + 1) * q < reach) by (nonlinear_arith)
                    requires
                        q * q < ((reach - least) * q + reach) * shift,
                        q * q >= ((reach - least) * q) * shift + ((gap + 1) * q) * shift,
                        shift > 0,
                ;
                assert(false) by (nonlinear_arith)
                    requires
                        (gap + 1) * q < reach,
                        q >= most * shift,
                        most >= 1,
                        shift == 0x1000_0000,
                        gap * shift > a.radius + b.radius,
                        0 <= gap <= 18,
                        reach == a.radius + b.radius + 2 * gap,
                ;
            }
        },
        _ => {},
    }
}

/// What the verdict of the search says of two valid discs: `true` only
/// where the centres lie no farther apart than the sum of the radii and the
/// margin, `false` only where they lie farther apart than the sum of the
/// radii less the margin.
pub proof fn lemma_disc_verdict(a: &Circle, a_pos: Vec2, b: &Circle, b_pos: Vec2)
    requires
        a.wf(),
        b.wf(),
    ensures
        ({
            let apart = between_centres(a, a_pos, b, b_pos).norm_sq();
            let sum = a.radius + b.radius;
            let k = margin(a, b);
            match gjk_spec(a, a_pos, b, b_pos) {
                Some((true, _)) => apart <= (sum + k) * (sum + k),
                Some((false, _)) => sum >= k ==> apart > (sum - k) * (sum - k),
                None => true,
            }
        }),
{
    lemma_verdict_is_overlap(a, a_pos, b, b_pos);
    let sum = a.radius + b.radius;
    let k = margin(a, b);
    match gjk_spec(a, a_pos, b, b_pos) {
        Some((true, _)) => {
            lemma_discs_near(a, a_pos, b, b_pos);
            lemma_slack_covers(a);
            lemma_slack_covers(b);
            assert((sum + k - 4) * (sum + k - 4) <= (sum + k) * (sum + k)) by (nonlinear_arith)
                requires
                    sum + k - 4 >= 0,
            ;
        },
        Some((false, _)) => {
            if sum >= k {
                lemma_discs_apart(a, a_pos, b, b_pos);
            }
        },
        None => {},
    }
}

} // verus!
