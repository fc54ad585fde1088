//! The intersection search: a simplex of points of the Minkowski difference
//! of two placed shapes is moved toward the origin until it either encloses
//! the origin or shows that it cannot be reached.

use crate::algebra::{
    lemma_cross_antisymmetric, lemma_cross_linear, lemma_dot_linear, lemma_dot_scale,
    lemma_dot_symmetric, lemma_mul3, lemma_mul_dist, lemma_perp_dot, lemma_product_bound,
    lemma_scale_unit, lemma_three_vectors,
};
use crate::overlap::{
    are_support_points, encloses_origin, holds_origin, is_balance, is_support_point, lemma_dot_neg_right,
    lemma_hull_overlaps, lemma_start_between_inside, overlaps, overlaps_within, start_between,
};
use crate::shapes::{is_exact, support, support_spec, Shape};
use crate::simplex::Simplex;
use crate::vector::{
    Perp, Point, Vec2, Vector, WideVector, DIRECTION_LIMIT, ONE, POINT_LIMIT, SUPPORT_LIMIT,
};
use vstd::prelude::*;

verus! {

/// The sign of an integer: 1, 0 or -1.
pub open spec fn signum(k: int) -> int {
    if k > 0 {
        1
    } else if k < 0 {
        -1
    } else {
        0
    }
}

/// The vector triple product `(a x b) x c`, written out with scalar products.
pub open spec fn triple_product_spec(a: Vec2, b: Vec2, c: Vec2) -> Vec2 {
    b.scale(c.dot(a)).minus(a.scale(c.dot(b)))
}

/// The direction of the triple product `(a x b) x c`: `c` turned a quarter,
/// to the side on which the triple product lies, or the zero vector where
/// the triple product vanishes.
pub open spec fn triple_direction_spec(a: Vec2, b: Vec2, c: Vec2) -> Vec2 {
    c.perp().scale(signum(a.cross(b)))
}

/// In the plane the triple product `(a x b) x c` is `c` turned a quarter and
/// scaled by the cross product of `a` and `b`.
pub proof fn lemma_triple_product_is_turned(a: Vec2, b: Vec2, c: Vec2)
    ensures
        triple_product_spec(a, b, c) == c.perp().scale(a.cross(b)),
{
    lemma_mul_dist(c.x * a.x, c.y * a.y, b.x);
    lemma_mul_dist(c.x * b.x, c.y * b.y, a.x);
    lemma_mul_dist(c.x * a.x, c.y * a.y, b.y);
    lemma_mul_dist(c.x * b.x, c.y * b.y, a.y);
    lemma_mul_dist(a.x * b.y, a.y * b.x, -c.y);
    lemma_mul_dist(a.x * b.y, a.y * b.x, c.x);
    lemma_mul_dist(c.y, 0, a.x * b.y);
    lemma_mul_dist(c.y, 0, a.y * b.x);
    lemma_mul3(c.x, a.x, b.x);
    lemma_mul3(c.y, a.y, b.x);
    lemma_mul3(c.y, b.y, a.x);
    lemma_mul3(c.x, a.x, b.y);
    lemma_mul3(c.x, b.x, a.y);
    lemma_mul3(c.y, a.y, b.y);
    lemma_mul3(a.x, b.y, c.y);
    lemma_mul3(a.y, b.x, c.y);
    lemma_mul3(a.x, b.y, c.x);
    lemma_mul3(a.y, b.x, c.x);
}

/// The triple product is its direction scaled by a number that is not negative.
pub proof fn lemma_triple_direction_scales(a: Vec2, b: Vec2, c: Vec2)
    ensures
        triple_product_spec(a, b, c) == triple_direction_spec(a, b, c).scale(
            if a.cross(b) >= 0 {
                a.cross(b)
            } else {
                -a.cross(b)
            },
        ),
{
    lemma_triple_product_is_turned(a, b, c);
    let k = a.cross(b);
    let p = c.perp();
    let m = if k >= 0 { k } else { -k };
    lemma_mul3(m, signum(k), p.x);
    lemma_mul3(m, signum(k), p.y);
    assert(m * signum(k) == k) by (nonlinear_arith)
        requires
            m == if k >= 0 { k } else { -k },
            signum(k) == if k > 0 { 1int } else if k < 0 { -1int } else { 0int },
    ;
}

/// The vector triple product `(a x b) x c`.
pub fn triple_product(a: Vector, b: Vector, c: Vector) -> (r: WideVector)
    requires
        a@.within(0x100_0000_0000),
        b@.within(0x100_0000_0000),
        c@.within(0x100_0000_0000),
    ensures
        r@ == triple_product_spec(a@, b@, c@),
{
    let ca: i128 = c.dot(a);
    let cb: i128 = c.dot(b);
    proof {
        lemma_product_bound(c.x as int, a.x as int, 0x100_0000_0000, 0x100_0000_0000);
        lemma_product_bound(c.y as int, a.y as int, 0x100_0000_0000, 0x100_0000_0000);
        lemma_product_bound(c.x as int, b.x as int, 0x100_0000_0000, 0x100_0000_0000);
        lemma_product_bound(c.y as int, b.y as int, 0x100_0000_0000, 0x100_0000_0000);
        lemma_product_bound(ca as int, b.x as int, 0x2_0000_0000_0000_0000_0000, 0x100_0000_0000);
        lemma_product_bound(ca as int, b.y as int, 0x2_0000_0000_0000_0000_0000, 0x100_0000_0000);
        lemma_product_bound(cb as int, a.x as int, 0x2_0000_0000_0000_0000_0000, 0x100_0000_0000);
        lemma_product_bound(cb as int, a.y as int, 0x2_0000_0000_0000_0000_0000, 0x100_0000_0000);
    }
    let x: i128 = ca * (b.x as i128) - cb * (a.x as i128);
    let y: i128 = ca * (b.y as i128) - cb * (a.y as i128);
    WideVector { x, y }
}

/// The direction of the triple product `(a x b) x c`, no longer than `c`.
pub fn triple_product_direction(a: Vector, b: Vector, c: Vector) -> (r: Vector)
    requires
        a@.within(i64::MAX as int),
        c@.within(i64::MAX as int),
    ensures
        r@ == triple_direction_spec(a@, b@, c@),
        r@ == c@.perp() || r@ == c@.perp().neg() || r@ == Vec2::zero(),
{
    let k: i128 = a.cross(b);
    let turned = c.perpendicular();
    if k > 0 {
        turned
    } else if k < 0 {
        turned.neg()
    } else {
        Vector::zero()
    }
}

/// The largest number of support points that one search asks for after the first.
pub const MAX_ITERATIONS: usize = 128;

/// Why a search gave no verdict.
#[derive(Clone, Copy, Debug, PartialEq, Eq, Structural)]
pub enum GjkError {
    /// The simplex was still moving after [`MAX_ITERATIONS`] steps.
    IterationLimit,
}

/// What one narrowing step makes of a simplex.
pub enum Step {
    /// The triangle holds the origin.
    Enclosed,
    /// The search goes on from the segment `simplex` in the direction `dir`.
    Narrowed { simplex: Seq<Vec2>, dir: Vec2 },
}

/// One narrowing step. The last point of `simplex` is the newest, `a`.
///
/// A triangle `b`, `c`, `a` is tested against the origin on its two new
/// sides: where the origin lies outside the side `a b`, the search goes on
/// from that side, outward; else likewise for the side `a c`; else the
/// triangle holds the origin. A segment `b`, `a` is kept, and the search
/// goes on perpendicular to it, to the side of the origin. Each new
/// direction is a triple product.
pub open spec fn expand_spec(simplex: Seq<Vec2>) -> Step {
    if simplex.len() == 3 {
        let b = simplex[0];
        let c = simplex[1];
        let a = simplex[2];
        let ao = a.neg();
        let ab = b.minus(a);
        let ac = c.minus(a);
        let ab_perp = triple_product_spec(ac, ab, ab);
        let ac_perp = triple_product_spec(ab, ac, ac);
        if ab_perp.dot(ao) > 0 {
            Step::Narrowed { simplex: seq![b, a], dir: ab_perp }
        } else if ac_perp.dot(ao) > 0 {
            Step::Narrowed { simplex: seq![c, a], dir: ac_perp }
        } else {
            Step::Enclosed
        }
    } else {
        let b = simplex[0];
        let a = simplex[1];
        let ao = a.neg();
        let ab = b.minus(a);
        Step::Narrowed { simplex: seq![b, a], dir: triple_product_spec(ab, ao, ab) }
    }
}

/// Both numbers are positive, or both are negative.
pub open spec fn agree(one: int, other: int) -> bool {
    (one > 0 && other > 0) || (one < 0 && other < 0)
}

/// The vector about which the shapes are asked when the search looks from
/// the segment `segment` along `dir`, a normal of the segment of any
/// length: the normal on the side of `dir` that is as long as the segment,
/// or the zero vector where `dir` vanishes.
pub open spec fn search_direction_spec(segment: Seq<Vec2>, dir: Vec2) -> Vec2 {
    let side = segment[0].minus(segment[1]).perp();
    if dir == Vec2::zero() {
        Vec2::zero()
    } else if agree(side.x, dir.x) || agree(side.y, dir.y) {
        side
    } else {
        side.neg()
    }
}

/// A step with its direction made as long as its segment.
pub open spec fn shortened(step: Step) -> Step {
    match step {
        Step::Enclosed => Step::Enclosed,
        Step::Narrowed { simplex, dir } => Step::Narrowed {
            simplex,
            dir: search_direction_spec(simplex, dir),
        },
    }
}

/// One narrowing step as the search takes it: that of [`expand_spec`], with
/// the direction made as long as the segment from which the search goes on.
pub open spec fn narrow_spec(simplex: Seq<Vec2>) -> Step {
    if simplex.len() == 3 {
        let b = simplex[0];
        let c = simplex[1];
        let a = simplex[2];
        let ao = a.neg();
        let ab = b.minus(a);
        let ac = c.minus(a);
        let ab_dir = triple_direction_spec(ac, ab, ab);
        let ac_dir = triple_direction_spec(ab, ac, ac);
        if ab_dir.dot(ao) > 0 {
            Step::Narrowed { simplex: seq![b, a], dir: ab_dir }
        } else if ac_dir.dot(ao) > 0 {
            Step::Narrowed { simplex: seq![c, a], dir: ac_dir }
        } else {
            Step::Enclosed
        }
    } else {
        let b = simplex[0];
        let a = simplex[1];
        let ao = a.neg();
        let ab = b.minus(a);
        Step::Narrowed { simplex: seq![b, a], dir: triple_direction_spec(ab, ao, ab) }
    }
}

/// The triple product and its direction lie to the same side of every
/// vector.
pub proof fn lemma_triple_product_side(a: Vec2, b: Vec2, c: Vec2, o: Vec2)
    ensures
        (triple_product_spec(a, b, c).dot(o) > 0) == (triple_direction_spec(a, b, c).dot(o) > 0),
{
    let k = a.cross(b);
    let x = c.perp().dot(o);
    lemma_triple_product_is_turned(a, b, c);
    lemma_dot_scale(c.perp(), k, o);
    lemma_dot_scale(c.perp(), signum(k), o);
    assert((k * x > 0) == (signum(k) * x > 0)) by (nonlinear_arith)
        requires
            signum(k) == if k > 0 { 1int } else if k < 0 { -1int } else { 0int },
    ;
}

/// Along a normal of a segment that is the segment turned a quarter and
/// scaled by `k`, the search looks along the segment turned a quarter and
/// scaled by the sign of `k`.
pub proof fn lemma_search_direction_of_scaled(segment: Seq<Vec2>, k: int)
    requires
        segment.len() == 2,
    ensures
        ({
            let side = segment[0].minus(segment[1]).perp();
            search_direction_spec(segment, side.scale(k)) == side.scale(signum(k))
        }),
{
    let side = segment[0].minus(segment[1]).perp();
    let dir = side.scale(k);
    lemma_scale_unit(side);
    lemma_sign_of_product(side.x, k);
    lemma_sign_of_product(side.y, k);
    if k == 0 || side == Vec2::zero() {
        assert(dir == Vec2::zero());
    } else if k > 0 {
        assert(dir != Vec2::zero());
        assert(agree(side.x, dir.x) || agree(side.y, dir.y));
    } else {
        assert(dir != Vec2::zero());
        assert(!agree(side.x, dir.x) && !agree(side.y, dir.y));
    }
}

/// The sign of a product is the product of the signs of its factors.
proof fn lemma_sign_of_product(x: int, k: int)
    by (nonlinear_arith)
    ensures
        signum(x * k) == signum(x) * signum(k),
{
}

/// The step that the search takes is the narrowing step with its direction
/// made as long as its segment.
pub proof fn lemma_narrow_is_shortened(simplex: Seq<Vec2>)
    requires
        2 <= simplex.len() <= 3,
    ensures
        narrow_spec(simplex) == shortened(expand_spec(simplex)),
{
    if simplex.len() == 3 {
        let b = simplex[0];
        let c = simplex[1];
        let a = simplex[2];
        let ao = a.neg();
        let ab = b.minus(a);
        let ac = c.minus(a);
        lemma_triple_product_side(ac, ab, ab, ao);
        lemma_triple_product_side(ab, ac, ac, ao);
        lemma_triple_product_is_turned(ac, ab, ab);
        lemma_triple_product_is_turned(ab, ac, ac);
        lemma_search_direction_of_scaled(seq![b, a], ac.cross(ab));
        lemma_search_direction_of_scaled(seq![c, a], ab.cross(ac));
    } else {
        let b = simplex[0];
        let a = simplex[1];
        let ab = b.minus(a);
        lemma_triple_product_is_turned(ab, a.neg(), ab);
        lemma_search_direction_of_scaled(seq![b, a], ab.cross(a.neg()));
    }
}

/// One narrowing step on a segment or a triangle. Returns `true` where the
/// triangle holds the origin; else leaves in `simplex` the segment and in
/// `cur` the direction from which the search goes on.
pub fn expand(simplex: &mut Simplex, cur: &mut WideVector) -> (enclosed: bool)
    requires
        !(*old(simplex) is Point),
        old(simplex).within(SUPPORT_LIMIT as int),
    ensures
        match expand_spec(old(simplex)@) {
            Step::Enclosed => enclosed && *final(simplex) == *old(simplex) && *final(cur) == *old(cur),
            Step::Narrowed { simplex: s, dir } => {
                &&& !enclosed
                &&& *final(simplex) is Line
                &&& final(simplex)@ == s
                &&& final(cur)@ == dir
            },
        },
        final(simplex).within(SUPPORT_LIMIT as int),
{
    match *simplex {
        Simplex::Triangle(b, c, a) => {
            assert(simplex@[0] == b@ && simplex@[1] == c@ && simplex@[2] == a@);
            let ao = a.neg();
            let ab = b.minus(a);
            let ac = c.minus(a);
            // The sign of each test is read off a normal as long as the side.
            let ab_side = triple_product_direction(ac, ab, ab);
            let ac_side = triple_product_direction(ab, ac, ac);
            proof {
                lemma_triple_product_side(ac@, ab@, ab@, ao@);
                lemma_triple_product_side(ab@, ac@, ac@, ao@);
            }
            if ab_side.dot(ao) > 0 {
                *simplex = Simplex::Line(b, a);
                *cur = triple_product(ac, ab, ab);
                assert(simplex@ =~= seq![b@, a@]);
                false
            } else if ac_side.dot(ao) > 0 {
                *simplex = Simplex::Line(c, a);
                *cur = triple_product(ab, ac, ac);
                assert(simplex@ =~= seq![c@, a@]);
                false
            } else {
                true
            }
        },
        Simplex::Line(b, a) => {
            assert(simplex@[0] == b@ && simplex@[1] == a@);
            let ao = a.neg();
            let ab = b.minus(a);
            *cur = triple_product(ab, ao, ab);
            assert(simplex@ =~= seq![b@, a@]);
            false
        },
        Simplex::Point(_) => false,
    }
}

/// The vector about which the shapes are asked when the search looks from
/// the segment `simplex` along `dir`.
pub fn search_direction(simplex: &Simplex, dir: &WideVector) -> (r: Vector)
    requires
        simplex is Line,
        simplex.within(SUPPORT_LIMIT as int),
    ensures
        r@ == search_direction_spec(simplex@, dir@),
        r@.within(DIRECTION_LIMIT as int),
{
    match simplex {
        Simplex::Line(b, a) => {
            assert(simplex@[0] == b@ && simplex@[1] == a@);
            let side = b.minus(*a).perpendicular();
            if dir.is_zero() {
                Vector::zero()
            } else if (side.x > 0 && dir.x > 0) || (side.x < 0 && dir.x < 0) || (side.y > 0 && dir.y
                > 0) || (side.y < 0 && dir.y < 0) {
                side
            } else {
                side.neg()
            }
        },
        _ => Vector::zero(),
    }
}

/// The direction in which a search sets out: from the start point of `b` to
/// that of `a`, or along the first axis where the two coincide.
pub open spec fn initial_direction<S1: Shape, S2: Shape>(
    a: &S1,
    a_pos: Vec2,
    b: &S2,
    b_pos: Vec2,
) -> Vec2 {
    let between = a_pos.plus(a.start_point()).minus(b_pos.plus(b.start_point()));
    if between == Vec2::zero() {
        Vec2 { x: ONE as int, y: 0 }
    } else {
        between
    }
}

/// The outcome of a search that stands at `simplex`, is about to look in the
/// direction `cur` and may ask for `fuel` more support points: the verdict
/// with the simplex reached, or `None` where the fuel runs out first.
///
/// The search ends with the verdict `true` where the direction vanishes or a
/// triangle holds the origin, and with `false` where a support point fails
/// to pass the origin.
pub open spec fn gjk_run<S1: Shape, S2: Shape>(
    a: &S1,
    a_pos: Vec2,
    b: &S2,
    b_pos: Vec2,
    simplex: Seq<Vec2>,
    cur: Vec2,
    fuel: nat,
) -> Option<(bool, Seq<Vec2>)>
    decreases fuel,
{
    if cur == Vec2::zero() {
        Some((true, simplex))
    } else if fuel == 0 {
        None
    } else {
        let p = support_spec(a, a_pos, b, b_pos, cur);
        let grown = simplex.push(p);
        if p.dot(cur) < 0 {
            Some((false, grown))
        } else {
            match narrow_spec(grown) {
                Step::Enclosed => Some((true, grown)),
                Step::Narrowed { simplex: s, dir } => gjk_run(
                    a,
                    a_pos,
                    b,
                    b_pos,
                    s,
                    dir,
                    (fuel - 1) as nat,
                ),
            }
        }
    }
}

/// The outcome of the search for two placed shapes.
pub open spec fn gjk_spec<S1: Shape, S2: Shape>(a: &S1, a_pos: Vec2, b: &S2, b_pos: Vec2) -> Option<
    (bool, Seq<Vec2>),
> {
    let first = initial_direction(a, a_pos, b, b_pos);
    gjk_run(
        a,
        a_pos,
        b,
        b_pos,
        seq![support_spec(a, a_pos, b, b_pos, first)],
        first.neg(),
        MAX_ITERATIONS as nat,
    )
}

/// Searches for the origin in the Minkowski difference of `a` and `b`.
/// Returns whether the two overlap, and the simplex at which the search
/// ended.
pub fn collides_internal<S1: Shape, S2: Shape>(a: (&S1, Point), b: (&S2, Point)) -> (r: Result<
    (bool, Simplex),
    GjkError,
>)
    requires
        a.0.wf(),
        b.0.wf(),
        a.1@.within(POINT_LIMIT as int),
        b.1@.within(POINT_LIMIT as int),
    ensures
        match r {
            Ok((verdict, simplex)) => {
                &&& gjk_spec(a.0, a.1@, b.0, b.1@) == Some((verdict, simplex@))
                &&& simplex.within(SUPPORT_LIMIT as int)
                &&& verdict ==> !(simplex is Point)
            },
            Err(_) => gjk_spec(a.0, a.1@, b.0, b.1@) is None,
        },
        outcome_is_sound(a.0, a.1@, b.0, b.1@, gjk_spec(a.0, a.1@, b.0, b.1@)),
        r matches Ok(found) ==> verdict_is_sound(a.0, a.1@, b.0, b.1@, found.0),
{
    let mut cur = a.1.plus(a.0.start()).minus(b.1.plus(b.0.start()));
    if cur.is_zero() {
        cur = Vector::new(ONE, 0);
    }
    assert(cur@ == initial_direction(a.0, a.1@, b.0, b.1@));
    let mut simplex = Simplex::Point(support(a, b, cur));
    cur = cur.neg();
    let mut wide = WideVector::zero();
    let mut iterations: usize = 0;
    assert(simplex@ =~= seq![support_spec(a.0, a.1@, b.0, b.1@, cur@.neg())]);
    while !cur.is_zero()
        invariant
            a.0.wf(),
            b.0.wf(),
            a.1@.within(POINT_LIMIT as int),
            b.1@.within(POINT_LIMIT as int),
            iterations <= MAX_ITERATIONS,
            !(simplex is Triangle),
            simplex.within(SUPPORT_LIMIT as int),
            cur@.within(DIRECTION_LIMIT as int),
            gjk_run(
                a.0,
                a.1@,
                b.0,
                b.1@,
                simplex@,
                cur@,
                (MAX_ITERATIONS - iterations) as nat,
            ) == gjk_spec(a.0, a.1@, b.0, b.1@),
        decreases MAX_ITERATIONS - iterations,
    {
        proof {
            lemma_gjk_sound(a.0, a.1@, b.0, b.1@);
            lemma_verdict_is_overlap(a.0, a.1@, b.0, b.1@);
        }
        if iterations >= MAX_ITERATIONS {
            return Err(GjkError::IterationLimit);
        }
        iterations += 1;
        let p = support(a, b, cur);
        simplex.add(p);
        proof {
            lemma_narrow_is_shortened(simplex@);
        }
        if p.dot(cur) < 0 {
            return Ok((false, simplex));
        } else if expand(&mut simplex, &mut wide) {
            return Ok((true, simplex));
        }
        cur = search_direction(&simplex, &wide);
    }
    proof {
        lemma_gjk_sound(a.0, a.1@, b.0, b.1@);
        lemma_verdict_is_overlap(a.0, a.1@, b.0, b.1@);
    }
    Ok((true, simplex))
}

/// Tells whether two placed shapes overlap.
pub fn collides<S1: Shape, S2: Shape>(a: (&S1, Point), b: (&S2, Point)) -> (r: Result<bool, GjkError>)
    requires
        a.0.wf(),
        b.0.wf(),
        a.1@.within(POINT_LIMIT as int),
        b.1@.within(POINT_LIMIT as int),
    ensures
        match r {
            Ok(verdict) => gjk_spec(a.0, a.1@, b.0, b.1@) matches Some(found) && found.0 == verdict,
            Err(_) => gjk_spec(a.0, a.1@, b.0, b.1@) is None,
        },
        r matches Ok(verdict) ==> verdict_is_sound(a.0, a.1@, b.0, b.1@, verdict),
{
    match collides_internal(a, b) {
        Ok(found) => Ok(found.0),
        Err(e) => Err(e),
    }
}

/// What holds of a search between two of its steps. Every point of the
/// simplex is a support point. A single point is the support point of the
/// first direction, and the search looks the opposite way. A segment either
/// comes with a direction that has vanished, and then the origin lies in the
/// hull of the segment and the point between the start points; or the
/// search looks perpendicular to it, to the side on which the origin lies
/// strictly.
pub open spec fn run_inv<S1: Shape, S2: Shape>(
    a: &S1,
    a_pos: Vec2,
    b: &S2,
    b_pos: Vec2,
    simplex: Seq<Vec2>,
    cur: Vec2,
) -> bool {
    let first = initial_direction(a, a_pos, b, b_pos);
    &&& are_support_points(a, a_pos, b, b_pos, simplex)
    &&& 1 <= simplex.len() <= 2
    &&& simplex.len() == 1 ==> simplex[0] == support_spec(a, a_pos, b, b_pos, first) && cur
        == first.neg()
    &&& simplex.len() == 2 ==> if cur == Vec2::zero() {
        holds_origin(start_between(a, a_pos, b, b_pos), simplex)
    } else {
        &&& cur == simplex[0].minus(simplex[1]).perp() || cur == simplex[0].minus(
            simplex[1],
        ).perp().neg()
        &&& cur.dot(simplex[1]) < 0
    }
}

/// What the outcome of a search says: with the verdict `false`, the shapes
/// do not overlap; with the verdict `true`, the simplex is a segment or a
/// triangle of support points, the origin lies in the hull of the simplex
/// and the point between the start points, and a triangle is not flat and
/// holds the origin itself.
pub open spec fn outcome_is_sound<S1: Shape, S2: Shape>(
    a: &S1,
    a_pos: Vec2,
    b: &S2,
    b_pos: Vec2,
    outcome: Option<(bool, Seq<Vec2>)>,
) -> bool {
    match outcome {
        Some((verdict, simplex)) => if verdict {
            &&& 2 <= simplex.len() <= 3
            &&& are_support_points(a, a_pos, b, b_pos, simplex)
            &&& holds_origin(start_between(a, a_pos, b, b_pos), simplex)
            &&& simplex.len() == 3 ==> simplex[1].minus(simplex[0]).cross(
                simplex[2].minus(simplex[1]),
            ) != 0
            &&& simplex.len() == 3 ==> encloses_origin(simplex)
        } else {
            !overlaps(a, a_pos, b, b_pos)
        },
        None => true,
    }
}

/// The direction in which the search leaves a segment `b`, `a`: it vanishes
/// where the origin lies on the line through the two, and else is the
/// quarter turn of the segment that looks to the side of the origin.
proof fn lemma_segment_direction(b: Vec2, a: Vec2)
    ensures
        ({
            let dir = triple_direction_spec(b.minus(a), a.neg(), b.minus(a));
            &&& dir == Vec2::zero() <==> b.cross(a) == 0
            &&& dir != Vec2::zero() ==> {
                &&& dir == b.minus(a).perp() || dir == b.minus(a).perp().neg()
                &&& dir.dot(a) < 0
            }
        }),
{
    let ab = b.minus(a);
    let k = ab.cross(a.neg());
    lemma_cross_linear(b, a, a.neg());
    lemma_cross_linear(a, a, b);
    lemma_cross_linear(a, a, a);
    lemma_cross_antisymmetric(a, a);
    lemma_cross_linear(b, a, a);
    assert(k == -b.cross(a));
    lemma_perp_dot(ab, a);
    lemma_dot_linear(ab.perp(), ab.perp(), a);
    lemma_scale_unit(ab.perp());
    if k != 0 {
        assert(ab != Vec2::zero()) by {
            if ab == Vec2::zero() {
                assert(ab.cross(a.neg()) == 0) by (nonlinear_arith)
                    requires
                        ab == Vec2::zero(),
                ;
            }
        }
    }
}

/// Where `b` and `p` lie on one line through the origin, on opposite sides
/// along `c`, the origin lies between them.
proof fn lemma_flat_balance(c: Vec2, b: Vec2, p: Vec2)
    requires
        b.cross(p) == 0,
        b.dot(c) > 0,
        p.dot(c) <= 0,
    ensures
        is_balance(0, -p.dot(c), b.dot(c), 0, c, seq![b, p]),
{
    let points = seq![b, p];
    lemma_triple_product_is_turned(b, p, c);
    lemma_dot_symmetric(c, b);
    lemma_dot_symmetric(c, p);
    lemma_mul_dist(p.dot(c), 0, b.x);
    lemma_mul_dist(p.dot(c), 0, b.y);
    lemma_scale_unit(c.perp());
    lemma_scale_unit(c);
    lemma_scale_unit(points[2]);
    assert(points[0] == b && points[1] == p);
}

/// The step that a search takes from a segment `b`, `a` with the support
/// point `p`: either the triangle holds the origin, or the search goes on
/// from a segment that ends in `p`, to the side on which the origin lies
/// strictly.
proof fn lemma_triangle_step(c: Vec2, b: Vec2, a: Vec2, p: Vec2, cur: Vec2)
    requires
        cur == b.minus(a).perp() || cur == b.minus(a).perp().neg(),
        cur.dot(a) < 0,
        p.dot(cur) >= 0,
    ensures
        match narrow_spec(seq![b, a, p]) {
            Step::Enclosed => holds_origin(c, seq![b, a, p]) && encloses_origin(seq![b, a, p])
                && a.minus(b).cross(p.minus(a)) != 0,
            Step::Narrowed { simplex, dir } => {
                &&& simplex == seq![b, p] || simplex == seq![a, p]
                &&& dir != Vec2::zero()
                &&& dir == simplex[0].minus(simplex[1]).perp() || dir == simplex[0].minus(
                    simplex[1],
                ).perp().neg()
                &&& dir.dot(simplex[1]) < 0
            },
        },
{
    let points = seq![b, a, p];
    assert(points[0] == b && points[1] == a && points[2] == p);
    let ao = p.neg();
    let pb = b.minus(p);
    let pa = a.minus(p);
    let ab_dir = triple_direction_spec(pa, pb, pb);
    let ac_dir = triple_direction_spec(pb, pa, pa);
    let sigma = pb.cross(pa);
    let k_ba = b.cross(a);
    let k_bp = b.cross(p);
    let k_ap = a.cross(p);
    // The cross products of the sides, in terms of those of the corners.
    lemma_cross_linear(b, p, pa);
    lemma_cross_linear(b, p, a);
    lemma_cross_linear(b, p, p);
    lemma_cross_linear(a, p, b);
    lemma_cross_linear(a, p, p);
    lemma_cross_linear(a, p, pb);
    lemma_cross_antisymmetric(p, p);
    lemma_cross_antisymmetric(p, a);
    lemma_cross_antisymmetric(p, b);
    lemma_cross_antisymmetric(a, b);
    lemma_cross_antisymmetric(a, a);
    lemma_cross_antisymmetric(pa, pb);
    assert(sigma == k_ba - k_bp + k_ap);
    assert(pa.cross(pb) == -sigma);
    lemma_cross_linear(p, p, pb);
    lemma_cross_linear(p, p, pa);
    assert(pb.cross(ao) == -k_bp);
    assert(pa.cross(ao) == -k_ap);
    // The scalar products that the step tests.
    lemma_perp_dot(pb, ao);
    lemma_perp_dot(pa, ao);
    lemma_dot_scale(pb.perp(), signum(-sigma), ao);
    lemma_dot_scale(pa.perp(), signum(sigma), ao);
    assert(ab_dir.dot(ao) == signum(-sigma) * (-k_bp));
    assert(ac_dir.dot(ao) == signum(sigma) * (-k_ap));
    lemma_dot_neg_right(ab_dir, p);
    lemma_dot_neg_right(ac_dir, p);
    lemma_scale_unit(pb.perp());
    lemma_scale_unit(pa.perp());
    if ab_dir.dot(ao) > 0 {
        let s = seq![b, p];
        assert(s[0] == b && s[1] == p);
        assert(ab_dir != Vec2::zero()) by {
            if ab_dir == Vec2::zero() {
                assert(Vec2::zero().dot(ao) == 0);
            }
        }
    } else if ac_dir.dot(ao) > 0 {
        let s = seq![a, p];
        assert(s[0] == a && s[1] == p);
        assert(ac_dir != Vec2::zero()) by {
            if ac_dir == Vec2::zero() {
                assert(Vec2::zero().dot(ao) == 0);
            }
        }
    } else {
        // Where the search stands, in terms of the cross products of the corners.
        let u = b.minus(a);
        lemma_perp_dot(u, a);
        lemma_perp_dot(u, p);
        lemma_cross_linear(b, a, a);
        lemma_cross_linear(b, a, p);
        lemma_dot_linear(u.perp(), u.perp(), a);
        lemma_dot_linear(u.perp(), u.perp(), p);
        lemma_dot_symmetric(p, cur);
        lemma_three_vectors(a, b, p);
        lemma_scale_unit(c);
        lemma_cross_linear(a, b, p.minus(a));
        lemma_cross_linear(p, a, a);
        lemma_cross_linear(p, a, b);
        assert(a.minus(b).cross(p.minus(a)) == sigma);
        if cur == u.perp() {
            assert(k_ba < 0);
            assert(k_bp - k_ap >= 0);
            assert(sigma < 0);
            assert(k_bp >= 0 && k_ap <= 0);
            lemma_negated_scales(b, k_ap);
            lemma_negated_scales(a, -k_bp);
            lemma_negated_scales(p, k_ba);
            assert(is_balance(0, -k_ap, k_bp, -k_ba, c, points));
            assert(is_balance(0, -k_ap, k_bp, -k_ba, Vec2::zero(), points));
        } else {
            assert(k_ba > 0);
            assert(k_bp - k_ap <= 0);
            assert(sigma > 0);
            assert(k_bp <= 0 && k_ap >= 0);
            lemma_negated_scales(a, k_bp);
            assert(is_balance(0, k_ap, -k_bp, k_ba, c, points));
            assert(is_balance(0, k_ap, -k_bp, k_ba, Vec2::zero(), points));
        }
    }
}

/// Scaling by a negated number negates the scaled vector.
proof fn lemma_negated_scales(v: Vec2, k: int)
    by (nonlinear_arith)
    ensures
        v.scale(-k) == v.scale(k).neg(),
{
}

/// The step that a search takes from its first point leaves it in a state
/// from which it can go on.
proof fn lemma_first_step<S1: Shape, S2: Shape>(a: &S1, a_pos: Vec2, b: &S2, b_pos: Vec2)
    requires
        a.wf(),
        b.wf(),
    ensures
        ({
            let first = initial_direction(a, a_pos, b, b_pos);
            let start = support_spec(a, a_pos, b, b_pos, first);
            let p = support_spec(a, a_pos, b, b_pos, first.neg());
            p.dot(first.neg()) >= 0 ==> (narrow_spec(seq![start, p]) matches Step::Narrowed {
                simplex,
                dir,
            } && simplex == seq![start, p] && run_inv(a, a_pos, b, b_pos, simplex, dir))
        }),
{
    let first = initial_direction(a, a_pos, b, b_pos);
    let c = start_between(a, a_pos, b, b_pos);
    let start = support_spec(a, a_pos, b, b_pos, first);
    let p = support_spec(a, a_pos, b, b_pos, first.neg());
    let points = seq![start, p];
    assert(points[0] == start && points[1] == p);
    if p.dot(first.neg()) >= 0 {
        lemma_segment_direction(start, p);
        let dir = triple_direction_spec(start.minus(p), p.neg(), start.minus(p));
        assert(is_support_point(a, a_pos, b, b_pos, start));
        assert(is_support_point(a, a_pos, b, b_pos, p));
        if dir == Vec2::zero() {
            if c == Vec2::zero() {
                lemma_scale_unit(c);
                lemma_scale_unit(points[0]);
                lemma_scale_unit(points[1]);
                lemma_scale_unit(points[2]);
                assert(is_balance(1, 0, 0, 0, c, points));
            } else {
                assert(first == c);
                lemma_start_between_inside(a, a_pos, b, b_pos, c);
                assert(c.dot(c) > 0) by (nonlinear_arith)
                    requires
                        c != Vec2::zero(),
                ;
                lemma_dot_neg_right(p, c);
                lemma_flat_balance(c, start, p);
            }
        }
    }
}

/// Every outcome of a search that sets out from a state of the kind that
/// holds between two steps is sound.
pub proof fn lemma_run_sound<S1: Shape, S2: Shape>(
    a: &S1,
    a_pos: Vec2,
    b: &S2,
    b_pos: Vec2,
    simplex: Seq<Vec2>,
    cur: Vec2,
    fuel: nat,
)
    requires
        a.wf(),
        b.wf(),
        run_inv(a, a_pos, b, b_pos, simplex, cur),
    ensures
        outcome_is_sound(a, a_pos, b, b_pos, gjk_run(a, a_pos, b, b_pos, simplex, cur, fuel)),
    decreases fuel,
{
    let c = start_between(a, a_pos, b, b_pos);
    if cur == Vec2::zero() {
        let first = initial_direction(a, a_pos, b, b_pos);
        assert(first != Vec2::zero());
        assert(simplex.len() == 2);
    } else if fuel == 0 {
    } else {
        let p = support_spec(a, a_pos, b, b_pos, cur);
        let grown = simplex.push(p);
        assert(is_support_point(a, a_pos, b, b_pos, p));
        if p.dot(cur) < 0 {
            assert(!(0 <= support_spec(a, a_pos, b, b_pos, cur).dot(cur)));
        } else if simplex.len() == 1 {
            lemma_first_step(a, a_pos, b, b_pos);
            assert(grown =~= seq![simplex[0], p]);
            lemma_run_sound(a, a_pos, b, b_pos, grown, narrow_spec(grown)->dir, (fuel - 1) as nat);
        } else {
            assert(grown =~= seq![simplex[0], simplex[1], p]);
            lemma_triangle_step(c, simplex[0], simplex[1], p, cur);
            match narrow_spec(grown) {
                Step::Enclosed => {
                    assert forall|i: int| 0 <= i < grown.len() implies is_support_point(
                        a,
                        a_pos,
                        b,
                        b_pos,
                        #[trigger] grown[i],
                    ) by {
                        if i < 2 {
                            assert(grown[i] == simplex[i]);
                        }
                    }
                },
                Step::Narrowed { simplex: s, dir } => {
                    assert forall|i: int| 0 <= i < s.len() implies is_support_point(
                        a,
                        a_pos,
                        b,
                        b_pos,
                        #[trigger] s[i],
                    ) by {
                        if i == 0 {
                            assert(s[0] == simplex[0] || s[0] == simplex[1]);
                        }
                    }
                    lemma_run_sound(a, a_pos, b, b_pos, s, dir, (fuel - 1) as nat);
                },
            }
        }
    }
}

/// Every outcome of the search for two valid shapes is sound.
pub proof fn lemma_gjk_sound<S1: Shape, S2: Shape>(a: &S1, a_pos: Vec2, b: &S2, b_pos: Vec2)
    requires
        a.wf(),
        b.wf(),
    ensures
        outcome_is_sound(a, a_pos, b, b_pos, gjk_spec(a, a_pos, b, b_pos)),
{
    let first = initial_direction(a, a_pos, b, b_pos);
    let start = support_spec(a, a_pos, b, b_pos, first);
    assert(is_support_point(a, a_pos, b, b_pos, start));
    lemma_run_sound(a, a_pos, b, b_pos, seq![start], first.neg(), MAX_ITERATIONS as nat);
}

/// What a verdict says. `false`: the shapes do not overlap. `true`: the
/// shapes overlap within the slack of the two; they overlap, where the
/// support mappings of both are exact.
pub open spec fn verdict_is_sound<S1: Shape, S2: Shape>(
    a: &S1,
    a_pos: Vec2,
    b: &S2,
    b_pos: Vec2,
    verdict: bool,
) -> bool {
    if verdict {
        &&& overlaps_within(a, a_pos, b, b_pos, a.slack() + b.slack())
        &&& is_exact(a) && is_exact(b) ==> overlaps(a, a_pos, b, b_pos)
    } else {
        !overlaps(a, a_pos, b, b_pos)
    }
}

/// Every verdict of the search for two valid shapes is sound.
pub proof fn lemma_verdict_is_overlap<S1: Shape, S2: Shape>(a: &S1, a_pos: Vec2, b: &S2, b_pos: Vec2)
    requires
        a.wf(),
        b.wf(),
    ensures
        gjk_spec(a, a_pos, b, b_pos) matches Some(found) ==> verdict_is_sound(
            a,
            a_pos,
            b,
            b_pos,
            found.0,
        ),
{
    lemma_gjk_sound(a, a_pos, b, b_pos);
    match gjk_spec(a, a_pos, b, b_pos) {
        Some((verdict, simplex)) => {
            if verdict {
                lemma_hull_overlaps(a, a_pos, b, b_pos, simplex);
            }
        },
        None => {},
    }
}

/// Where the shapes lie apart along the line through their start points,
/// the search ends at its first step with the verdict `false`: this is owed
/// whenever the support point against the first direction fails to pass
/// the origin.
pub proof fn lemma_first_look_decides<S1: Shape, S2: Shape>(a: &S1, a_pos: Vec2, b: &S2, b_pos: Vec2)
    requires
        ({
            let back = initial_direction(a, a_pos, b, b_pos).neg();
            support_spec(a, a_pos, b, b_pos, back).dot(back) < 0
        }),
    ensures
        ({
            let first = initial_direction(a, a_pos, b, b_pos);
            gjk_spec(a, a_pos, b, b_pos) == Some(
                (
                    false,
                    seq![
                        support_spec(a, a_pos, b, b_pos, first),
                        support_spec(a, a_pos, b, b_pos, first.neg()),
                    ],
                ),
            )
        }),
{
    let first = initial_direction(a, a_pos, b, b_pos);
    let start = support_spec(a, a_pos, b, b_pos, first);
    let p = support_spec(a, a_pos, b, b_pos, first.neg());
    assert(first != Vec2::zero());
    assert(first.neg() != Vec2::zero());
    assert(seq![start].push(p) =~= seq![start, p]);
}

} // verus!
