//! The penetration solver: a polygon of points of the Minkowski difference
//! of two placed shapes, which holds the origin, is grown toward the
//! boundary until the edge nearest to the origin lies on it.

use crate::algebra::{lemma_dot_linear, lemma_dot_symmetric};
use crate::gjk::{gjk_spec, lemma_verdict_is_overlap};
use crate::numeric::ROOT_SHIFT;
use crate::overlap::{is_support_point, overlaps, overlaps_within};
use crate::polygon::{
    holds_origin_inside, is_well_turned, lemma_split_keeps_origin, lemma_split_keeps_turning,
    lemma_triangle_is_well_turned,
};
use crate::rounding::{
    is_unit, lemma_projection_ceiling, lemma_projection_floor, lemma_projection_monotonic,
    lemma_resized_is_unit, lemma_scaled_norm_positive,
};
use crate::shapes::{is_exact, support, support_spec, Shape};
use crate::simplex::{outward, winding_of, Simplex, Winding};
use crate::vector::{
    det, det_spec, Point, Vec2, Vector, DIRECTION_LIMIT, ONE, POINT_LIMIT, SUPPORT_LIMIT,
};
use vstd::prelude::*;

verus! {

/// How much nearer to the origin than the boundary an edge may lie and
/// still be taken for the boundary: 0.00001.
pub const TOLERANCE: i64 = 10;

/// The largest number of edges that one run examines.
pub const MAX_EXPANSIONS: usize = 2048;

/// The edge of a polygon that lies nearest to the origin.
#[derive(Clone, Copy, Debug)]
pub struct Edge {
    /// The signed distance of the edge from the origin.
    pub distance: i64,
    /// The outward normal of the edge, of unit length.
    pub normal: Vector,
    /// The outward normal of the edge, as long as the edge: the direction
    /// along which the boundary is looked for.
    pub outward: Vector,
    /// The index at which a point is inserted to split the edge: that of
    /// the end of the edge.
    pub index: usize,
}

/// Why a run gave no answer. Each case hands back the polygon as it stood.
#[derive(Debug)]
pub enum EpaError {
    /// No edge of the polygon can be grown.
    NoEdge { polytope: Vec<Vector> },
    /// The polygon stopped being convex when it was grown.
    NotConvex { polytope: Vec<Vector> },
    /// The polygon was still growing after [`MAX_EXPANSIONS`] steps; the
    /// normal and the depth are those of the edge examined last.
    IterationLimit { normal: Vector, depth: i64, polytope: Vec<Vector> },
}

/// The points of a polygon as mathematical vectors.
pub open spec fn ring_view(ring: Seq<Vector>) -> Seq<Vec2> {
    Seq::new(ring.len(), |i: int| ring[i]@)
}

/// Every point of `ring` has components of magnitude at most `bound`.
pub open spec fn ring_within(ring: Seq<Vec2>, bound: int) -> bool {
    forall|i: int| 0 <= i < ring.len() ==> (#[trigger] ring[i]).within(bound)
}

/// The index that follows `i` around a polygon of `len` points.
pub open spec fn next_index(i: int, len: int) -> int {
    if i + 1 == len {
        0
    } else {
        i + 1
    }
}

/// The outward normal of the edge that starts at index `i`.
pub open spec fn edge_normal(ring: Seq<Vec2>, winding: Winding, i: int) -> Vec2 {
    outward(ring[next_index(i, ring.len() as int)].minus(ring[i]), winding)
}

/// The signed distance from the origin of the edge that starts at index `i`.
pub open spec fn edge_distance(ring: Seq<Vec2>, winding: Winding, i: int) -> int {
    edge_normal(ring, winding, i).projection(ring[i])
}

/// Both numbers are positive, or both are negative.
pub open spec fn same_side(one: int, other: int) -> bool {
    (one > 0 && other > 0) || (one < 0 && other < 0)
}

/// The edge that starts at index `i` can be grown: it has a length, and the
/// support point along its normal lies, seen from the origin, between its
/// two ends, the ends included: it does not lie to the same side of both.
pub open spec fn edge_is_open<S1: Shape, S2: Shape>(
    a: &S1,
    a_pos: Vec2,
    b: &S2,
    b_pos: Vec2,
    ring: Seq<Vec2>,
    winding: Winding,
    i: int,
) -> bool {
    let normal = edge_normal(ring, winding, i);
    let s = support_spec(a, a_pos, b, b_pos, normal);
    let before = det_spec(Vec2::zero(), s, ring[i]);
    let after = det_spec(Vec2::zero(), s, ring[next_index(i, ring.len() as int)]);
    normal != Vec2::zero() && !same_side(before, after)
}

/// The edge that starts at index `i` is the first of the edges that can be
/// grown to lie at the least distance from the origin.
pub open spec fn is_first_closest<S1: Shape, S2: Shape>(
    a: &S1,
    a_pos: Vec2,
    b: &S2,
    b_pos: Vec2,
    ring: Seq<Vec2>,
    winding: Winding,
    i: int,
) -> bool {
    &&& 0 <= i < ring.len()
    &&& edge_is_open(a, a_pos, b, b_pos, ring, winding, i)
    &&& forall|j: int|
        0 <= j < ring.len() && #[trigger] edge_is_open(a, a_pos, b, b_pos, ring, winding, j)
            ==> edge_distance(ring, winding, i) <= edge_distance(ring, winding, j)
    &&& forall|j: int|
        0 <= j < i && #[trigger] edge_is_open(a, a_pos, b, b_pos, ring, winding, j)
            ==> edge_distance(ring, winding, i) < edge_distance(ring, winding, j)
}

/// The index at which the closest edge starts, or `None` where no edge can
/// be grown.
pub open spec fn closest_edge<S1: Shape, S2: Shape>(
    a: &S1,
    a_pos: Vec2,
    b: &S2,
    b_pos: Vec2,
    ring: Seq<Vec2>,
    winding: Winding,
) -> Option<int> {
    if exists|i: int| is_first_closest(a, a_pos, b, b_pos, ring, winding, i) {
        Some(choose|i: int| is_first_closest(a, a_pos, b, b_pos, ring, winding, i))
    } else {
        None
    }
}

/// Only one edge is the first closest.
pub proof fn lemma_closest_edge_unique<S1: Shape, S2: Shape>(
    a: &S1,
    a_pos: Vec2,
    b: &S2,
    b_pos: Vec2,
    ring: Seq<Vec2>,
    winding: Winding,
    i: int,
)
    requires
        is_first_closest(a, a_pos, b, b_pos, ring, winding, i),
    ensures
        closest_edge(a, a_pos, b, b_pos, ring, winding) == Some(i),
{
    let k = choose|k: int| is_first_closest(a, a_pos, b, b_pos, ring, winding, k);
    assert(is_first_closest(a, a_pos, b, b_pos, ring, winding, k));
    if k < i {
        assert(edge_is_open(a, a_pos, b, b_pos, ring, winding, k));
    }
    if i < k {
        assert(edge_is_open(a, a_pos, b, b_pos, ring, winding, i));
    }
}

/// The normal of `vector` on the side that `winding` names: to the right
/// `(y, -x)`, to the left `(-y, x)`.
pub fn perp(vector: Vector, winding: Winding) -> (r: Vector)
    requires
        vector.x > i64::MIN,
        vector.y > i64::MIN,
    ensures
        r@ == outward(vector@, winding),
{
    match winding {
        Winding::Right => Vector::new(vector.y, -vector.x),
        Winding::Left => Vector::new(-vector.y, vector.x),
    }
}

/// Finds, among the edges of a polygon that can be grown, the first that
/// lies nearest to the origin.
pub fn find_closest_edge<S1: Shape, S2: Shape>(
    simplex: &Vec<Vector>,
    winding: Winding,
    aa: (&S1, Point),
    bb: (&S2, Point),
) -> (r: Option<Edge>)
    requires
        aa.0.wf(),
        bb.0.wf(),
        aa.1@.within(POINT_LIMIT as int),
        bb.1@.within(POINT_LIMIT as int),
        ring_within(ring_view(simplex@), SUPPORT_LIMIT as int),
    ensures
        match r {
            Some(edge) => {
                let ring = ring_view(simplex@);
                &&& closest_edge(aa.0, aa.1@, bb.0, bb.1@, ring, winding) matches Some(i)
                &&& edge.index == next_index(i, ring.len() as int)
                &&& edge.index < simplex.len()
                &&& edge.outward@ == edge_normal(ring, winding, i)
                &&& edge.outward@ != Vec2::zero()
                &&& edge.outward@.within(DIRECTION_LIMIT as int)
                &&& edge.normal@ == edge_normal(ring, winding, i).resized(ONE as int)
                &&& is_unit(edge.normal@)
                &&& edge.distance == edge_distance(ring, winding, i)
                &&& -2 * SUPPORT_LIMIT <= edge.distance <= 2 * SUPPORT_LIMIT
            },
            None => closest_edge(aa.0, aa.1@, bb.0, bb.1@, ring_view(simplex@), winding) is None,
        },
{
    let ghost ring = ring_view(simplex@);
    let ghost mut start: int = 0;
    let mut closest: Option<Edge> = None;
    let mut i: usize = 0;
    while i < simplex.len()
        invariant
            aa.0.wf(),
            bb.0.wf(),
            aa.1@.within(POINT_LIMIT as int),
            bb.1@.within(POINT_LIMIT as int),
            ring == ring_view(simplex@),
            ring_within(ring, SUPPORT_LIMIT as int),
            i <= simplex.len(),
            match closest {
                Some(edge) => {
                    let k = start;
                    &&& 0 <= k < i
                    &&& edge.index == next_index(k, ring.len() as int)
                    &&& edge_is_open(aa.0, aa.1@, bb.0, bb.1@, ring, winding, k)
                    &&& edge.outward@ == edge_normal(ring, winding, k)
                    &&& edge.outward@.within(DIRECTION_LIMIT as int)
                    &&& edge.normal@ == edge_normal(ring, winding, k).resized(ONE as int)
                    &&& is_unit(edge.normal@)
                    &&& edge.distance == edge_distance(ring, winding, k)
                    &&& -2 * SUPPORT_LIMIT <= edge.distance <= 2 * SUPPORT_LIMIT
                    &&& forall|j: int|
                        0 <= j < i && #[trigger] edge_is_open(aa.0, aa.1@, bb.0, bb.1@, ring, winding, j)
                            ==> edge.distance <= edge_distance(ring, winding, j)
                    &&& forall|j: int|
                        0 <= j < k && #[trigger] edge_is_open(aa.0, aa.1@, bb.0, bb.1@, ring, winding, j)
                            ==> edge.distance < edge_distance(ring, winding, j)
                },
                None => forall|j: int|
                    0 <= j < i ==> !#[trigger] edge_is_open(aa.0, aa.1@, bb.0, bb.1@, ring, winding, j),
            },
        decreases simplex.len() - i,
    {
        let j: usize = if i + 1 == simplex.len() { 0 } else { i + 1 };
        let a = simplex[i];
        let b = simplex[j];
        assert(ring[i as int] == a@ && ring[j as int] == b@);
        assert(ring[i as int].within(SUPPORT_LIMIT as int));
        assert(ring[j as int].within(SUPPORT_LIMIT as int));
        let edge = b.minus(a);
        let normal = perp(edge, winding);
        if !normal.is_zero() {
            let dist: i64 = normal.projection(a);
            let s = support(aa, bb, normal);
            let before: i128 = det(Vector::zero(), s, a);
            let after: i128 = det(Vector::zero(), s, b);
            if !((before > 0 && after > 0) || (before < 0 && after < 0)) {
                let nearer = match closest {
                    Some(found) => dist < found.distance,
                    None => true,
                };
                if nearer {
                    let unit = normal.with_length(ONE);
                    proof {
                        lemma_resized_is_unit(normal@);
                        start = i as int;
                    }
                    closest = Some(Edge { distance: dist, normal: unit, outward: normal, index: j });
                }
            }
        }
        i += 1;
    }
    proof {
        match closest {
            Some(edge) => {
                lemma_closest_edge_unique(aa.0, aa.1@, bb.0, bb.1@, ring, winding, start);
            },
            None => {
                assert forall|k: int| !is_first_closest(aa.0, aa.1@, bb.0, bb.1@, ring, winding, k) by {
                    if 0 <= k < ring.len() {
                        assert(!edge_is_open(aa.0, aa.1@, bb.0, bb.1@, ring, winding, k));
                    }
                }
            },
        }
    }
    closest
}

/// The turn that a polygon takes at the point that follows index `i`.
pub open spec fn corner_turn(ring: Seq<Vec2>, i: int) -> int {
    let len = ring.len() as int;
    let j = next_index(i, len);
    det_spec(ring[i], ring[j], ring[next_index(j, len)])
}

/// The two turns go opposite ways.
pub open spec fn turns_against(one: int, other: int) -> bool {
    (one > 0 && other < 0) || (one < 0 && other > 0)
}

/// The polygon is convex: no two of its corners turn opposite ways.
pub open spec fn is_convex_spec(ring: Seq<Vec2>) -> bool {
    forall|i: int, j: int|
        0 <= i < ring.len() && 0 <= j < ring.len() ==> !turns_against(
            #[trigger] corner_turn(ring, i),
            #[trigger] corner_turn(ring, j),
        )
}

/// Tells whether a polygon is convex.
pub fn is_convex(simplex: &Vec<Vector>) -> (r: bool)
    requires
        ring_within(ring_view(simplex@), 0x2000_0000_0000_0000),
    ensures
        r == is_convex_spec(ring_view(simplex@)),
{
    let ghost ring = ring_view(simplex@);
    let ghost mut witness: int = 0;
    let len = simplex.len();
    let mut sign: i128 = 0;
    let mut i: usize = 0;
    while i < len
        invariant
            len == simplex.len(),
            ring == ring_view(simplex@),
            ring_within(ring, 0x2000_0000_0000_0000),
            i <= len,
            sign != 0 ==> 0 <= witness < i && sign == corner_turn(ring, witness),
            forall|k: int| 0 <= k < i ==> !turns_against(sign as int, #[trigger] corner_turn(ring, k)),
            sign == 0 ==> forall|k: int| 0 <= k < i ==> #[trigger] corner_turn(ring, k) == 0,
        decreases len - i,
    {
        let j: usize = if i + 1 == len { 0 } else { i + 1 };
        let k: usize = if j + 1 == len { 0 } else { j + 1 };
        assert(ring[i as int] == simplex[i as int]@ && ring[j as int] == simplex[j as int]@
            && ring[k as int] == simplex[k as int]@);
        assert(ring[i as int].within(0x2000_0000_0000_0000));
        assert(ring[j as int].within(0x2000_0000_0000_0000));
        assert(ring[k as int].within(0x2000_0000_0000_0000));
        let turn: i128 = det(simplex[i], simplex[j], simplex[k]);
        if sign == 0 {
            sign = turn;
            proof {
                witness = i as int;
            }
        }
        if (sign > 0 && turn < 0) || (sign < 0 && turn > 0) {
            assert(turns_against(corner_turn(ring, witness), corner_turn(ring, i as int)));
            return false;
        }
        i += 1;
    }
    true
}

/// How a run ends.
pub enum EpaOutcome {
    /// The closest edge lies on the boundary: its unit normal, the depth of
    /// the overlap along it, and the polygon reached.
    Solved { normal: Vec2, depth: int, polytope: Seq<Vec2> },
    /// No edge of the polygon can be grown.
    NoEdge { polytope: Seq<Vec2> },
    /// The polygon stopped being convex when it was grown.
    NotConvex { polytope: Seq<Vec2> },
    /// The run is out of steps; the normal and the depth are those of the
    /// edge examined last.
    IterationLimit { normal: Vec2, depth: int, polytope: Seq<Vec2> },
}

/// The simplex from which a run sets out: a triangle as it is, a segment
/// with the support point along its left-hand normal as third point.
pub open spec fn completed<S1: Shape, S2: Shape>(
    a: &S1,
    a_pos: Vec2,
    b: &S2,
    b_pos: Vec2,
    simplex: Seq<Vec2>,
) -> Seq<Vec2> {
    if simplex.len() == 2 {
        simplex.push(
            support_spec(a, a_pos, b, b_pos, outward(simplex[1].minus(simplex[0]), Winding::Left)),
        )
    } else {
        simplex
    }
}

/// The outcome of a run that stands at the polygon `ring` and may examine
/// `fuel` more edges; `normal` and `depth` are those of the edge examined
/// last.
///
/// Each step takes the closest edge that can be grown and the support point
/// along its normal. Where that point lies less than [`TOLERANCE`] beyond
/// the edge, the run ends with the unit normal of the edge and the distance
/// of the support point along it; else the point is inserted between the
/// ends of the edge, at the index of its end.
pub open spec fn epa_run<S1: Shape, S2: Shape>(
    a: &S1,
    a_pos: Vec2,
    b: &S2,
    b_pos: Vec2,
    ring: Seq<Vec2>,
    winding: Winding,
    normal: Vec2,
    depth: int,
    fuel: nat,
) -> EpaOutcome
    decreases fuel,
{
    if fuel == 0 {
        EpaOutcome::IterationLimit { normal, depth, polytope: ring }
    } else {
        match closest_edge(a, a_pos, b, b_pos, ring, winding) {
            None => EpaOutcome::NoEdge { polytope: ring },
            Some(i) => {
                let outward_normal = edge_normal(ring, winding, i);
                let sup = support_spec(a, a_pos, b, b_pos, outward_normal);
                let reach = outward_normal.projection(sup);
                let unit = outward_normal.resized(ONE as int);
                if reach - edge_distance(ring, winding, i) < TOLERANCE {
                    EpaOutcome::Solved { normal: unit, depth: reach, polytope: ring }
                } else {
                    let grown = ring.insert(next_index(i, ring.len() as int), sup);
                    if is_convex_spec(grown) {
                        epa_run(a, a_pos, b, b_pos, grown, winding, unit, reach, (fuel - 1) as nat)
                    } else {
                        EpaOutcome::NotConvex { polytope: grown }
                    }
                }
            },
        }
    }
}

/// The outcome of the run that sets out from `simplex`.
pub open spec fn epa_spec<S1: Shape, S2: Shape>(
    a: &S1,
    a_pos: Vec2,
    b: &S2,
    b_pos: Vec2,
    simplex: Seq<Vec2>,
) -> EpaOutcome {
    let triangle = completed(a, a_pos, b, b_pos, simplex);
    epa_run(
        a,
        a_pos,
        b,
        b_pos,
        triangle,
        winding_of(triangle[0], triangle[1], triangle[2]),
        Vec2::zero(),
        0,
        MAX_EXPANSIONS as nat,
    )
}

/// What a result of [`solve_internal`] says, as an outcome.
pub open spec fn outcome_of(r: Result<(Vector, i64, Vec<Vector>), EpaError>) -> EpaOutcome {
    match r {
        Ok((normal, depth, polytope)) => EpaOutcome::Solved {
            normal: normal@,
            depth: depth as int,
            polytope: ring_view(polytope@),
        },
        Err(EpaError::NoEdge { polytope }) => EpaOutcome::NoEdge { polytope: ring_view(polytope@) },
        Err(EpaError::NotConvex { polytope }) => EpaOutcome::NotConvex {
            polytope: ring_view(polytope@),
        },
        Err(EpaError::IterationLimit { normal, depth, polytope }) => EpaOutcome::IterationLimit {
            normal: normal@,
            depth: depth as int,
            polytope: ring_view(polytope@),
        },
    }
}

/// Finds how far, and along which direction, two overlapping placed shapes
/// reach into each other. `simplex` is the simplex at which the search for
/// the overlap ended. Returns the unit normal, the depth, and the polygon
/// from which they were read.
#[verifier::rlimit(50)]
pub fn solve_internal<S1: Shape, S2: Shape>(a: (&S1, Point), b: (&S2, Point), simplex: Simplex) -> (r:
    Result<(Vector, i64, Vec<Vector>), EpaError>)
    requires
        a.0.wf(),
        b.0.wf(),
        a.1@.within(POINT_LIMIT as int),
        b.1@.within(POINT_LIMIT as int),
        !(simplex is Point),
        simplex.within(SUPPORT_LIMIT as int),
    ensures
        outcome_of(r) == epa_spec(a.0, a.1@, b.0, b.1@, simplex@),
        outcome_is_sound(a.0, a.1@, b.0, b.1@, simplex@, outcome_of(r)),
{
    let mut triangle = simplex;
    if let Simplex::Line(from, to) = triangle {
        assert(triangle@[0] == from@ && triangle@[1] == to@);
        let sup = support(a, b, perp(to.minus(from), Winding::Left));
        triangle.add(sup);
    }
    assert(triangle@ == completed(a.0, a.1@, b.0, b.1@, simplex@));
    let winding = triangle.winding();
    let mut ring: Vec<Vector> = Vec::new();
    let mut it = triangle.iter();
    loop
        invariant
            ring_view(ring@) + it@ == triangle@,
        ensures
            ring_view(ring@) == triangle@,
        decreases it@.len(),
    {
        let ghost before = ring_view(ring@);
        let ghost rest = it@;
        match it.next() {
            Some(v) => {
                ring.push(v);
                assert(ring_view(ring@) =~= before.push(v@));
                assert(ring_view(ring@) + it@ =~= before + rest);
            },
            None => {
                assert(ring_view(ring@) =~= ring_view(ring@) + it@);
                break ;
            },
        }
    }
    let mut normal = Vector::zero();
    let mut depth: i64 = 0;
    let mut expansions: usize = 0;
    while expansions < MAX_EXPANSIONS
        invariant
            a.0.wf(),
            b.0.wf(),
            a.1@.within(POINT_LIMIT as int),
            b.1@.within(POINT_LIMIT as int),
            expansions <= MAX_EXPANSIONS,
            ring_within(ring_view(ring@), SUPPORT_LIMIT as int),
            epa_run(
                a.0,
                a.1@,
                b.0,
                b.1@,
                ring_view(ring@),
                winding,
                normal@,
                depth as int,
                (MAX_EXPANSIONS - expansions) as nat,
            ) == epa_spec(a.0, a.1@, b.0, b.1@, simplex@),
        decreases MAX_EXPANSIONS - expansions,
    {
        proof {
            lemma_epa_sound(a.0, a.1@, b.0, b.1@, simplex@);
        }
        expansions += 1;
        match find_closest_edge(&ring, winding, a, b) {
            None => {
                return Err(EpaError::NoEdge { polytope: ring });
            },
            Some(edge) => {
                let ghost before = ring_view(ring@);
                let sup = support(a, b, edge.outward);
                depth = edge.outward.projection(sup);
                normal = edge.normal;
                if depth - edge.distance < TOLERANCE {
                    return Ok((normal, depth, ring));
                }
                ring.insert(edge.index, sup);
                assert(ring_view(ring@) =~= before.insert(edge.index as int, sup@));
                if !is_convex(&ring) {
                    return Err(EpaError::NotConvex { polytope: ring });
                }
            },
        }
    }
    proof {
        lemma_epa_sound(a.0, a.1@, b.0, b.1@, simplex@);
    }
    Err(EpaError::IterationLimit { normal, depth, polytope: ring })
}

/// Finds how far, and along which direction, two overlapping placed shapes
/// reach into each other: the unit normal and the depth.
pub fn solve<S1: Shape, S2: Shape>(a: (&S1, Point), b: (&S2, Point), simplex: Simplex) -> (r: Result<
    (Vector, i64),
    EpaError,
>)
    requires
        a.0.wf(),
        b.0.wf(),
        a.1@.within(POINT_LIMIT as int),
        b.1@.within(POINT_LIMIT as int),
        !(simplex is Point),
        simplex.within(SUPPORT_LIMIT as int),
    ensures
        match r {
            Ok((normal, depth)) => {
                &&& epa_spec(a.0, a.1@, b.0, b.1@, simplex@) matches EpaOutcome::Solved {
                    normal: n,
                    depth: d,
                    ..
                } && n == normal@ && d == depth
                &&& is_unit(normal@)
                &&& overlaps(a.0, a.1@, b.0, b.1@) ==> depth >= 0
            },
            Err(e) => outcome_of(Err(e)) == epa_spec(a.0, a.1@, b.0, b.1@, simplex@),
        },
        outcome_is_sound(
            a.0,
            a.1@,
            b.0,
            b.1@,
            simplex@,
            epa_spec(a.0, a.1@, b.0, b.1@, simplex@),
        ),
{
    match solve_internal(a, b, simplex) {
        Ok((normal, depth, _)) => Ok((normal, depth)),
        Err(e) => Err(e),
    }
}

/// The polygon with which an outcome comes.
pub open spec fn polytope_of(outcome: EpaOutcome) -> Seq<Vec2> {
    match outcome {
        EpaOutcome::Solved { polytope, .. } => polytope,
        EpaOutcome::NoEdge { polytope } => polytope,
        EpaOutcome::NotConvex { polytope } => polytope,
        EpaOutcome::IterationLimit { polytope, .. } => polytope,
    }
}

/// `polytope` has come from `ring` by inserting support points: it keeps
/// every point of `ring`, and each of its points is one of `ring` or a
/// support point of the Minkowski difference.
pub open spec fn is_grown_from<S1: Shape, S2: Shape>(
    a: &S1,
    a_pos: Vec2,
    b: &S2,
    b_pos: Vec2,
    ring: Seq<Vec2>,
    polytope: Seq<Vec2>,
) -> bool {
    &&& polytope.len() >= ring.len()
    &&& forall|k: int| 0 <= k < ring.len() ==> polytope.contains(#[trigger] ring[k])
    &&& forall|k: int|
        0 <= k < polytope.len() ==> ring.contains(#[trigger] polytope[k]) || is_support_point(
            a,
            a_pos,
            b,
            b_pos,
            polytope[k],
        )
}

/// What an answer says. The normal is the outward normal of the closest
/// edge of the polygon, brought to unit length; the depth is the distance
/// from the origin, along that normal, at which the Minkowski difference
/// ends; the edge lies less than [`TOLERANCE`] short of it. Where the shapes
/// overlap, the depth is not negative; where they overlap within a slack,
/// it is no less than twice the slack below zero.
pub open spec fn answer_is_sound<S1: Shape, S2: Shape>(
    a: &S1,
    a_pos: Vec2,
    b: &S2,
    b_pos: Vec2,
    winding: Winding,
    outcome: EpaOutcome,
) -> bool {
    outcome matches EpaOutcome::Solved { normal, depth, polytope } ==> {
        &&& closest_edge(a, a_pos, b, b_pos, polytope, winding) matches Some(i)
        &&& edge_normal(polytope, winding, i) != Vec2::zero()
        &&& normal == edge_normal(polytope, winding, i).resized(ONE as int)
        &&& depth == edge_normal(polytope, winding, i).projection(
            support_spec(a, a_pos, b, b_pos, edge_normal(polytope, winding, i)),
        )
        &&& depth - edge_distance(polytope, winding, i) < TOLERANCE
        &&& is_unit(normal)
        &&& overlaps(a, a_pos, b, b_pos) ==> depth >= 0
        &&& forall|slack: int|
            slack >= 0 && #[trigger] overlaps_within(a, a_pos, b, b_pos, slack) ==> depth >= -2
                * slack
    }
}

/// Every answer of a run is sound, and the polygon of every outcome has
/// come from the polygon at which the run set out.
#[verifier::rlimit(50)]
pub proof fn lemma_epa_run_sound<S1: Shape, S2: Shape>(
    a: &S1,
    a_pos: Vec2,
    b: &S2,
    b_pos: Vec2,
    ring: Seq<Vec2>,
    winding: Winding,
    normal: Vec2,
    depth: int,
    fuel: nat,
)
    ensures
        answer_is_sound(
            a,
            a_pos,
            b,
            b_pos,
            winding,
            epa_run(a, a_pos, b, b_pos, ring, winding, normal, depth, fuel),
        ),
        is_grown_from(
            a,
            a_pos,
            b,
            b_pos,
            ring,
            polytope_of(epa_run(a, a_pos, b, b_pos, ring, winding, normal, depth, fuel)),
        ),
    decreases fuel,
{
    assert forall|k: int| 0 <= k < ring.len() implies ring.contains(#[trigger] ring[k]) by {}
    if fuel == 0 {
    } else {
        match closest_edge(a, a_pos, b, b_pos, ring, winding) {
            None => {},
            Some(i) => {
                assert(is_first_closest(a, a_pos, b, b_pos, ring, winding, i));
                let n = edge_normal(ring, winding, i);
                let sup = support_spec(a, a_pos, b, b_pos, n);
                let reach = n.projection(sup);
                let unit = n.resized(ONE as int);
                if reach - edge_distance(ring, winding, i) < TOLERANCE {
                    lemma_resized_is_unit(n);
                    if overlaps(a, a_pos, b, b_pos) {
                        lemma_dot_symmetric(n, sup);
                        lemma_projection_monotonic(n, sup, sup);
                    }
                    assert forall|slack: int|
                        slack >= 0 && #[trigger] overlaps_within(
                            a,
                            a_pos,
                            b,
                            b_pos,
                            slack,
                        ) implies reach >= -2 * slack by {
                        assert(0 <= support_spec(a, a_pos, b, b_pos, n).dot(n) + slack * n.norm1());
                        lemma_dot_symmetric(n, sup);
                        lemma_projection_floor(n, sup, slack);
                    }
                } else {
                    let at = next_index(i, ring.len() as int);
                    let grown = ring.insert(at, sup);
                    if is_convex_spec(grown) {
                        lemma_epa_run_sound(
                            a,
                            a_pos,
                            b,
                            b_pos,
                            grown,
                            winding,
                            unit,
                            reach,
                            (fuel - 1) as nat,
                        );
                    }
                    let polytope = polytope_of(
                        epa_run(a, a_pos, b, b_pos, ring, winding, normal, depth, fuel),
                    );
                    assert(is_support_point(a, a_pos, b, b_pos, sup));
                    assert(grown[at] == sup);
                    assert forall|k: int| 0 <= k < grown.len() implies ring.contains(
                        #[trigger] grown[k],
                    ) || is_support_point(a, a_pos, b, b_pos, grown[k]) by {
                        if k < at {
                            assert(grown[k] == ring[k]);
                        } else if k > at {
                            assert(grown[k] == ring[k - 1]);
                        }
                    }
                    assert forall|k: int| 0 <= k < ring.len() implies grown.contains(
                        #[trigger] ring[k],
                    ) by {
                        if k < at {
                            assert(grown[k] == ring[k]);
                        } else {
                            assert(grown[k + 1] == ring[k]);
                        }
                    }
                    assert forall|k: int| 0 <= k < ring.len() implies polytope.contains(
                        #[trigger] ring[k],
                    ) by {
                        assert(grown.contains(ring[k]));
                        let m = choose|m: int| 0 <= m < grown.len() && grown[m] == ring[k];
                        assert(polytope.contains(grown[m]));
                    }
                    assert forall|k: int| 0 <= k < polytope.len() implies ring.contains(
                        #[trigger] polytope[k],
                    ) || is_support_point(a, a_pos, b, b_pos, polytope[k]) by {
                        if grown.contains(polytope[k]) {
                            let m = choose|m: int| 0 <= m < grown.len() && grown[m] == polytope[k];
                            assert(ring.contains(grown[m]) || is_support_point(
                                a,
                                a_pos,
                                b,
                                b_pos,
                                grown[m],
                            ));
                        }
                    }
                }
            },
        }
    }
}

/// What the outcome of the run that sets out from `simplex` says: an
/// answer is sound under the winding of the completed simplex, and the
/// polygon has come from the completed simplex; where the completed
/// simplex is not flat, the polygon turns one way, that of the winding,
/// unless the run ends because it does not, and holds the origin on the
/// inner side of all its edges if the completed simplex does.
pub open spec fn outcome_is_sound<S1: Shape, S2: Shape>(
    a: &S1,
    a_pos: Vec2,
    b: &S2,
    b_pos: Vec2,
    simplex: Seq<Vec2>,
    outcome: EpaOutcome,
) -> bool {
    let triangle = completed(a, a_pos, b, b_pos, simplex);
    &&& answer_is_sound(
        a,
        a_pos,
        b,
        b_pos,
        winding_of(triangle[0], triangle[1], triangle[2]),
        outcome,
    )
    &&& is_grown_from(a, a_pos, b, b_pos, triangle, polytope_of(outcome))
    &&& 2 <= simplex.len() <= 3 && triangle[1].minus(triangle[0]).cross(
        triangle[2].minus(triangle[1]),
    ) != 0 && !(outcome is NotConvex) ==> {
        let winding = winding_of(triangle[0], triangle[1], triangle[2]);
        &&& is_well_turned(polytope_of(outcome), winding)
        &&& holds_origin_inside(triangle, winding) ==> holds_origin_inside(
            polytope_of(outcome),
            winding,
        )
    }
}

/// A point whose projection on a direction is greater than that of
/// another lies beyond the other along the direction.
pub proof fn lemma_beyond(n: Vec2, p: Vec2, q: Vec2)
    requires
        n != Vec2::zero(),
        n.projection(p) > n.projection(q),
    ensures
        n.dot(p.minus(q)) > 0,
{
    if n.dot(p) <= n.dot(q) {
        lemma_projection_monotonic(n, p, q);
    }
    lemma_dot_linear(p, q, n);
    lemma_dot_symmetric(n, p);
    lemma_dot_symmetric(n, q);
    lemma_dot_symmetric(n, p.minus(q));
}

/// A run that sets out from a polygon that turns one way ends, unless the
/// polygon stops being convex, at a polygon that turns one way; and at one
/// that holds the origin on the inner side of all its edges, if it sets
/// out from one.
pub proof fn lemma_run_keeps_turning<S1: Shape, S2: Shape>(
    a: &S1,
    a_pos: Vec2,
    b: &S2,
    b_pos: Vec2,
    ring: Seq<Vec2>,
    winding: Winding,
    normal: Vec2,
    depth: int,
    fuel: nat,
)
    requires
        is_well_turned(ring, winding),
    ensures
        ({
            let outcome = epa_run(a, a_pos, b, b_pos, ring, winding, normal, depth, fuel);
            !(outcome is NotConvex) ==> {
                &&& is_well_turned(polytope_of(outcome), winding)
                &&& holds_origin_inside(ring, winding) ==> holds_origin_inside(
                    polytope_of(outcome),
                    winding,
                )
            }
        }),
    decreases fuel,
{
    if fuel == 0 {
    } else {
        match closest_edge(a, a_pos, b, b_pos, ring, winding) {
            None => {},
            Some(i) => {
                assert(is_first_closest(a, a_pos, b, b_pos, ring, winding, i));
                let n = edge_normal(ring, winding, i);
                let sup = support_spec(a, a_pos, b, b_pos, n);
                let reach = n.projection(sup);
                let unit = n.resized(ONE as int);
                if reach - edge_distance(ring, winding, i) < TOLERANCE {
                } else {
                    let grown = ring.insert(next_index(i, ring.len() as int), sup);
                    if is_convex_spec(grown) {
                        lemma_beyond(n, sup, ring[i]);
                        lemma_split_keeps_turning(ring, winding, i, sup);
                        if holds_origin_inside(ring, winding) {
                            lemma_split_keeps_origin(ring, winding, i, sup);
                        }
                        lemma_run_keeps_turning(
                            a,
                            a_pos,
                            b,
                            b_pos,
                            grown,
                            winding,
                            unit,
                            reach,
                            (fuel - 1) as nat,
                        );
                    }
                }
            },
        }
    }
}

/// Every outcome of the run that sets out from a simplex is sound.
pub proof fn lemma_epa_sound<S1: Shape, S2: Shape>(
    a: &S1,
    a_pos: Vec2,
    b: &S2,
    b_pos: Vec2,
    simplex: Seq<Vec2>,
)
    ensures
        outcome_is_sound(a, a_pos, b, b_pos, simplex, epa_spec(a, a_pos, b, b_pos, simplex)),
{
    let triangle = completed(a, a_pos, b, b_pos, simplex);
    let winding = winding_of(triangle[0], triangle[1], triangle[2]);
    lemma_epa_run_sound(a, a_pos, b, b_pos, triangle, winding, Vec2::zero(), 0, MAX_EXPANSIONS as nat);
    if 2 <= simplex.len() <= 3 && triangle[1].minus(triangle[0]).cross(
        triangle[2].minus(triangle[1]),
    ) != 0 {
        assert(triangle =~= seq![triangle[0], triangle[1], triangle[2]]);
        lemma_triangle_is_well_turned(triangle[0], triangle[1], triangle[2]);
        lemma_run_keeps_turning(
            a,
            a_pos,
            b,
            b_pos,
            triangle,
            winding,
            Vec2::zero(),
            0,
            MAX_EXPANSIONS as nat,
        );
    }
}

/// The depth along a direction tells how far to move the first shape to
/// clear the second: once the first shape is moved by a vector `t` that
/// points against the direction `n` with a length, along `n`, of more than
/// the projection of the support point, the two no longer overlap.
pub proof fn lemma_depth_separates<S1: Shape, S2: Shape>(
    a: &S1,
    a_pos: Vec2,
    b: &S2,
    b_pos: Vec2,
    n: Vec2,
    t: Vec2,
)
    requires
        n != Vec2::zero(),
        n.dot(t) * ROOT_SHIFT <= -(n.projection(support_spec(a, a_pos, b, b_pos, n)) + 1)
            * n.scaled_norm(),
    ensures
        !overlaps(a, a_pos.plus(t), b, b_pos),
{
    let sup = support_spec(a, a_pos, b, b_pos, n);
    let s = n.scaled_norm();
    let x = n.dot(sup) * ROOT_SHIFT;
    let depth = n.projection(sup);
    lemma_scaled_norm_positive(n);
    lemma_projection_ceiling(n, sup);
    let moved = support_spec(a, a_pos.plus(t), b, b_pos, n);
    assert(moved == sup.plus(t));
    lemma_dot_linear(sup, t, n);
    lemma_dot_symmetric(n, sup);
    lemma_dot_symmetric(n, t);
    assert(moved.dot(n) < 0) by (nonlinear_arith)
        requires
            moved.dot(n) == n.dot(sup) + n.dot(t),
            x == n.dot(sup) * ROOT_SHIFT,
            x < (depth + 1) * s,
            n.dot(t) * ROOT_SHIFT <= -(depth + 1) * s,
    ;
}

/// Where the search between two valid shapes ends with the verdict `true`,
/// the run that sets out from its simplex answers, if at all, with a normal
/// of unit length and a depth that is no less than twice the slack of the
/// two shapes below zero: that is not negative, where the support mappings
/// of both are exact.
pub proof fn lemma_answer_after_search<S1: Shape, S2: Shape>(
    a: &S1,
    a_pos: Vec2,
    b: &S2,
    b_pos: Vec2,
    simplex: Seq<Vec2>,
)
    requires
        a.wf(),
        b.wf(),
        gjk_spec(a, a_pos, b, b_pos) == Some((true, simplex)),
    ensures
        epa_spec(a, a_pos, b, b_pos, simplex) matches EpaOutcome::Solved { normal, depth, .. } ==> {
            &&& is_unit(normal)
            &&& depth >= -2 * (a.slack() + b.slack())
            &&& is_exact(a) && is_exact(b) ==> depth >= 0
        },
{
    lemma_verdict_is_overlap(a, a_pos, b, b_pos);
    lemma_epa_sound(a, a_pos, b, b_pos, simplex);
    a.lemma_support_consistent(Vec2::zero(), Vec2::zero());
    b.lemma_support_consistent(Vec2::zero(), Vec2::zero());
}

} // verus!
