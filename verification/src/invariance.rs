//! What the intersection search keeps: its verdict does not depend on the
//! order of the two shapes nor on where the pair is placed, and a shape
//! always meets itself.

use crate::algebra::{lemma_cross_antisymmetric, lemma_cross_linear, lemma_scale_unit};
use crate::gjk::{
    narrow_spec, gjk_run, gjk_spec, initial_direction, lemma_gjk_sound, signum,
    triple_direction_spec, Step, MAX_ITERATIONS,
};
use crate::overlap::{
    lemma_start_between_inside, lemma_support_mirrored, overlaps, start_between,
};
use crate::shapes::{support_spec, Shape};
use crate::vector::{Vec2, ONE};
use vstd::prelude::*;

verus! {

/// The points of `points`, each mirrored at the origin.
pub open spec fn mirrored(points: Seq<Vec2>) -> Seq<Vec2> {
    Seq::new(points.len(), |i: int| points[i].neg())
}

/// The outcome of a search with its simplex mirrored at the origin.
pub open spec fn mirrored_outcome(outcome: Option<(bool, Seq<Vec2>)>) -> Option<(bool, Seq<Vec2>)> {
    match outcome {
        Some((verdict, simplex)) => Some((verdict, mirrored(simplex))),
        None => None,
    }
}

/// The step from a mirrored simplex, mirrored back.
pub open spec fn mirrored_step(step: Step) -> Step {
    match step {
        Step::Enclosed => Step::Enclosed,
        Step::Narrowed { simplex, dir } => Step::Narrowed { simplex: mirrored(simplex), dir: dir.neg() },
    }
}

/// The direction of the triple product of mirrored vectors is mirrored.
proof fn lemma_direction_mirrored(a: Vec2, b: Vec2, c: Vec2)
    ensures
        triple_direction_spec(a.neg(), b.neg(), c.neg()) == triple_direction_spec(a, b, c).neg(),
{
    assert(a.neg().cross(b.neg()) == a.cross(b)) by (nonlinear_arith);
    let k = signum(a.cross(b));
    lemma_scale_unit(c.perp());
    lemma_scale_unit(c.neg().perp());
}

/// The scalar product of two mirrored vectors is that of the vectors.
proof fn lemma_dot_mirrored(a: Vec2, b: Vec2)
    by (nonlinear_arith)
    ensures
        a.neg().dot(b.neg()) == a.dot(b),
{
}

/// A narrowing step commutes with mirroring at the origin.
proof fn lemma_expand_mirrored(simplex: Seq<Vec2>)
    requires
        2 <= simplex.len() <= 3,
    ensures
        narrow_spec(mirrored(simplex)) == mirrored_step(narrow_spec(simplex)),
{
    let m = mirrored(simplex);
    if simplex.len() == 3 {
        let b = simplex[0];
        let c = simplex[1];
        let a = simplex[2];
        assert(m[0] == b.neg() && m[1] == c.neg() && m[2] == a.neg());
        let ao = a.neg();
        let ab = b.minus(a);
        let ac = c.minus(a);
        assert(b.neg().minus(a.neg()) == ab.neg());
        assert(c.neg().minus(a.neg()) == ac.neg());
        lemma_direction_mirrored(ac, ab, ab);
        lemma_direction_mirrored(ab, ac, ac);
        lemma_dot_mirrored(triple_direction_spec(ac, ab, ab), ao);
        lemma_dot_mirrored(triple_direction_spec(ab, ac, ac), ao);
        assert(mirrored(seq![b, a]) =~= seq![b.neg(), a.neg()]);
        assert(mirrored(seq![c, a]) =~= seq![c.neg(), a.neg()]);
    } else {
        let b = simplex[0];
        let a = simplex[1];
        assert(m[0] == b.neg() && m[1] == a.neg());
        let ab = b.minus(a);
        assert(b.neg().minus(a.neg()) == ab.neg());
        lemma_direction_mirrored(ab, a.neg(), ab);
        assert(mirrored(seq![b, a]) =~= seq![b.neg(), a.neg()]);
    }
}

/// A search between `b` and `a` that sets out from the mirror image of a
/// state runs as the mirror image of the search between `a` and `b`.
proof fn lemma_run_mirrored<S1: Shape, S2: Shape>(
    a: &S1,
    a_pos: Vec2,
    b: &S2,
    b_pos: Vec2,
    simplex: Seq<Vec2>,
    cur: Vec2,
    fuel: nat,
)
    requires
        1 <= simplex.len() <= 2,
    ensures
        gjk_run(b, b_pos, a, a_pos, mirrored(simplex), cur.neg(), fuel) == mirrored_outcome(
            gjk_run(a, a_pos, b, b_pos, simplex, cur, fuel),
        ),
    decreases fuel,
{
    if cur == Vec2::zero() {
    } else if fuel == 0 {
    } else {
        let p = support_spec(a, a_pos, b, b_pos, cur);
        lemma_support_mirrored(a, a_pos, b, b_pos, cur);
        let grown = simplex.push(p);
        assert(mirrored(simplex).push(p.neg()) =~= mirrored(grown));
        if p.dot(cur) < 0 {
        } else {
            lemma_expand_mirrored(grown);
            match narrow_spec(grown) {
                Step::Enclosed => {},
                Step::Narrowed { simplex: s, dir } => {
                    lemma_run_mirrored(a, a_pos, b, b_pos, s, dir, (fuel - 1) as nat);
                },
            }
        }
    }
}

/// Where the start points of two placed shapes differ, the search between
/// `b` and `a` is the mirror image of the search between `a` and `b`: it
/// ends after as many steps, with the same verdict.
pub proof fn lemma_gjk_mirrored<S1: Shape, S2: Shape>(a: &S1, a_pos: Vec2, b: &S2, b_pos: Vec2)
    requires
        start_between(a, a_pos, b, b_pos) != Vec2::zero(),
    ensures
        gjk_spec(b, b_pos, a, a_pos) == mirrored_outcome(gjk_spec(a, a_pos, b, b_pos)),
{
    let first = initial_direction(a, a_pos, b, b_pos);
    assert(start_between(b, b_pos, a, a_pos) == start_between(a, a_pos, b, b_pos).neg());
    assert(initial_direction(b, b_pos, a, a_pos) == first.neg());
    lemma_support_mirrored(a, a_pos, b, b_pos, first);
    let start = support_spec(a, a_pos, b, b_pos, first);
    assert(mirrored(seq![start]) =~= seq![start.neg()]);
    lemma_run_mirrored(a, a_pos, b, b_pos, seq![start], first.neg(), MAX_ITERATIONS as nat);
}

/// The verdicts of the searches between `a` and `b` and between `b` and `a`
/// agree, where both searches reach one.
pub proof fn lemma_gjk_symmetric<S1: Shape, S2: Shape>(a: &S1, a_pos: Vec2, b: &S2, b_pos: Vec2)
    requires
        a.wf(),
        b.wf(),
    ensures
        gjk_spec(a, a_pos, b, b_pos) matches Some(one) ==> (gjk_spec(b, b_pos, a, a_pos) matches Some(
            other,
        ) ==> one.0 == other.0),
{
    if start_between(a, a_pos, b, b_pos) != Vec2::zero() {
        lemma_gjk_mirrored(a, a_pos, b, b_pos);
    } else {
        assert(start_between(b, b_pos, a, a_pos) == Vec2::zero());
        lemma_coincident_overlap(a, a_pos, b, b_pos);
        lemma_coincident_overlap(b, b_pos, a, a_pos);
        lemma_gjk_sound(a, a_pos, b, b_pos);
        lemma_gjk_sound(b, b_pos, a, a_pos);
    }
}

/// Two valid shapes whose start points coincide overlap.
pub proof fn lemma_coincident_overlap<S1: Shape, S2: Shape>(a: &S1, a_pos: Vec2, b: &S2, b_pos: Vec2)
    requires
        a.wf(),
        b.wf(),
        start_between(a, a_pos, b, b_pos) == Vec2::zero(),
    ensures
        overlaps(a, a_pos, b, b_pos),
{
    assert forall|d: Vec2| 0 <= (#[trigger] support_spec(a, a_pos, b, b_pos, d)).dot(d) by {
        lemma_start_between_inside(a, a_pos, b, b_pos, d);
    }
}

/// The search between a valid shape and itself, at one position, ends with
/// the verdict `true`.
pub proof fn lemma_gjk_reflexive<S: Shape>(a: &S, pos: Vec2)
    requires
        a.wf(),
    ensures
        gjk_spec(a, pos, a, pos) matches Some(found) && found.0,
{
    let first = Vec2 { x: ONE as int, y: 0 };
    assert(start_between(a, pos, a, pos) == Vec2::zero());
    assert(initial_direction(a, pos, a, pos) == first);
    let start = support_spec(a, pos, a, pos, first);
    let cur = first.neg();
    let p = support_spec(a, pos, a, pos, cur);
    assert(first.neg().neg() == first);
    assert(p == start.neg());
    lemma_start_between_inside(a, pos, a, pos, first);
    assert(p.dot(cur) == start.dot(first)) by (nonlinear_arith)
        requires
            p == start.neg(),
            cur == first.neg(),
    ;
    let grown = seq![start].push(p);
    assert(grown.len() == 2 && grown[0] == start && grown[1] == p);
    let ab = start.minus(p);
    lemma_cross_linear(start, p, p.neg());
    lemma_cross_antisymmetric(p, p);
    lemma_cross_linear(p, p, p);
    lemma_cross_linear(start, start, start);
    lemma_cross_antisymmetric(start, start);
    assert(start.cross(start.neg()) == 0) by (nonlinear_arith);
    assert(p.neg() == start);
    assert(ab.cross(p.neg()) == 0);
    lemma_scale_unit(ab.perp());
    assert(triple_direction_spec(ab, p.neg(), ab) == Vec2::zero());
    let narrowed = seq![start, p];
    assert(narrow_spec(grown) == Step::Narrowed { simplex: narrowed, dir: Vec2::zero() });
    assert(gjk_run(a, pos, a, pos, narrowed, Vec2::zero(), (MAX_ITERATIONS - 1) as nat) == Some(
        (true, narrowed),
    ));
    assert(gjk_run(a, pos, a, pos, seq![start], cur, MAX_ITERATIONS as nat) == Some((true, narrowed)));
}

/// A search between two shapes that sets out from a state runs alike
/// wherever the pair is placed.
proof fn lemma_run_translated<S1: Shape, S2: Shape>(
    a: &S1,
    a_pos: Vec2,
    b: &S2,
    b_pos: Vec2,
    t: Vec2,
    simplex: Seq<Vec2>,
    cur: Vec2,
    fuel: nat,
)
    ensures
        gjk_run(a, a_pos.plus(t), b, b_pos.plus(t), simplex, cur, fuel) == gjk_run(
            a,
            a_pos,
            b,
            b_pos,
            simplex,
            cur,
            fuel,
        ),
    decreases fuel,
{
    if cur == Vec2::zero() {
    } else if fuel == 0 {
    } else {
        let p = support_spec(a, a_pos, b, b_pos, cur);
        assert(support_spec(a, a_pos.plus(t), b, b_pos.plus(t), cur) == p);
        let grown = simplex.push(p);
        if p.dot(cur) < 0 {
        } else {
            match narrow_spec(grown) {
                Step::Enclosed => {},
                Step::Narrowed { simplex: s, dir } => {
                    lemma_run_translated(a, a_pos, b, b_pos, t, s, dir, (fuel - 1) as nat);
                },
            }
        }
    }
}

/// The search between two shapes ends alike, with the same verdict and the
/// same simplex, when both shapes are moved by `t`.
pub proof fn lemma_gjk_translated<S1: Shape, S2: Shape>(
    a: &S1,
    a_pos: Vec2,
    b: &S2,
    b_pos: Vec2,
    t: Vec2,
)
    ensures
        gjk_spec(a, a_pos.plus(t), b, b_pos.plus(t)) == gjk_spec(a, a_pos, b, b_pos),
{
    let first = initial_direction(a, a_pos, b, b_pos);
    assert(start_between(a, a_pos.plus(t), b, b_pos.plus(t)) == start_between(a, a_pos, b, b_pos));
    assert(initial_direction(a, a_pos.plus(t), b, b_pos.plus(t)) == first);
    let start = support_spec(a, a_pos, b, b_pos, first);
    assert(support_spec(a, a_pos.plus(t), b, b_pos.plus(t), first) == start);
    lemma_run_translated(a, a_pos, b, b_pos, t, seq![start], first.neg(), MAX_ITERATIONS as nat);
}

} // verus!
