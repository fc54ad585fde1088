//! The simplex that the intersection search grows: one, two or three points
//! of a Minkowski difference, in the order in which they were found.

use crate::algebra::{
    lemma_cross_antisymmetric, lemma_cross_linear, lemma_mul_commutes, lemma_mul_dist,
};
use crate::vector::{det, det_spec, Vec2, Vector};
use vstd::prelude::*;

verus! {

/// Handedness of a triangle. It tells on which side of a directed edge the
/// outside lies: for `Right` the edge `(x, y)` has the outward normal
/// `(y, -x)`, for `Left` it has `(-y, x)`.
#[derive(Clone, Copy, Debug, PartialEq, Eq, Structural)]
pub enum Winding {
    Left,
    Right,
}

/// A point, a segment or a triangle.
#[derive(Clone, Copy, Debug, PartialEq, Eq, Structural)]
pub enum Simplex {
    Point(Vector),
    Line(Vector, Vector),
    Triangle(Vector, Vector, Vector),
}

/// The handedness of the triangle `v0`, `v1`, `v2`: `Right` when the three
/// points run counter-clockwise, `Left` when they run clockwise or lie on
/// one line. It is read off the scalar product of the second edge with the
/// right-hand normal of the first: negative for `Right`.
pub open spec fn winding_of(v0: Vec2, v1: Vec2, v2: Vec2) -> Winding {
    if v1.minus(v0).cross(v2.minus(v1)) > 0 {
        Winding::Right
    } else {
        Winding::Left
    }
}

/// The normal of the directed edge `edge` that points outward under `winding`.
pub open spec fn outward(edge: Vec2, winding: Winding) -> Vec2 {
    match winding {
        Winding::Right => Vec2 { x: edge.y, y: -edge.x },
        Winding::Left => Vec2 { x: -edge.y, y: edge.x },
    }
}

impl View for Simplex {
    type V = Seq<Vec2>;

    /// The points in stored order.
    open spec fn view(&self) -> Seq<Vec2> {
        match *self {
            Simplex::Point(v0) => seq![v0@],
            Simplex::Line(v0, v1) => seq![v0@, v1@],
            Simplex::Triangle(v0, v1, v2) => seq![v0@, v1@, v2@],
        }
    }
}

impl Simplex {
    /// Every point has components of magnitude at most `bound`.
    pub open spec fn within(&self, bound: int) -> bool {
        forall|i: int| 0 <= i < self@.len() ==> (#[trigger] self@[i]).within(bound)
    }

    /// The handedness of a triangle.
    pub fn winding(&self) -> (w: Winding)
        requires
            self is Triangle,
            self.within(0x2000_0000_0000_0000),
        ensures
            w == winding_of(self@[0], self@[1], self@[2]),
    {
        match self {
            Simplex::Triangle(v0, v1, v2) => {
                assert(self@[0] == v0@ && self@[1] == v1@ && self@[2] == v2@);
                let d: i128 = det(*v0, *v1, *v2);
                proof {
                    lemma_turn_is_negated_det(v0@, v1@, v2@);
                }
                if d < 0 {
                    Winding::Right
                } else {
                    Winding::Left
                }
            },
            _ => Winding::Left,
        }
    }

    /// Appends a point: a point becomes a segment, a segment a triangle.
    pub fn add(&mut self, p: Vector)
        requires
            !(*old(self) is Triangle),
        ensures
            final(self)@ == old(self)@.push(p@),
            *old(self) is Point ==> *final(self) is Line,
            *old(self) is Line ==> *final(self) is Triangle,
    {
        let next = match *self {
            Simplex::Point(v0) => Simplex::Line(v0, p),
            Simplex::Line(v0, v1) => Simplex::Triangle(v0, v1, p),
            Simplex::Triangle(v0, v1, v2) => Simplex::Triangle(v0, v1, v2),
        };
        assert(next@ =~= self@.push(p@));
        *self = next;
    }

    /// The point that was added last.
    pub fn last(&self) -> (p: &Vector)
        ensures
            p@ == self@.last(),
    {
        match self {
            Simplex::Point(p) => p,
            Simplex::Line(_, p) => p,
            Simplex::Triangle(_, _, p) => p,
        }
    }

    /// The number of points.
    pub fn len(&self) -> (n: usize)
        ensures
            n == self@.len(),
            1 <= n <= 3,
    {
        match self {
            Simplex::Point(_) => 1,
            Simplex::Line(_, _) => 2,
            Simplex::Triangle(_, _, _) => 3,
        }
    }

    /// Starts a walk over the points in stored order.
    pub fn iter(&self) -> (it: SimplexIter<'_>)
        ensures
            it@ == self@,
    {
        let it = SimplexIter { simplex: self, cur: 0 };
        assert(it@ =~= self@);
        it
    }
}

/// A walk over the points of a simplex. Its view is the sequence of points
/// still to come.
pub struct SimplexIter<'a> {
    simplex: &'a Simplex,
    cur: u8,
}

impl<'a> View for SimplexIter<'a> {
    type V = Seq<Vec2>;

    closed spec fn view(&self) -> Seq<Vec2> {
        if self.cur as int <= self.simplex@.len() {
            self.simplex@.subrange(self.cur as int, self.simplex@.len() as int)
        } else {
            Seq::empty()
        }
    }
}

impl<'a> SimplexIter<'a> {
    /// Hands out the next point, or `None` once all have been handed out.
    pub fn next(&mut self) -> (r: Option<Vector>)
        ensures
            match r {
                Some(v) => old(self)@.len() > 0 && v@ == old(self)@[0] && final(self)@
                    == old(self)@.drop_first(),
                None => old(self)@.len() == 0 && final(self)@ == old(self)@,
            },
    {
        let ghost before = self@;
        let v = match self.simplex {
            Simplex::Triangle(v0, v1, v2) => {
                match self.cur {
                    0 => *v0,
                    1 => *v1,
                    2 => *v2,
                    _ => { return None; },
                }
            },
            Simplex::Line(v0, v1) => {
                match self.cur {
                    0 => *v0,
                    1 => *v1,
                    _ => { return None; },
                }
            },
            Simplex::Point(v0) => {
                match self.cur {
                    0 => *v0,
                    _ => { return None; },
                }
            },
        };
        self.cur += 1;
        assert(self@ =~= before.drop_first());
        Some(v)
    }
}

/// The turn of a triangle is the negated orientation of its third point
/// against the ray through the first two.
pub proof fn lemma_turn_is_negated_det(v0: Vec2, v1: Vec2, v2: Vec2)
    ensures
        v1.minus(v0).cross(v2.minus(v1)) == -det_spec(v0, v1, v2),
{
    let e0 = v1.minus(v0);
    let e1 = v2.minus(v1);
    assert(det_spec(v0, v1, v2) == v2.minus(v0).cross(e0));
    assert(v2.minus(v0) == e0.plus(e1));
    lemma_cross_linear(e0, e1, e0);
    lemma_cross_antisymmetric(e0, e0);
    lemma_cross_antisymmetric(e1, e0);
}

/// Under the winding of a triangle that is not flat, the outward normal of
/// each edge points away from the third vertex.
pub proof fn lemma_outward_leaves_triangle(v0: Vec2, v1: Vec2, v2: Vec2)
    requires
        v1.minus(v0).cross(v2.minus(v1)) != 0,
    ensures
        outward(v1.minus(v0), winding_of(v0, v1, v2)).dot(v2.minus(v0)) < 0,
        outward(v2.minus(v1), winding_of(v0, v1, v2)).dot(v0.minus(v1)) < 0,
        outward(v0.minus(v2), winding_of(v0, v1, v2)).dot(v1.minus(v2)) < 0,
{
    let e0 = v1.minus(v0);
    let e1 = v2.minus(v1);
    let e2 = v0.minus(v2);
    let k = e0.cross(e1);
    let w = winding_of(v0, v1, v2);
    // Every pair of edges that follow one another spans the same area.
    assert(e2 == e0.plus(e1).neg());
    lemma_cross_linear(e0, e1, e0);
    lemma_cross_linear(e0, e1, e1);
    lemma_cross_linear(e0.plus(e1), e0.plus(e1), e0);
    lemma_cross_linear(e0.plus(e1), e0.plus(e1), e1);
    lemma_cross_antisymmetric(e0, e0);
    lemma_cross_antisymmetric(e1, e1);
    lemma_cross_antisymmetric(e1, e0);
    assert(e1.cross(e2) == k && e2.cross(e0) == k);
    // The third vertex against each edge.
    assert(v2.minus(v0) == e2.neg() && v0.minus(v1) == e0.neg() && v1.minus(v2) == e1.neg());
    lemma_outward_side(e0, e2.neg(), w);
    lemma_outward_side(e1, e0.neg(), w);
    lemma_outward_side(e2, e1.neg(), w);
    lemma_cross_linear(e2, e2, e0);
    lemma_cross_linear(e0, e0, e1);
    lemma_cross_linear(e1, e1, e2);
    lemma_cross_antisymmetric(e2.neg(), e0);
    lemma_cross_antisymmetric(e0.neg(), e1);
    lemma_cross_antisymmetric(e1.neg(), e2);
}

/// The scalar product of the outward normal of an edge `e` with a vector
/// `f` is the cross product of `f` and `e` for the winding `Right`, and its
/// negative for `Left`.
proof fn lemma_outward_side(e: Vec2, f: Vec2, winding: Winding)
    ensures
        winding == Winding::Right ==> outward(e, winding).dot(f) == f.cross(e),
        winding == Winding::Left ==> outward(e, winding).dot(f) == -f.cross(e),
{
    lemma_mul_dist(e.x, 0, f.y);
    lemma_mul_dist(e.y, 0, f.x);
    lemma_mul_commutes(e.y, f.x);
    lemma_mul_commutes(e.x, f.y);
}

} // verus!
