//! Convex shapes, each known to the solvers only through its support
//! mapping, and the support mapping of the Minkowski difference of two
//! placed shapes.

use crate::algebra::{lemma_dot_linear, lemma_dot_scale, lemma_dot_symmetric};
use crate::numeric::ROOT_SHIFT;
use crate::rounding::{lemma_resized_consistent, lemma_resized_follows, lemma_resized_length};
use crate::vector::{
    Perp, Point, Vec2, Vector, Whole, DIRECTION_LIMIT, POINT_LIMIT, SUPPORT_LIMIT,
};
use vstd::arithmetic::div_mod::{lemma_div_is_ordered, lemma_fundamental_div_mod, lemma_mod_bound};
use vstd::prelude::*;

verus! {

/// A convex shape in its own coordinates.
///
/// The solvers ask a shape two questions: for some point of it, and for the
/// point that lies farthest along a direction. What the answers are is
/// stated by the ghost functions `start_point` and `support_point`; the two
/// laws say what the solvers rely on. Code that is not verified implements
/// the ghost items with bodies that are never run.
pub trait Shape {
    /// The shape's data are valid and small enough for the arithmetic.
    spec fn wf(&self) -> bool;

    /// Some point of the shape.
    spec fn start_point(&self) -> Vec2;

    /// The support mapping: the point of the shape that lies farthest along `dir`.
    spec fn support_point(&self, dir: Vec2) -> Vec2;

    /// How far the support mapping may fall short of the farthest point of
    /// the shape, for each unit of the components of the direction asked
    /// about: zero where the mapping is exact.
    spec fn slack(&self) -> i64;

    fn start(&self) -> (p: Vector)
        requires
            self.wf(),
        ensures
            p@ == self.start_point(),
            p@.within(POINT_LIMIT as int),
    ;

    fn farthest_in_dir(&self, dir: Vector) -> (p: Vector)
        requires
            self.wf(),
            dir@.within(DIRECTION_LIMIT as int),
        ensures
            p@ == self.support_point(dir@),
            p@.within(POINT_LIMIT as int),
    ;

    /// Along no direction does the start point lie beyond the support point.
    proof fn lemma_start_inside(&self, dir: Vec2)
        requires
            self.wf(),
        ensures
            self.start_point().dot(dir) <= self.support_point(dir).dot(dir),
    ;

    /// The values of the support mapping are points of one convex set, and
    /// each is farthest in that set, up to the slack: along `d`, no value
    /// lies beyond the value for `d` by more than the slack allows.
    proof fn lemma_support_consistent(&self, d: Vec2, e: Vec2)
        requires
            self.wf(),
        ensures
            self.slack() >= 0,
            self.support_point(e).dot(d) <= self.support_point(d).dot(d) + self.slack() * d.norm1(),
    ;

    /// An exact support mapping does not depend on the length of the
    /// direction asked about.
    proof fn lemma_support_scales(&self, d: Vec2, k: Whole)
        requires
            self.wf(),
            k >= 1,
        ensures
            self.slack() == 0 ==> self.support_point(d.scale(k)) == self.support_point(d),
    ;
}

/// The support mapping of `shape` is exact: each of its values is the
/// farthest point, along the direction asked about, of the convex set that
/// all its values span.
pub open spec fn is_exact<S: Shape>(shape: &S) -> bool {
    shape.slack() == 0
}

/// The support mapping of the Minkowski difference of `a` placed at `a_pos`
/// and `b` placed at `b_pos`.
pub open spec fn support_spec<S1: Shape, S2: Shape>(
    a: &S1,
    a_pos: Vec2,
    b: &S2,
    b_pos: Vec2,
    dir: Vec2,
) -> Vec2 {
    a_pos.plus(a.support_point(dir)).minus(b_pos.plus(b.support_point(dir.neg())))
}

/// The point of the Minkowski difference of two placed shapes that lies
/// farthest along `dir`.
pub fn support<S1: Shape, S2: Shape>(a: (&S1, Point), b: (&S2, Point), dir: Vector) -> (p: Vector)
    requires
        a.0.wf(),
        b.0.wf(),
        a.1@.within(POINT_LIMIT as int),
        b.1@.within(POINT_LIMIT as int),
        dir@.within(DIRECTION_LIMIT as int),
    ensures
        p@ == support_spec(a.0, a.1@, b.0, b.1@, dir@),
        p@.within(SUPPORT_LIMIT as int),
{
    let ahead = a.1.plus(a.0.farthest_in_dir(dir));
    let behind = b.1.plus(b.0.farthest_in_dir(dir.neg()));
    ahead.minus(behind)
}

impl Shape for Vector {
    open spec fn wf(&self) -> bool {
        self@.within(POINT_LIMIT as int)
    }

    open spec fn start_point(&self) -> Vec2 {
        self@
    }

    open spec fn support_point(&self, dir: Vec2) -> Vec2 {
        self@
    }

    open spec fn slack(&self) -> i64 {
        0
    }

    fn start(&self) -> (p: Vector) {
        *self
    }

    fn farthest_in_dir(&self, dir: Vector) -> (p: Vector) {
        *self
    }

    proof fn lemma_start_inside(&self, dir: Vec2) {
    }

    proof fn lemma_support_consistent(&self, d: Vec2, e: Vec2) {
    }

    proof fn lemma_support_scales(&self, d: Vec2, k: Whole) {
    }
}

impl<T: Shape> Shape for Box<T> {
    open spec fn wf(&self) -> bool {
        (**self).wf()
    }

    open spec fn start_point(&self) -> Vec2 {
        (**self).start_point()
    }

    open spec fn support_point(&self, dir: Vec2) -> Vec2 {
        (**self).support_point(dir)
    }

    open spec fn slack(&self) -> i64 {
        (**self).slack()
    }

    fn start(&self) -> (p: Vector) {
        (**self).start()
    }

    fn farthest_in_dir(&self, dir: Vector) -> (p: Vector) {
        (**self).farthest_in_dir(dir)
    }

    proof fn lemma_start_inside(&self, dir: Vec2) {
        (**self).lemma_start_inside(dir);
    }

    proof fn lemma_support_consistent(&self, d: Vec2, e: Vec2) {
        (**self).lemma_support_consistent(d, e);
    }

    proof fn lemma_support_scales(&self, d: Vec2, k: Whole) {
        (**self).lemma_support_scales(d, k);
    }
}

impl<T: Shape> Shape for &'static T {
    open spec fn wf(&self) -> bool {
        (**self).wf()
    }

    open spec fn start_point(&self) -> Vec2 {
        (**self).start_point()
    }

    open spec fn support_point(&self, dir: Vec2) -> Vec2 {
        (**self).support_point(dir)
    }

    open spec fn slack(&self) -> i64 {
        (**self).slack()
    }

    fn start(&self) -> (p: Vector) {
        (**self).start()
    }

    fn farthest_in_dir(&self, dir: Vector) -> (p: Vector) {
        (**self).farthest_in_dir(dir)
    }

    proof fn lemma_start_inside(&self, dir: Vec2) {
        (**self).lemma_start_inside(dir);
    }

    proof fn lemma_support_consistent(&self, d: Vec2, e: Vec2) {
        (**self).lemma_support_consistent(d, e);
    }

    proof fn lemma_support_scales(&self, d: Vec2, k: Whole) {
        (**self).lemma_support_scales(d, k);
    }
}

/// A disc.
#[derive(Clone, Copy, Debug)]
pub struct Circle {
    pub center: Point,
    pub radius: i64,
}

impl Circle {
    pub fn new(center: Point, radius: i64) -> (c: Circle)
        ensures
            c.center == center,
            c.radius == radius,
    {
        Circle { center, radius }
    }

    /// Tells whether the disc is valid: its radius is not negative and it
    /// lies within the range of points.
    pub fn is_valid(&self) -> (b: bool)
        ensures
            b == self.wf(),
    {
        0 <= self.radius && self.radius <= POINT_LIMIT && -POINT_LIMIT <= self.center.x
            && self.center.x <= POINT_LIMIT && -POINT_LIMIT <= self.center.y && self.center.y
            <= POINT_LIMIT && -POINT_LIMIT <= self.center.x - self.radius && self.center.x
            + self.radius <= POINT_LIMIT && -POINT_LIMIT <= self.center.y - self.radius
            && self.center.y + self.radius <= POINT_LIMIT
    }
}

impl Shape for Circle {
    open spec fn wf(&self) -> bool {
        &&& 0 <= self.radius
        &&& -POINT_LIMIT <= self.center.x - self.radius
        &&& self.center.x + self.radius <= POINT_LIMIT
        &&& -POINT_LIMIT <= self.center.y - self.radius
        &&& self.center.y + self.radius <= POINT_LIMIT
    }

    open spec fn start_point(&self) -> Vec2 {
        self.center@
    }

    /// The centre moved by the radius in the direction asked about; for the
    /// zero direction the centre itself.
    open spec fn support_point(&self, dir: Vec2) -> Vec2 {
        self.center@.plus(dir.resized(self.radius as int))
    }

    /// One, and one more for each [`ROOT_SHIFT`] units of the radius: what
    /// the rounding of the support point can cost.
    open spec fn slack(&self) -> i64 {
        ((self.radius as int) / (ROOT_SHIFT as int) + 1) as i64
    }

    fn start(&self) -> (p: Vector) {
        self.center
    }

    fn farthest_in_dir(&self, dir: Vector) -> (p: Vector) {
        self.center.plus(dir.with_length(self.radius))
    }

    proof fn lemma_start_inside(&self, dir: Vec2) {
        lemma_resized_follows(dir, self.radius as int);
        lemma_dot_linear(self.center@, dir.resized(self.radius as int), dir);
    }

    proof fn lemma_support_consistent(&self, d: Vec2, e: Vec2) {
        let r = self.radius as int;
        let k = self.slack() as int;
        lemma_fundamental_div_mod(r, ROOT_SHIFT as int);
        lemma_mod_bound(r, ROOT_SHIFT as int);
        lemma_div_is_ordered(0, r, ROOT_SHIFT as int);
        assert(k * ROOT_SHIFT >= r) by (nonlinear_arith)
            requires
                r == ROOT_SHIFT * (r / (ROOT_SHIFT as int)) + r % (ROOT_SHIFT as int),
                r % (ROOT_SHIFT as int) < ROOT_SHIFT,
                k == r / (ROOT_SHIFT as int) + 1,
        ;
        lemma_resized_consistent(d, e, r, k);
        lemma_dot_linear(self.center@, e.resized(r), d);
        lemma_dot_linear(self.center@, d.resized(r), d);
    }

    proof fn lemma_support_scales(&self, d: Vec2, k: Whole) {
        // The slack of a disc is not zero.
        lemma_div_is_ordered(0, self.radius as int, ROOT_SHIFT as int);
        lemma_div_is_ordered(self.radius as int, POINT_LIMIT as int, ROOT_SHIFT as int);
        assert(0int / (ROOT_SHIFT as int) == 0 && (POINT_LIMIT as int) / (ROOT_SHIFT as int) == 8)
            by (nonlinear_arith);
    }
}

/// The support point of a disc lies no farther from the centre than the radius.
pub proof fn lemma_circle_support_in_disc(shape: &Circle, dir: Vec2)
    ensures
        shape.support_point(dir).minus(shape.center@).norm_sq() <= shape.radius * shape.radius,
{
    lemma_resized_length(dir, shape.radius as int);
    assert(shape.support_point(dir).minus(shape.center@) == dir.resized(shape.radius as int));
}

/// A rectangle whose sides are parallel to the axes, given by its corner of
/// least coordinates and its corner of greatest coordinates.
#[derive(Clone, Copy, Debug)]
pub struct Aabb {
    pub from: Point,
    pub to: Point,
}

impl Aabb {
    pub fn new(from: Point, to: Point) -> (r: Aabb)
        ensures
            r.from == from,
            r.to == to,
    {
        Aabb { from, to }
    }

    /// Tells whether the rectangle is valid: `from` is nowhere greater than
    /// `to`, and both lie within the range of points.
    pub fn is_valid(&self) -> (b: bool)
        ensures
            b == self.wf(),
    {
        self.from.is_within(POINT_LIMIT) && self.to.is_within(POINT_LIMIT) && self.from.x
            <= self.to.x && self.from.y <= self.to.y
    }
}

impl Shape for Aabb {
    open spec fn wf(&self) -> bool {
        &&& self.from@.within(POINT_LIMIT as int)
        &&& self.to@.within(POINT_LIMIT as int)
        &&& self.from.x <= self.to.x
        &&& self.from.y <= self.to.y
    }

    /// The centre, each coordinate rounded toward `from`.
    open spec fn start_point(&self) -> Vec2 {
        Vec2 {
            x: self.from.x + (self.to.x - self.from.x) / 2,
            y: self.from.y + (self.to.y - self.from.y) / 2,
        }
    }

    /// The corner that takes, on each axis, the coordinate of `to` where the
    /// direction is positive and that of `from` where it is not.
    open spec fn support_point(&self, dir: Vec2) -> Vec2 {
        Vec2 {
            x: if dir.x > 0 { self.to.x as int } else { self.from.x as int },
            y: if dir.y > 0 { self.to.y as int } else { self.from.y as int },
        }
    }

    open spec fn slack(&self) -> i64 {
        0
    }

    fn start(&self) -> (p: Vector) {
        Vector {
            x: self.from.x + (self.to.x - self.from.x) / 2,
            y: self.from.y + (self.to.y - self.from.y) / 2,
        }
    }

    fn farthest_in_dir(&self, dir: Vector) -> (p: Vector) {
        Vector {
            x: if dir.x > 0 { self.to.x } else { self.from.x },
            y: if dir.y > 0 { self.to.y } else { self.from.y },
        }
    }

    proof fn lemma_start_inside(&self, dir: Vec2) {
        let s = self.start_point();
        let p = self.support_point(dir);
        assert(s.x * dir.x <= p.x * dir.x) by (nonlinear_arith)
            requires
                self.from.x <= s.x <= self.to.x,
                p.x == if dir.x > 0 { self.to.x as int } else { self.from.x as int },
        ;
        assert(s.y * dir.y <= p.y * dir.y) by (nonlinear_arith)
            requires
                self.from.y <= s.y <= self.to.y,
                p.y == if dir.y > 0 { self.to.y as int } else { self.from.y as int },
        ;
    }

    proof fn lemma_support_consistent(&self, d: Vec2, e: Vec2) {
        let q = self.support_point(e);
        let p = self.support_point(d);
        assert(q.x * d.x <= p.x * d.x) by (nonlinear_arith)
            requires
                self.from.x <= q.x <= self.to.x,
                p.x == if d.x > 0 { self.to.x as int } else { self.from.x as int },
        ;
        assert(q.y * d.y <= p.y * d.y) by (nonlinear_arith)
            requires
                self.from.y <= q.y <= self.to.y,
                p.y == if d.y > 0 { self.to.y as int } else { self.from.y as int },
        ;
    }

    proof fn lemma_support_scales(&self, d: Vec2, k: Whole) {
        assert((k * d.x > 0) == (d.x > 0) && (k * d.y > 0) == (d.y > 0)) by (nonlinear_arith)
            requires
                k >= 1,
        ;
    }
}

/// A convex polygon, given by its corners in the order in which they follow
/// one another along the boundary. The support mapping looks at every
/// corner, so that it is that of the convex hull of the corners in whatever
/// order they come.
#[derive(Clone, Debug)]
pub struct ConvexPolygon {
    pub points: Vec<Point>,
}

impl View for ConvexPolygon {
    type V = Seq<Vec2>;

    /// The corners in stored order.
    open spec fn view(&self) -> Seq<Vec2> {
        Seq::new(self.points@.len(), |i: int| self.points@[i]@)
    }
}

/// `i` is the first index at which the corners reach their greatest scalar
/// product with `dir`.
pub open spec fn is_first_farthest(corners: Seq<Vec2>, dir: Vec2, i: int) -> bool {
    &&& 0 <= i < corners.len()
    &&& forall|j: int| 0 <= j < corners.len() ==> (#[trigger] corners[j]).dot(dir) <= corners[i].dot(dir)
    &&& forall|j: int| 0 <= j < i ==> (#[trigger] corners[j]).dot(dir) < corners[i].dot(dir)
}

/// The first index at which the corners reach their greatest scalar product
/// with `dir`.
pub open spec fn first_farthest(corners: Seq<Vec2>, dir: Vec2) -> int {
    choose|i: int| is_first_farthest(corners, dir, i)
}

/// Only one index is the first farthest.
pub proof fn lemma_first_farthest_unique(corners: Seq<Vec2>, dir: Vec2, i: int)
    requires
        is_first_farthest(corners, dir, i),
    ensures
        first_farthest(corners, dir) == i,
{
    let c = first_farthest(corners, dir);
    assert(is_first_farthest(corners, dir, c));
    if c < i {
        assert(corners[c].dot(dir) < corners[i].dot(dir));
        assert(corners[i].dot(dir) <= corners[c].dot(dir));
    }
    if i < c {
        assert(corners[i].dot(dir) < corners[c].dot(dir));
        assert(corners[c].dot(dir) <= corners[i].dot(dir));
    }
}

/// Among corners of which there is at least one, some index is the first
/// farthest along any direction.
pub proof fn lemma_first_farthest_exists(corners: Seq<Vec2>, dir: Vec2)
    requires
        corners.len() > 0,
    ensures
        is_first_farthest(corners, dir, first_farthest(corners, dir)),
    decreases corners.len(),
{
    if corners.len() == 1 {
        assert(is_first_farthest(corners, dir, 0));
    } else {
        let front = corners.drop_last();
        lemma_first_farthest_exists(front, dir);
        let k = first_farthest(front, dir);
        let n = corners.len() - 1;
        assert(forall|j: int| 0 <= j < n ==> front[j] == corners[j]);
        if corners[n].dot(dir) > corners[k].dot(dir) {
            assert forall|j: int| 0 <= j < corners.len() implies (#[trigger] corners[j]).dot(dir)
                <= corners[n].dot(dir) by {
                if j < n {
                    assert(front[j].dot(dir) <= front[k].dot(dir));
                }
            }
            assert forall|j: int| 0 <= j < n implies (#[trigger] corners[j]).dot(dir) < corners[n].dot(
                dir,
            ) by {
                assert(front[j].dot(dir) <= front[k].dot(dir));
            }
            assert(is_first_farthest(corners, dir, n));
        } else {
            assert forall|j: int| 0 <= j < corners.len() implies (#[trigger] corners[j]).dot(dir)
                <= corners[k].dot(dir) by {
                if j < n {
                    assert(front[j].dot(dir) <= front[k].dot(dir));
                }
            }
            assert forall|j: int| 0 <= j < k implies (#[trigger] corners[j]).dot(dir) < corners[k].dot(
                dir,
            ) by {
                assert(front[j].dot(dir) < front[k].dot(dir));
            }
            assert(is_first_farthest(corners, dir, k));
        }
    }
}

impl ConvexPolygon {
    pub fn new(points: Vec<Point>) -> (r: ConvexPolygon)
        ensures
            r.points == points,
    {
        ConvexPolygon { points }
    }

    /// The four corners of the rectangle that has the segment from `from`
    /// to `to` as one side and extends by `thickness` to the left of it
    /// (to the right, where `thickness` is negative).
    pub open spec fn rectangle_corners(from: Vec2, to: Vec2, thickness: int) -> Seq<Vec2> {
        let side = to.minus(from).perp().resized(thickness);
        seq![from, to, to.plus(side), from.plus(side)]
    }

    /// A rectangle with one side from `from` to `to`, of the given thickness.
    pub fn new_rectangle(from: Point, to: Point, thickness: i64) -> (r: ConvexPolygon)
        requires
            from@.within(POINT_LIMIT as int),
            to@.within(POINT_LIMIT as int),
            -POINT_LIMIT <= thickness <= POINT_LIMIT,
        ensures
            r@ == Self::rectangle_corners(from@, to@, thickness as int),
    {
        let side = to.minus(from).perpendicular().with_length(thickness);
        let fp = from.plus(side);
        let tp = to.plus(side);
        let mut points: Vec<Point> = Vec::new();
        points.push(from);
        points.push(to);
        points.push(tp);
        points.push(fp);
        let r = ConvexPolygon::new(points);
        assert(r@ =~= Self::rectangle_corners(from@, to@, thickness as int));
        r
    }

    /// The segment from `from` to `to`.
    pub fn new_line_segment(from: Point, to: Point) -> (r: ConvexPolygon)
        ensures
            r@ == seq![from@, to@],
    {
        let mut points: Vec<Point> = Vec::new();
        points.push(from);
        points.push(to);
        let r = ConvexPolygon::new(points);
        assert(r@ =~= seq![from@, to@]);
        r
    }

    /// Tells whether the polygon is valid: it has a corner, and all its
    /// corners lie within the range of points.
    pub fn is_valid(&self) -> (b: bool)
        ensures
            b == self.wf(),
    {
        if self.points.len() == 0 {
            return false;
        }
        let mut i: usize = 0;
        while i < self.points.len()
            invariant
                i <= self.points.len(),
                forall|j: int| 0 <= j < i ==> (#[trigger] self@[j]).within(POINT_LIMIT as int),
            decreases self.points.len() - i,
        {
            if !self.points[i].is_within(POINT_LIMIT) {
                assert(!self@[i as int].within(POINT_LIMIT as int));
                return false;
            }
            i += 1;
        }
        true
    }

    /// The scalar product of the corner at `index` with `dir`.
    fn dot(&self, index: usize, dir: Vector) -> (r: i128)
        requires
            self.wf(),
            index < self.points.len(),
            dir@.within(DIRECTION_LIMIT as int),
        ensures
            r == self@[index as int].dot(dir@),
    {
        assert(self@[index as int].within(POINT_LIMIT as int));
        self.points[index].dot(dir)
    }
}

impl Shape for ConvexPolygon {
    open spec fn wf(&self) -> bool {
        &&& self@.len() > 0
        &&& forall|i: int| 0 <= i < self@.len() ==> (#[trigger] self@[i]).within(POINT_LIMIT as int)
    }

    open spec fn start_point(&self) -> Vec2 {
        self@[0]
    }

    /// The first of the corners that lie farthest along `dir`.
    open spec fn support_point(&self, dir: Vec2) -> Vec2 {
        self@[first_farthest(self@, dir)]
    }

    open spec fn slack(&self) -> i64 {
        0
    }

    fn start(&self) -> (p: Vector) {
        assert(self@[0].within(POINT_LIMIT as int));
        self.points[0]
    }

    fn farthest_in_dir(&self, dir: Vector) -> (p: Vector) {
        let mut index: usize = 0;
        let mut cur: i128 = self.dot(0, dir);
        let mut i: usize = 1;
        while i < self.points.len()
            invariant
                self.wf(),
                dir@.within(DIRECTION_LIMIT as int),
                1 <= i <= self.points.len(),
                index < i,
                cur == self@[index as int].dot(dir@),
                forall|j: int| 0 <= j < i ==> (#[trigger] self@[j]).dot(dir@) <= cur,
                forall|j: int| 0 <= j < index ==> (#[trigger] self@[j]).dot(dir@) < cur,
            decreases self.points.len() - i,
        {
            let next: i128 = self.dot(i, dir);
            if next > cur {
                index = i;
                cur = next;
            }
            i += 1;
        }
        proof {
            lemma_first_farthest_unique(self@, dir@, index as int);
            assert(self@[index as int].within(POINT_LIMIT as int));
        }
        self.points[index]
    }

    proof fn lemma_start_inside(&self, dir: Vec2) {
        lemma_first_farthest_exists(self@, dir);
    }

    proof fn lemma_support_consistent(&self, d: Vec2, e: Vec2) {
        lemma_first_farthest_exists(self@, d);
        lemma_first_farthest_exists(self@, e);
    }

    proof fn lemma_support_scales(&self, d: Vec2, k: Whole) {
        lemma_first_farthest_exists(self@, d);
        let i = first_farthest(self@, d);
        let scaled = d.scale(k);
        assert forall|j: int| 0 <= j < self@.len() implies (#[trigger] self@[j]).dot(scaled) == k
            * self@[j].dot(d) by {
            lemma_dot_scale(d, k, self@[j]);
            lemma_dot_symmetric(d, self@[j]);
        }
        assert forall|j: int| 0 <= j < self@.len() implies (#[trigger] self@[j]).dot(scaled)
            <= self@[i].dot(scaled) by {
            lemma_scaled_order(k, self@[j].dot(d), self@[i].dot(d));
        }
        assert forall|j: int| 0 <= j < i implies (#[trigger] self@[j]).dot(scaled) < self@[i].dot(
            scaled,
        ) by {
            lemma_scaled_order(k, self@[j].dot(d), self@[i].dot(d));
        }
        lemma_first_farthest_unique(self@, scaled, i);
    }
}

/// Scaling by a positive number keeps the order of two numbers.
proof fn lemma_scaled_order(k: int, x: int, y: int)
    by (nonlinear_arith)
    requires
        k >= 1,
    ensures
        x <= y ==> k * x <= k * y,
        x < y ==> k * x < k * y,
{
}

/// Any shape of the catalogue, so that shapes of different kinds can share
/// one collection.
#[derive(Clone, Debug)]
pub enum AnyShape {
    Point(Vector),
    Circle(Circle),
    Aabb(Aabb),
    Polygon(ConvexPolygon),
}

impl Shape for AnyShape {
    open spec fn wf(&self) -> bool {
        match self {
            AnyShape::Point(s) => s.wf(),
            AnyShape::Circle(s) => s.wf(),
            AnyShape::Aabb(s) => s.wf(),
            AnyShape::Polygon(s) => s.wf(),
        }
    }

    open spec fn start_point(&self) -> Vec2 {
        match self {
            AnyShape::Point(s) => s.start_point(),
            AnyShape::Circle(s) => s.start_point(),
            AnyShape::Aabb(s) => s.start_point(),
            AnyShape::Polygon(s) => s.start_point(),
        }
    }

    open spec fn support_point(&self, dir: Vec2) -> Vec2 {
        match self {
            AnyShape::Point(s) => s.support_point(dir),
            AnyShape::Circle(s) => s.support_point(dir),
            AnyShape::Aabb(s) => s.support_point(dir),
            AnyShape::Polygon(s) => s.support_point(dir),
        }
    }

    open spec fn slack(&self) -> i64 {
        match self {
            AnyShape::Point(s) => s.slack(),
            AnyShape::Circle(s) => s.slack(),
            AnyShape::Aabb(s) => s.slack(),
            AnyShape::Polygon(s) => s.slack(),
        }
    }

    fn start(&self) -> (p: Vector) {
        match self {
            AnyShape::Point(s) => s.start(),
            AnyShape::Circle(s) => s.start(),
            AnyShape::Aabb(s) => s.start(),
            AnyShape::Polygon(s) => s.start(),
        }
    }

    fn farthest_in_dir(&self, dir: Vector) -> (p: Vector) {
        match self {
            AnyShape::Point(s) => s.farthest_in_dir(dir),
            AnyShape::Circle(s) => s.farthest_in_dir(dir),
            AnyShape::Aabb(s) => s.farthest_in_dir(dir),
            AnyShape::Polygon(s) => s.farthest_in_dir(dir),
        }
    }

    proof fn lemma_start_inside(&self, dir: Vec2) {
        match self {
            AnyShape::Point(s) => s.lemma_start_inside(dir),
            AnyShape::Circle(s) => s.lemma_start_inside(dir),
            AnyShape::Aabb(s) => s.lemma_start_inside(dir),
            AnyShape::Polygon(s) => s.lemma_start_inside(dir),
        }
    }

    proof fn lemma_support_consistent(&self, d: Vec2, e: Vec2) {
        match self {
            AnyShape::Point(s) => s.lemma_support_consistent(d, e),
            AnyShape::Circle(s) => s.lemma_support_consistent(d, e),
            AnyShape::Aabb(s) => s.lemma_support_consistent(d, e),
            AnyShape::Polygon(s) => s.lemma_support_consistent(d, e),
        }
    }

    proof fn lemma_support_scales(&self, d: Vec2, k: Whole) {
        match self {
            AnyShape::Point(s) => s.lemma_support_scales(d, k),
            AnyShape::Circle(s) => s.lemma_support_scales(d, k),
            AnyShape::Aabb(s) => s.lemma_support_scales(d, k),
            AnyShape::Polygon(s) => s.lemma_support_scales(d, k),
        }
    }
}

} // verus!
