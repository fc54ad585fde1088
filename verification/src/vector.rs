//! Plane vectors with fixed-point components, and their mathematical model.
//!
//! A [`Vector`] stores each component as a whole number of millionths
//! ([`ONE`] stands for 1.0). Contracts speak of its view, a [`Vec2`] over
//! unbounded integers, so that no statement depends on machine ranges.

use crate::algebra::lemma_product_bound;
use crate::numeric::{
    ceil_sqrt, ceil_sqrt_u128, lemma_ceil_sqrt_lower, lemma_trunc_div_bound, trunc_div,
    trunc_div_i128, ROOT_SHIFT, ROOT_SHIFT_SQ,
};
use crate::rounding::{lemma_abs_square, lemma_scaled_component};
use vstd::prelude::*;

verus! {

/// The fixed-point representation of 1.0.
pub const ONE: i64 = 1_000_000;

/// Largest magnitude of a component of a shape's own points and of a position.
pub const POINT_LIMIT: i64 = 0x8000_0000;

/// Largest magnitude of a component of a point of a Minkowski difference.
pub const SUPPORT_LIMIT: i64 = 0x2_0000_0000;

/// Largest magnitude of a component of a search direction.
pub const DIRECTION_LIMIT: i64 = 0x4_0000_0000;

/// A whole number without bound, as ghost code counts.
pub type Whole = int;

/// A vector of the plane with unbounded integer components.
pub struct Vec2 {
    pub x: int,
    pub y: int,
}

impl Vec2 {
    pub open spec fn zero() -> Vec2 {
        Vec2 { x: 0, y: 0 }
    }

    pub open spec fn plus(self, o: Vec2) -> Vec2 {
        Vec2 { x: self.x + o.x, y: self.y + o.y }
    }

    pub open spec fn minus(self, o: Vec2) -> Vec2 {
        Vec2 { x: self.x - o.x, y: self.y - o.y }
    }

    pub open spec fn neg(self) -> Vec2 {
        Vec2 { x: -self.x, y: -self.y }
    }

    pub open spec fn scale(self, k: int) -> Vec2 {
        Vec2 { x: k * self.x, y: k * self.y }
    }

    /// The scalar product.
    pub open spec fn dot(self, o: Vec2) -> int {
        self.x * o.x + self.y * o.y
    }

    /// The signed area of the parallelogram spanned by `self` and `o`:
    /// positive when `o` lies counter-clockwise of `self`.
    pub open spec fn cross(self, o: Vec2) -> int {
        self.x * o.y - self.y * o.x
    }

    /// `self` turned a quarter counter-clockwise.
    pub open spec fn perp(self) -> Vec2 {
        Vec2 { x: -self.y, y: self.x }
    }

    /// The squared Euclidean length.
    pub open spec fn norm_sq(self) -> int {
        self.x * self.x + self.y * self.y
    }

    /// The sum of the magnitudes of the components.
    pub open spec fn norm1(self) -> int {
        (if self.x >= 0 {
            self.x
        } else {
            -self.x
        }) + (if self.y >= 0 {
            self.y
        } else {
            -self.y
        })
    }

    /// Both components have magnitude at most `bound`.
    pub open spec fn within(self, bound: int) -> bool {
        -bound <= self.x <= bound && -bound <= self.y <= bound
    }

    /// The Euclidean length times [`ROOT_SHIFT`], rounded up.
    pub open spec fn scaled_norm(self) -> int {
        ceil_sqrt(self.norm_sq() * ROOT_SHIFT_SQ)
    }

    /// The vector in the direction of `self` whose length is `len`, each
    /// component rounded toward zero; the zero vector has no direction and
    /// stays as it is.
    pub open spec fn resized(self, len: int) -> Vec2 {
        if self == Vec2::zero() {
            Vec2::zero()
        } else {
            Vec2 {
                x: trunc_div(self.x * len * ROOT_SHIFT, self.scaled_norm()),
                y: trunc_div(self.y * len * ROOT_SHIFT, self.scaled_norm()),
            }
        }
    }

    /// The signed length of the projection of `p` on the direction of a
    /// non-zero `self`, rounded toward zero.
    pub open spec fn projection(self, p: Vec2) -> int {
        trunc_div(self.dot(p) * ROOT_SHIFT, self.scaled_norm())
    }
}

/// A vector of the plane in fixed-point representation.
#[derive(Clone, Copy, Debug, PartialEq, Eq, Structural)]
pub struct Vector {
    pub x: i64,
    pub y: i64,
}

/// A vector read as a position.
pub type Point = Vector;

impl View for Vector {
    type V = Vec2;

    open spec fn view(&self) -> Vec2 {
        Vec2 { x: self.x as int, y: self.y as int }
    }
}

/// A vector of the plane whose components have room for a product of three
/// coordinates.
#[derive(Clone, Copy, Debug, PartialEq, Eq, Structural)]
pub struct WideVector {
    pub x: i128,
    pub y: i128,
}

impl View for WideVector {
    type V = Vec2;

    open spec fn view(&self) -> Vec2 {
        Vec2 { x: self.x as int, y: self.y as int }
    }
}

impl WideVector {
    pub fn new(x: i128, y: i128) -> (r: WideVector)
        ensures
            r.x == x,
            r.y == y,
    {
        WideVector { x, y }
    }

    pub fn zero() -> (r: WideVector)
        ensures
            r@ == Vec2::zero(),
    {
        WideVector { x: 0, y: 0 }
    }

    pub fn is_zero(&self) -> (b: bool)
        ensures
            b == (self@ == Vec2::zero()),
    {
        self.x == 0 && self.y == 0
    }
}

/// The quarter turn that maps a direction to one of its normals.
pub trait Perp: Sized {
    /// The value can be turned without leaving the machine range.
    spec fn can_turn(&self) -> bool;

    /// The turned value.
    spec fn turned(&self) -> Self;

    fn perpendicular(&self) -> (r: Self)
        requires
            self.can_turn(),
        ensures
            r == self.turned(),
    ;
}

impl Perp for Vector {
    open spec fn can_turn(&self) -> bool {
        self.y > i64::MIN
    }

    open spec fn turned(&self) -> Vector {
        Vector { x: (-self.y) as i64, y: self.x }
    }

    /// A quarter turn counter-clockwise: `(x, y)` becomes `(-y, x)`.
    fn perpendicular(&self) -> (r: Vector)
        ensures
            r@ == self@.perp(),
    {
        Vector { x: -self.y, y: self.x }
    }
}

impl Vector {
    pub fn new(x: i64, y: i64) -> (r: Vector)
        ensures
            r.x == x,
            r.y == y,
    {
        Vector { x, y }
    }

    pub fn zero() -> (r: Vector)
        ensures
            r@ == Vec2::zero(),
    {
        Vector { x: 0, y: 0 }
    }

    pub fn is_zero(&self) -> (b: bool)
        ensures
            b == (self@ == Vec2::zero()),
    {
        self.x == 0 && self.y == 0
    }

    /// Tells whether both components have magnitude at most `bound`.
    pub fn is_within(&self, bound: i64) -> (b: bool)
        requires
            bound > i64::MIN,
        ensures
            b == self@.within(bound as int),
    {
        -bound <= self.x && self.x <= bound && -bound <= self.y && self.y <= bound
    }

    pub fn plus(self, o: Vector) -> (r: Vector)
        requires
            i64::MIN <= self.x + o.x <= i64::MAX,
            i64::MIN <= self.y + o.y <= i64::MAX,
        ensures
            r@ == self@.plus(o@),
    {
        Vector { x: self.x + o.x, y: self.y + o.y }
    }

    pub fn minus(self, o: Vector) -> (r: Vector)
        requires
            i64::MIN <= self.x - o.x <= i64::MAX,
            i64::MIN <= self.y - o.y <= i64::MAX,
        ensures
            r@ == self@.minus(o@),
    {
        Vector { x: self.x - o.x, y: self.y - o.y }
    }

    pub fn neg(self) -> (r: Vector)
        requires
            self.x > i64::MIN,
            self.y > i64::MIN,
        ensures
            r@ == self@.neg(),
    {
        Vector { x: -self.x, y: -self.y }
    }

    /// The scalar product, in squared fixed-point units.
    pub fn dot(self, o: Vector) -> (r: i128)
        requires
            self.x > i64::MIN,
            self.y > i64::MIN,
        ensures
            r == self@.dot(o@),
    {
        let ax: i128 = self.x as i128;
        let ay: i128 = self.y as i128;
        let bx: i128 = o.x as i128;
        let by: i128 = o.y as i128;
        proof {
            lemma_product_bound(ax as int, bx as int, 0x7fff_ffff_ffff_ffff, 0x8000_0000_0000_0000);
            lemma_product_bound(ay as int, by as int, 0x7fff_ffff_ffff_ffff, 0x8000_0000_0000_0000);
        }
        ax * bx + ay * by
    }

    /// The cross product, in squared fixed-point units.
    pub fn cross(self, o: Vector) -> (r: i128)
        requires
            self.x > i64::MIN,
            self.y > i64::MIN,
        ensures
            r == self@.cross(o@),
    {
        let ax: i128 = self.x as i128;
        let ay: i128 = self.y as i128;
        let bx: i128 = o.x as i128;
        let by: i128 = o.y as i128;
        proof {
            lemma_product_bound(ax as int, by as int, 0x7fff_ffff_ffff_ffff, 0x8000_0000_0000_0000);
            lemma_product_bound(ay as int, bx as int, 0x7fff_ffff_ffff_ffff, 0x8000_0000_0000_0000);
        }
        ax * by - ay * bx
    }
}

impl Vector {
    /// The Euclidean length times [`ROOT_SHIFT`], rounded up.
    fn scaled_norm(self) -> (s: i128)
        requires
            self@.within(DIRECTION_LIMIT as int),
        ensures
            s == self@.scaled_norm(),
            dominates(s as int, self@),
            s <= 0x8000_0000_0000_0000,
    {
        let x: i128 = if self.x >= 0 { self.x as i128 } else { -(self.x as i128) };
        let y: i128 = if self.y >= 0 { self.y as i128 } else { -(self.y as i128) };
        proof {
            lemma_product_bound(x as int, x as int, DIRECTION_LIMIT as int, DIRECTION_LIMIT as int);
            lemma_product_bound(y as int, y as int, DIRECTION_LIMIT as int, DIRECTION_LIMIT as int);
            lemma_abs_square(self.x as int, x as int);
            lemma_abs_square(self.y as int, y as int);
        }
        let n: i128 = x * x + y * y;
        assert(0 <= n * ROOT_SHIFT_SQ <= 0x4000_0000_0000_0000_0000_0000_0000_0000)
            by (nonlinear_arith)
            requires
                0 <= n <= 2 * (DIRECTION_LIMIT * DIRECTION_LIMIT),
        ;
        let wide: u128 = (n * ROOT_SHIFT_SQ) as u128;
        let s: u128 = ceil_sqrt_u128(wide);
        proof {
            lemma_scaled_component(x as int, y as int);
            lemma_ceil_sqrt_lower(wide as int, ROOT_SHIFT * x);
            lemma_ceil_sqrt_lower(wide as int, ROOT_SHIFT * y);
        }
        s as i128
    }

    /// The vector in the direction of `self` whose length is `len`; a
    /// negative `len` reverses the direction.
    pub fn with_length(self, len: i64) -> (r: Vector)
        requires
            self@.within(DIRECTION_LIMIT as int),
            -POINT_LIMIT <= len <= POINT_LIMIT,
        ensures
            r@ == self@.resized(len as int),
            len >= 0 ==> r@.within(len as int),
            len <= 0 ==> r@.within(-len as int),
    {
        if self.x == 0 && self.y == 0 {
            return Vector { x: 0, y: 0 };
        }
        let s: i128 = self.scaled_norm();
        let l: i128 = len as i128;
        let m: i128 = if len >= 0 { l } else { -l };
        proof {
            lemma_product_bound(self.x as int, l as int, DIRECTION_LIMIT as int, POINT_LIMIT as int);
            lemma_product_bound(self.y as int, l as int, DIRECTION_LIMIT as int, POINT_LIMIT as int);
            lemma_resize_bound(self.x as int, l as int, m as int, s as int);
            lemma_resize_bound(self.y as int, l as int, m as int, s as int);
            lemma_trunc_div_bound(self.x * l * ROOT_SHIFT, s as int, m as int);
            lemma_trunc_div_bound(self.y * l * ROOT_SHIFT, s as int, m as int);
        }
        let x: i128 = trunc_div_i128(self.x as i128 * l * ROOT_SHIFT, s);
        let y: i128 = trunc_div_i128(self.y as i128 * l * ROOT_SHIFT, s);
        Vector { x: x as i64, y: y as i64 }
    }

    /// The signed length of the projection of `p` on the direction of `self`.
    pub fn projection(self, p: Vector) -> (r: i64)
        requires
            self@.within(DIRECTION_LIMIT as int),
            self@ != Vec2::zero(),
            p@.within(SUPPORT_LIMIT as int),
        ensures
            r == self@.projection(p@),
            -2 * SUPPORT_LIMIT <= r <= 2 * SUPPORT_LIMIT,
    {
        let s: i128 = self.scaled_norm();
        let d: i128 = self.dot(p);
        proof {
            lemma_product_bound(self.x as int, p.x as int, DIRECTION_LIMIT as int, SUPPORT_LIMIT as int);
            lemma_product_bound(self.y as int, p.y as int, DIRECTION_LIMIT as int, SUPPORT_LIMIT as int);
            lemma_projection_bound(self@, p@, SUPPORT_LIMIT as int, s as int);
            lemma_trunc_div_bound(d * ROOT_SHIFT, s as int, 2 * SUPPORT_LIMIT);
        }
        let r: i128 = trunc_div_i128(d * ROOT_SHIFT, s);
        r as i64
    }
}

/// `s` is at least [`ROOT_SHIFT`] times the magnitude of each component of `v`.
pub open spec fn dominates(s: int, v: Vec2) -> bool {
    &&& s >= ROOT_SHIFT * v.x
    &&& s >= ROOT_SHIFT * -v.x
    &&& s >= ROOT_SHIFT * v.y
    &&& s >= ROOT_SHIFT * -v.y
}

/// A component times a length, scaled, is bounded by the length times the
/// scaled length of the vector.
proof fn lemma_resize_bound(c: int, l: int, m: int, s: int)
    by (nonlinear_arith)
    requires
        s >= ROOT_SHIFT * c,
        s >= ROOT_SHIFT * -c,
        m >= 0,
        -m <= l <= m,
    ensures
        -(m * s) <= c * l * ROOT_SHIFT <= m * s,
{
}

/// A scalar product, scaled, is bounded by twice the bound of the point times
/// the scaled length of the direction.
proof fn lemma_projection_bound(n: Vec2, p: Vec2, m: int, s: int)
    by (nonlinear_arith)
    requires
        dominates(s, n),
        m >= 0,
        p.within(m),
    ensures
        -((2 * m) * s) <= n.dot(p) * ROOT_SHIFT <= (2 * m) * s,
{
}

/// The orientation of `p` against the ray from `a` through `b`: the cross
/// product of `p - a` with `b - a`.
pub open spec fn det_spec(a: Vec2, b: Vec2, p: Vec2) -> int {
    (p.x - a.x) * (b.y - a.y) - (p.y - a.y) * (b.x - a.x)
}

/// The orientation of `p` against the ray from `a` through `b`.
pub fn det(a: Vector, b: Vector, p: Vector) -> (r: i128)
    requires
        a@.within(0x2000_0000_0000_0000),
        b@.within(0x2000_0000_0000_0000),
        p@.within(0x2000_0000_0000_0000),
    ensures
        r == det_spec(a@, b@, p@),
        r == p@.minus(a@).cross(b@.minus(a@)),
{
    let px: i128 = p.x as i128 - a.x as i128;
    let py: i128 = p.y as i128 - a.y as i128;
    let bx: i128 = b.x as i128 - a.x as i128;
    let by: i128 = b.y as i128 - a.y as i128;
    proof {
        lemma_product_bound(px as int, by as int, 0x4000_0000_0000_0000, 0x4000_0000_0000_0000);
        lemma_product_bound(py as int, bx as int, 0x4000_0000_0000_0000, 0x4000_0000_0000_0000);
    }
    px * by - py * bx
}

} // verus!
