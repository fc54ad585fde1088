//! Identities of the scalar and the cross product in the plane.

use crate::gjk::lemma_triple_product_is_turned;
use crate::vector::Vec2;
use vstd::prelude::*;

verus! {

/// A product of three factors does not depend on their order.
pub proof fn lemma_mul3(x: int, y: int, z: int)
    by (nonlinear_arith)
    ensures
        (x * y) * z == x * (y * z),
        (x * y) * z == (x * z) * y,
        (x * y) * z == (y * z) * x,
        (x * y) * z == (y * x) * z,
        (x * y) * z == (z * x) * y,
        (x * y) * z == (z * y) * x,
        (x * y) * z == z * (x * y),
{
}

/// Multiplication distributes over a sum and a difference of two terms.
pub proof fn lemma_mul_dist(p: int, q: int, r: int)
    by (nonlinear_arith)
    ensures
        (p + q) * r == p * r + q * r,
        (p - q) * r == p * r - q * r,
        r * (p + q) == r * p + r * q,
        r * (p - q) == r * p - r * q,
        (-p) * r == -(p * r),
        r * (-p) == -(r * p),
{
}

/// Scaling by zero, one and minus one.
pub proof fn lemma_scale_unit(v: Vec2)
    ensures
        v.scale(0) == Vec2::zero(),
        v.scale(1) == v,
        v.scale(-1) == v.neg(),
{
}

/// The scalar product does not depend on the order of its factors.
pub proof fn lemma_dot_symmetric(a: Vec2, b: Vec2)
    ensures
        a.dot(b) == b.dot(a),
{
    lemma_mul_commutes(a.x, b.x);
    lemma_mul_commutes(a.y, b.y);
}

/// A product does not depend on the order of its factors.
pub proof fn lemma_mul_commutes(x: int, y: int)
    by (nonlinear_arith)
    ensures
        x * y == y * x,
{
}

/// The scalar product is linear in either factor.
pub proof fn lemma_dot_linear(a: Vec2, b: Vec2, c: Vec2)
    ensures
        a.plus(b).dot(c) == a.dot(c) + b.dot(c),
        a.minus(b).dot(c) == a.dot(c) - b.dot(c),
        c.dot(a.plus(b)) == c.dot(a) + c.dot(b),
        c.dot(a.minus(b)) == c.dot(a) - c.dot(b),
        a.neg().dot(c) == -a.dot(c),
        c.dot(a.neg()) == -c.dot(a),
{
    lemma_mul_dist(a.x, b.x, c.x);
    lemma_mul_dist(a.y, b.y, c.y);
    lemma_mul_dist(a.x, 0, c.x);
    lemma_mul_dist(a.y, 0, c.y);
}

/// A factor of either vector is a factor of the scalar product.
pub proof fn lemma_dot_scale(a: Vec2, k: int, c: Vec2)
    ensures
        a.scale(k).dot(c) == k * a.dot(c),
        c.dot(a.scale(k)) == k * a.dot(c),
{
    lemma_mul3(k, a.x, c.x);
    lemma_mul3(k, a.y, c.y);
    lemma_mul_dist(a.x * c.x, a.y * c.y, k);
    lemma_dot_symmetric(a.scale(k), c);
}

/// The cross product changes its sign with the order of its factors.
pub proof fn lemma_cross_antisymmetric(a: Vec2, b: Vec2)
    ensures
        a.cross(b) == -b.cross(a),
        a.cross(a) == 0,
{
    lemma_mul_commutes(a.x, b.y);
    lemma_mul_commutes(a.y, b.x);
    lemma_mul_commutes(a.x, a.y);
}

/// The cross product is linear in either factor.
pub proof fn lemma_cross_linear(a: Vec2, b: Vec2, c: Vec2)
    ensures
        a.plus(b).cross(c) == a.cross(c) + b.cross(c),
        a.minus(b).cross(c) == a.cross(c) - b.cross(c),
        c.cross(a.plus(b)) == c.cross(a) + c.cross(b),
        c.cross(a.minus(b)) == c.cross(a) - c.cross(b),
        a.neg().cross(c) == -a.cross(c),
        c.cross(a.neg()) == -c.cross(a),
{
    lemma_mul_dist(a.x, b.x, c.y);
    lemma_mul_dist(a.y, b.y, c.x);
    lemma_mul_dist(a.x, 0, c.y);
    lemma_mul_dist(a.y, 0, c.x);
}

/// The scalar product with a quarter turn is the cross product.
pub proof fn lemma_perp_dot(a: Vec2, b: Vec2)
    ensures
        a.perp().dot(b) == a.cross(b),
        a.perp().dot(a) == 0,
        a.perp() == Vec2::zero() <==> a == Vec2::zero(),
{
    lemma_mul_dist(a.y, 0, b.x);
    lemma_mul_dist(a.y, 0, a.x);
    lemma_mul_commutes(a.x, a.y);
}

/// Three vectors of the plane are linearly dependent, with the cross
/// products of the pairs as coefficients.
pub proof fn lemma_three_vectors(a: Vec2, b: Vec2, p: Vec2)
    ensures
        b.scale(a.cross(p)).plus(a.scale(p.cross(b))).plus(p.scale(b.cross(a))) == Vec2::zero(),
{
    lemma_mul_dist(a.x * p.y, a.y * p.x, b.x);
    lemma_mul_dist(p.x * b.y, p.y * b.x, a.x);
    lemma_mul_dist(b.x * a.y, b.y * a.x, p.x);
    lemma_mul3(a.x, p.y, b.x);
    lemma_mul3(a.y, p.x, b.x);
    lemma_mul3(p.x, b.y, a.x);
    lemma_mul3(p.y, b.x, a.x);
    lemma_mul3(b.x, a.y, p.x);
    lemma_mul3(b.y, a.x, p.x);
    lemma_mul_dist(a.x * p.y, a.y * p.x, b.y);
    lemma_mul_dist(p.x * b.y, p.y * b.x, a.y);
    lemma_mul_dist(b.x * a.y, b.y * a.x, p.y);
    lemma_mul3(a.x, p.y, b.y);
    lemma_mul3(a.y, p.x, b.y);
    lemma_mul3(p.x, b.y, a.y);
    lemma_mul3(p.y, b.x, a.y);
    lemma_mul3(b.x, a.y, p.y);
    lemma_mul3(b.y, a.x, p.y);
}

/// The scalar product of two vectors is bounded by their lengths.
pub proof fn lemma_cauchy_schwarz(p: Vec2, d: Vec2)
    ensures
        p.dot(d) * p.dot(d) <= p.norm_sq() * d.norm_sq(),
{
    let a = p.x * d.x;
    let b = p.y * d.y;
    let c = p.x * d.y;
    let e = p.y * d.x;
    assert((c - e) * (c - e) >= 0) by (nonlinear_arith);
    assert((a + b) * (a + b) == a * a + 2 * (a * b) + b * b) by (nonlinear_arith);
    assert((c - e) * (c - e) == c * c - 2 * (c * e) + e * e) by (nonlinear_arith);
    assert(a * b == c * e) by (nonlinear_arith)
        requires
            a == p.x * d.x,
            b == p.y * d.y,
            c == p.x * d.y,
            e == p.y * d.x,
    ;
    lemma_square_of_product(p.x, d.x);
    lemma_square_of_product(p.y, d.y);
    lemma_square_of_product(p.x, d.y);
    lemma_square_of_product(p.y, d.x);
    let px = p.x * p.x;
    let py = p.y * p.y;
    let dx = d.x * d.x;
    let dy = d.y * d.y;
    assert((px + py) * (dx + dy) == px * dx + px * dy + py * dx + py * dy) by (nonlinear_arith);
}

/// The square of a product is the product of the squares.
pub proof fn lemma_square_of_product(x: int, y: int)
    by (nonlinear_arith)
    ensures
        (x * y) * (x * y) == (x * x) * (y * y),
{
}

/// A product is bounded by the product of the bounds of its factors.
pub proof fn lemma_product_bound(a: int, b: int, m: int, n: int)
    by (nonlinear_arith)
    requires
        -m <= a <= m,
        -n <= b <= n,
    ensures
        -(m * n) <= a * b <= m * n,
{
}

/// Two vectors that are both at right angles to `d`, which is not zero,
/// lie on one line, to the same side of the origin where their scalar
/// products with `d` turned a quarter have one sign.
pub proof fn lemma_level_edges(e0: Vec2, e1: Vec2, d: Vec2)
    requires
        d != Vec2::zero(),
        e0.dot(d) == 0,
        e1.dot(d) == 0,
    ensures
        e0.cross(e1) == 0,
        d.norm_sq() * e0.dot(e1) == e0.dot(d.perp()) * e1.dot(d.perp()),
        e0 != Vec2::zero() ==> e0.dot(d.perp()) != 0,
{
    let u = d.perp();
    // In the frame of `d` and `u`, the products of two vectors split in two.
    lemma_frame(e0, e1, d);
    lemma_frame(e0, e0, d);
    assert(d.norm_sq() > 0) by (nonlinear_arith)
        requires
            d != Vec2::zero(),
            d.norm_sq() == d.x * d.x + d.y * d.y,
    ;
    assert(e0.dot(d) * e1.dot(d) == 0 && e0.dot(d) * e1.dot(u) == 0 && e0.dot(u) * e1.dot(d) == 0
        && e0.dot(d) * e0.dot(d) == 0) by (nonlinear_arith)
        requires
            e0.dot(d) == 0,
            e1.dot(d) == 0,
    ;
    assert(e0.cross(e1) == 0) by (nonlinear_arith)
        requires
            d.norm_sq() * e0.cross(e1) == 0,
            d.norm_sq() > 0,
    ;
    if e0 != Vec2::zero() && e0.dot(u) == 0 {
        assert(e0.dot(u) * e0.dot(u) == 0) by (nonlinear_arith)
            requires
                e0.dot(u) == 0,
        ;
        assert(e0.norm_sq() > 0) by (nonlinear_arith)
            requires
                e0 != Vec2::zero(),
                e0.norm_sq() == e0.x * e0.x + e0.y * e0.y,
        ;
        assert(e0.dot(e0) == e0.norm_sq());
        assert(false) by (nonlinear_arith)
            requires
                d.norm_sq() * e0.norm_sq() == 0,
                d.norm_sq() > 0,
                e0.norm_sq() > 0,
        ;
    }
}

/// In the frame of a vector `d` and its quarter turn, the scalar and the
/// cross product of two vectors are those of their coordinates.
pub proof fn lemma_frame(e0: Vec2, e1: Vec2, d: Vec2)
    ensures
        d.norm_sq() * e0.dot(e1) == e0.dot(d) * e1.dot(d) + e0.dot(d.perp()) * e1.dot(d.perp()),
        d.norm_sq() * e0.cross(e1) == e0.dot(d) * e1.dot(d.perp()) - e0.dot(d.perp()) * e1.dot(d),
{
    let a = e0.x;
    let b = e0.y;
    let c = e1.x;
    let f = e1.y;
    let x = d.x;
    let y = d.y;
    lemma_negated_products(a, y, 0, 0);
    lemma_negated_products(c, y, 0, 0);
    assert((x * x + y * y) * (a * c + b * f) == (a * x + b * y) * (c * x + f * y) + (-(a * y) + b
        * x) * (-(c * y) + f * x)) by {
        lemma_expand(x * x, y * y, a * c, b * f);
        lemma_expand(a * x, b * y, c * x, f * y);
        lemma_expand(-(a * y), b * x, -(c * y), f * x);
        lemma_mul4(x, x, a, c);
        lemma_mul4(x, x, b, f);
        lemma_mul4(y, y, a, c);
        lemma_mul4(y, y, b, f);
        lemma_mul4(a, x, c, x);
        lemma_mul4(a, x, f, y);
        lemma_mul4(b, y, c, x);
        lemma_mul4(b, y, f, y);
        lemma_mul4(a, y, c, y);
        lemma_mul4(a, y, f, x);
        lemma_mul4(b, x, c, y);
        lemma_mul4(b, x, f, x);
        lemma_negated_products(a * y, c * y, f * x, b * x);
    }
    assert((x * x + y * y) * (a * f - b * c) == (a * x + b * y) * (-(c * y) + f * x) - (-(a * y) + b
        * x) * (c * x + f * y)) by {
        lemma_expand(x * x, y * y, a * f, -(b * c));
        lemma_expand(a * x, b * y, -(c * y), f * x);
        lemma_expand(-(a * y), b * x, c * x, f * y);
        lemma_mul4(x, x, a, f);
        lemma_mul4(x, x, b, c);
        lemma_mul4(y, y, a, f);
        lemma_mul4(y, y, b, c);
        lemma_mul4(a, x, c, y);
        lemma_mul4(a, x, f, x);
        lemma_mul4(b, y, c, y);
        lemma_mul4(b, y, f, x);
        lemma_mul4(a, y, c, x);
        lemma_mul4(a, y, f, y);
        lemma_mul4(b, x, c, x);
        lemma_mul4(b, x, f, y);
        lemma_negated_products(a * y, c * x, f * y, b * x);
        lemma_negated_products(c * y, a * x, b * y, c * y);
        lemma_negated_products(b * c, x * x, y * y, b * c);
    }
}

/// The product of two sums, term by term.
pub proof fn lemma_expand(p: int, q: int, r: int, s: int)
    by (nonlinear_arith)
    ensures
        (p + q) * (r + s) == p * r + p * s + q * r + q * s,
{
}

/// A product of four factors, regrouped.
pub proof fn lemma_mul4(p: int, q: int, r: int, s: int)
    by (nonlinear_arith)
    ensures
        (p * q) * (r * s) == (p * r) * (q * s),
        (p * q) * (r * s) == (p * s) * (q * r),
        (p * q) * (r * s) == (r * s) * (p * q),
{
}

/// Products with negated factors.
pub proof fn lemma_negated_products(p: int, q: int, r: int, s: int)
    by (nonlinear_arith)
    ensures
        (-p) * (-q) == p * q,
        (-p) * r == -(p * r),
        s * (-q) == -(s * q),
        (-p) * q == -(p * q),
        p * (-q) == -(p * q),
{
}

/// Two vectors on one line, of which the first is not zero: where a third
/// vector makes a positive scalar product with the second and none that is
/// negative with the first, the two point the same way.
pub proof fn lemma_same_way(u: Vec2, v: Vec2, n: Vec2)
    requires
        u != Vec2::zero(),
        u.cross(v) == 0,
        n.dot(v) > 0,
        n.dot(u) >= 0,
    ensures
        u.dot(v) > 0,
{
    // (u . u) v == (u . v) u, for vectors on one line.
    lemma_frame(v, n, u);
    assert(v.dot(u.perp()) == u.cross(v)) by (nonlinear_arith);
    lemma_dot_symmetric(v, u);
    lemma_dot_symmetric(v, n);
    lemma_dot_symmetric(n, u);
    assert(u.norm_sq() > 0) by (nonlinear_arith)
        requires
            u != Vec2::zero(),
            u.norm_sq() == u.x * u.x + u.y * u.y,
    ;
    assert(u.dot(v) > 0) by (nonlinear_arith)
        requires
            u.norm_sq() * v.dot(n) == v.dot(u) * n.dot(u) + v.dot(u.perp()) * n.dot(u.perp()),
            v.dot(u.perp()) == 0,
            v.dot(n) > 0,
            n.dot(u) >= 0,
            u.norm_sq() > 0,
            v.dot(u) == u.dot(v),
    ;
}

/// Of two vectors on one line, the one that lies farther along a direction
/// along which both lie beyond the origin is the longer.
pub proof fn lemma_stretch(a: Vec2, s: Vec2, n: Vec2)
    requires
        a.cross(s) == 0,
        n.dot(a) > 0,
        n.dot(s) > n.dot(a),
    ensures
        a.dot(s) > a.dot(a),
        a.dot(a) > 0,
        s.scale(a.dot(a)) == a.scale(a.dot(s)),
{
    lemma_triple_product_is_turned(a, s, a);
    lemma_scale_unit(a.perp());
    assert(s.scale(a.dot(a)).minus(a.scale(a.dot(s))) == Vec2::zero());
    assert(s.scale(a.dot(a)) == a.scale(a.dot(s)));
    lemma_dot_scale(s, a.dot(a), n);
    lemma_dot_scale(a, a.dot(s), n);
    lemma_dot_symmetric(n, s);
    lemma_dot_symmetric(n, a);
    assert(a != Vec2::zero()) by {
        if a == Vec2::zero() {
            assert(n.dot(a) == 0) by (nonlinear_arith)
                requires
                    a == Vec2::zero(),
            ;
        }
    }
    assert(a.dot(a) > 0) by (nonlinear_arith)
        requires
            a != Vec2::zero(),
            a.dot(a) == a.x * a.x + a.y * a.y,
    ;
    assert(a.dot(s) > a.dot(a)) by (nonlinear_arith)
        requires
            a.dot(a) * n.dot(s) == a.dot(s) * n.dot(a),
            n.dot(s) > n.dot(a),
            n.dot(a) > 0,
            a.dot(a) > 0,
    ;
}

/// A factor of the second vector is a factor of the cross product.
pub proof fn lemma_cross_scale(p: Vec2, v: Vec2, k: int)
    ensures
        p.cross(v.scale(k)) == k * p.cross(v),
{
    lemma_mul3(k, v.y, p.x);
    lemma_mul3(k, v.x, p.y);
    lemma_mul3(p.x, k, v.y);
    lemma_mul3(p.y, k, v.x);
    lemma_mul_dist(p.x * v.y, p.y * v.x, k);
}

/// A factor of the first vector is a factor of the cross product.
pub proof fn lemma_cross_scale_left(v: Vec2, p: Vec2, k: int)
    ensures
        v.scale(k).cross(p) == k * v.cross(p),
{
    lemma_mul3(k, v.x, p.y);
    lemma_mul3(k, v.y, p.x);
    lemma_mul_dist(v.x * p.y, v.y * p.x, k);
}

} // verus!
