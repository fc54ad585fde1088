//! What the rounding of the fixed-point arithmetic keeps: how near a
//! resized vector and a projection come to their exact values.

use crate::algebra::{lemma_cauchy_schwarz, lemma_mul3, lemma_square_of_product};
use crate::numeric::{
    is_ceil_sqrt, lemma_ceil_sqrt_exists, lemma_ceil_sqrt_lower, lemma_ceil_sqrt_unique,
    lemma_ceil_sqrt_upper, lemma_trunc_div_bound, lemma_trunc_div_monotonic, trunc_div,
    ROOT_SHIFT, ROOT_SHIFT_SQ,
};
use crate::vector::{dominates, Vec2, ONE};
use vstd::arithmetic::div_mod::{lemma_fundamental_div_mod, lemma_mod_bound};
use vstd::prelude::*;

verus! {

/// A number and its negative have one square.
pub proof fn lemma_abs_square(c: int, a: int)
    by (nonlinear_arith)
    requires
        a == c || a == -c,
    ensures
        a * a == c * c,
{
}

/// The square of a scaled component is at most the scaled squared length.
pub proof fn lemma_scaled_component(x: int, y: int)
    by (nonlinear_arith)
    ensures
        (ROOT_SHIFT * x) * (ROOT_SHIFT * x) <= (x * x + y * y) * ROOT_SHIFT_SQ,
        (ROOT_SHIFT * y) * (ROOT_SHIFT * y) <= (x * x + y * y) * ROOT_SHIFT_SQ,
{
}

/// The scaled length of a vector that is not zero is positive and at least
/// the scaled magnitude of each component.
pub proof fn lemma_scaled_norm_positive(v: Vec2)
    requires
        v != Vec2::zero(),
    ensures
        v.scaled_norm() > 0,
        dominates(v.scaled_norm(), v),
        is_ceil_sqrt(v.norm_sq() * ROOT_SHIFT_SQ, v.scaled_norm()),
{
    let s = v.scaled_norm();
    lemma_ceil_sqrt_exists(v.norm_sq() * ROOT_SHIFT_SQ);
    assert(v.norm_sq() * ROOT_SHIFT_SQ > 0) by (nonlinear_arith)
        requires
            v != Vec2::zero(),
    ;
    assert(s > 0) by (nonlinear_arith)
        requires
            s * s >= v.norm_sq() * ROOT_SHIFT_SQ,
            v.norm_sq() * ROOT_SHIFT_SQ > 0,
            s >= 0,
    ;
    let x = if v.x >= 0 { v.x } else { -v.x };
    let y = if v.y >= 0 { v.y } else { -v.y };
    lemma_abs_square(v.x, x);
    lemma_abs_square(v.y, y);
    lemma_scaled_component(x, y);
    lemma_ceil_sqrt_lower(v.norm_sq() * ROOT_SHIFT_SQ, ROOT_SHIFT * x);
    lemma_ceil_sqrt_lower(v.norm_sq() * ROOT_SHIFT_SQ, ROOT_SHIFT * y);
}

/// A vector resized to a length that is not negative makes no obtuse angle
/// with the vector it came from.
pub proof fn lemma_resized_follows(dir: Vec2, len: int)
    requires
        len >= 0,
    ensures
        dir.resized(len).dot(dir) >= 0,
{
    if dir != Vec2::zero() {
        lemma_scaled_norm_positive(dir);
        lemma_rounded_component_follows(dir.x, len, dir.scaled_norm());
        lemma_rounded_component_follows(dir.y, len, dir.scaled_norm());
    }
}

/// A rounded component has the sign of the component it came from.
proof fn lemma_rounded_component_follows(c: int, len: int, s: int)
    requires
        len >= 0,
        s > 0,
    ensures
        trunc_div(c * len * ROOT_SHIFT, s) * c >= 0,
{
    let a = c * len * ROOT_SHIFT;
    let m = if a >= 0 { a } else { -a };
    assert(-(m * s) <= a <= m * s) by (nonlinear_arith)
        requires
            s > 0,
            m >= 0,
            m == a || m == -a,
    ;
    lemma_trunc_div_bound(a, s, m);
    let q = trunc_div(a, s);
    assert(q * c >= 0) by (nonlinear_arith)
        requires
            a == c * len * ROOT_SHIFT,
            len >= 0,
            a >= 0 ==> q >= 0,
            a <= 0 ==> q <= 0,
    ;
}

/// A resized vector is no longer than the length asked for.
pub proof fn lemma_resized_length(v: Vec2, len: int)
    ensures
        v.resized(len).norm_sq() <= len * len,
{
    if v == Vec2::zero() {
        assert(len * len >= 0) by (nonlinear_arith);
    } else {
        lemma_scaled_norm_positive(v);
        let s = v.scaled_norm();
        let r = v.resized(len);
        lemma_rounded_component_square(v.x, len, s);
        lemma_rounded_component_square(v.y, len, s);
        let n = v.norm_sq();
        assert(r.norm_sq() * (s * s) <= (len * len) * (s * s)) by (nonlinear_arith)
            requires
                (r.x * r.x) * (s * s) <= (v.x * v.x) * ((len * len) * ROOT_SHIFT_SQ),
                (r.y * r.y) * (s * s) <= (v.y * v.y) * ((len * len) * ROOT_SHIFT_SQ),
                s * s >= n * ROOT_SHIFT_SQ,
                n == v.x * v.x + v.y * v.y,
                r.norm_sq() == r.x * r.x + r.y * r.y,
        ;
        assert(r.norm_sq() <= len * len) by (nonlinear_arith)
            requires
                r.norm_sq() * (s * s) <= (len * len) * (s * s),
                s > 0,
        ;
    }
}

/// A rounded component is no greater in magnitude than its exact value.
proof fn lemma_rounded_component_square(c: int, len: int, s: int)
    requires
        s > 0,
    ensures
        ({
            let q = trunc_div(c * len * ROOT_SHIFT, s);
            (q * q) * (s * s) <= (c * c) * ((len * len) * ROOT_SHIFT_SQ)
        }),
{
    let a = c * len * ROOT_SHIFT;
    let m = if a >= 0 { a } else { -a };
    assert(-(m * s) <= a <= m * s) by (nonlinear_arith)
        requires
            s > 0,
            m >= 0,
            m == a || m == -a,
    ;
    lemma_trunc_div_bound(a, s, m);
    let q = trunc_div(a, s);
    let t = q * s;
    assert((q >= 0 ==> t >= 0) && (q <= 0 ==> t <= 0)) by (nonlinear_arith)
        requires
            t == q * s,
            s > 0,
    ;
    assert(t * t <= a * a) by (nonlinear_arith)
        requires
            (a >= 0 && 0 <= t <= a) || (a <= 0 && a <= t <= 0),
    ;
    assert(t * t == (q * q) * (s * s)) by (nonlinear_arith)
        requires
            t == q * s,
    ;
    assert(a * a == (c * c) * ((len * len) * ROOT_SHIFT_SQ)) by (nonlinear_arith)
        requires
            a == c * len * ROOT_SHIFT,
            ROOT_SHIFT_SQ == ROOT_SHIFT * ROOT_SHIFT,
    ;
}

/// A component `c` of a vector of scaled length `s`, brought to the length
/// `len` and rounded toward zero, falls short of its exact value by less
/// than one.
proof fn lemma_rounded_component_short(c: int, len: int, s: int)
    requires
        len >= 0,
        s > 0,
    ensures
        ({
            let q = trunc_div(c * len * ROOT_SHIFT, s);
            let m = if c >= 0 { c } else { -c };
            (q * c + m) * s >= (c * c) * (len * ROOT_SHIFT)
        }),
{
    let a = c * len * ROOT_SHIFT;
    let q = trunc_div(a, s);
    let m = if c >= 0 { c } else { -c };
    let big = if a >= 0 { a } else { -a };
    let h = big / s;
    lemma_fundamental_div_mod(big, s);
    lemma_mod_bound(big, s);
    assert(big < (h + 1) * s) by (nonlinear_arith)
        requires
            big == s * h + big % s,
            0 <= big % s < s,
    ;
    assert(big == m * (len * ROOT_SHIFT)) by (nonlinear_arith)
        requires
            a == c * len * ROOT_SHIFT,
            big == a || big == -a,
            big >= 0,
            m == c || m == -c,
            m >= 0,
            len >= 0,
    ;
    assert(h >= 0) by {
        lemma_trunc_div_monotonic(0, big, s);
    }
    // The rounded component has the sign of `c`, and the magnitude `h`.
    assert(q * c == h * m) by (nonlinear_arith)
        requires
            q == if a >= 0 { h } else { -h },
            a == c * len * ROOT_SHIFT,
            m == if c >= 0 { c } else { -c },
            len >= 0,
            h >= 0,
            a == 0 ==> h == 0,
    ;
    assert((h * m + m) * s >= (m * m) * (len * ROOT_SHIFT)) by (nonlinear_arith)
        requires
            big < (h + 1) * s,
            big == m * (len * ROOT_SHIFT),
            m >= 0,
    ;
    assert(m * m == c * c) by (nonlinear_arith)
        requires
            m == c || m == -c,
    ;
}

/// Resizing is consistent up to rounding: along `d`, the vector that comes
/// of resizing another direction `e` lies beyond the one that comes of `d`
/// itself by no more than `k` for each unit of the components of `d`.
pub proof fn lemma_resized_consistent(d: Vec2, e: Vec2, len: int, k: int)
    requires
        len >= 0,
        k >= 1,
        k * ROOT_SHIFT >= len,
    ensures
        e.resized(len).dot(d) <= d.resized(len).dot(d) + k * d.norm1(),
{
    let p = e.resized(len);
    let q = d.resized(len);
    if d == Vec2::zero() {
        assert(p.dot(d) == 0) by (nonlinear_arith)
            requires
                d == Vec2::zero(),
        ;
    } else if len == 0 {
        lemma_resized_length(e, 0);
        lemma_resized_length(d, 0);
        assert(len * len == 0) by (nonlinear_arith)
            requires
                len == 0,
        ;
        assert(p == Vec2::zero() && q == Vec2::zero()) by (nonlinear_arith)
            requires
                p.norm_sq() <= 0,
                q.norm_sq() <= 0,
                p.norm_sq() == p.x * p.x + p.y * p.y,
                q.norm_sq() == q.x * q.x + q.y * q.y,
        ;
        assert(k * d.norm1() >= 0) by (nonlinear_arith)
            requires
                k >= 1,
                d.norm1() >= 0,
        ;
    } else {
        lemma_scaled_norm_positive(d);
        let s = d.scaled_norm();
        let n = d.norm_sq();
        let w = n * (len * ROOT_SHIFT);
        let t = q.dot(d) + d.norm1();
        let big = p.dot(d);
        assert(n >= 1) by (nonlinear_arith)
            requires
                d != Vec2::zero(),
                n == d.x * d.x + d.y * d.y,
        ;
        lemma_rounded_component_short(d.x, len, s);
        lemma_rounded_component_short(d.y, len, s);
        assert(t * s >= w) by (nonlinear_arith)
            requires
                (q.x * d.x + (if d.x >= 0 { d.x } else { -d.x })) * s >= (d.x * d.x) * (len
                    * ROOT_SHIFT),
                (q.y * d.y + (if d.y >= 0 { d.y } else { -d.y })) * s >= (d.y * d.y) * (len
                    * ROOT_SHIFT),
                t == (q.x * d.x + q.y * d.y) + ((if d.x >= 0 { d.x } else { -d.x }) + (if d.y >= 0 {
                    d.y
                } else {
                    -d.y
                })),
                w == (d.x * d.x + d.y * d.y) * (len * ROOT_SHIFT),
        ;
        if big > q.dot(d) + k * d.norm1() {
            assert(d.norm1() >= 1);
            assert(big >= t + k) by (nonlinear_arith)
                requires
                    big > q.dot(d) + k * d.norm1(),
                    t == q.dot(d) + d.norm1(),
                    d.norm1() >= 1,
                    k >= 1,
            ;
            assert(w >= 0) by (nonlinear_arith)
                requires
                    w == n * (len * ROOT_SHIFT),
                    n >= 1,
                    len >= 0,
            ;
            assert(big * s >= w + k * s) by (nonlinear_arith)
                requires
                    big >= t + k,
                    t * s >= w,
                    s > 0,
            ;
            assert((big * s) * (big * s) >= w * w + 2 * (w * (k * s))) by (nonlinear_arith)
                requires
                    big * s >= w + k * s,
                    w >= 0,
                    k * s >= 0,
            ;
            lemma_cauchy_schwarz(p, d);
            lemma_resized_length(e, len);
            assert(big * big <= (len * len) * n) by (nonlinear_arith)
                requires
                    big * big <= p.norm_sq() * n,
                    p.norm_sq() <= len * len,
                    n >= 1,
            ;
            assert(s * s <= n * ROOT_SHIFT_SQ + 2 * s - 1) by (nonlinear_arith)
                requires
                    (s - 1) * (s - 1) < n * ROOT_SHIFT_SQ,
            ;
            assert((big * s) * (big * s) <= ((len * len) * n) * (n * ROOT_SHIFT_SQ + 2 * s - 1))
                by (nonlinear_arith)
                requires
                    big * big <= (len * len) * n,
                    s * s <= n * ROOT_SHIFT_SQ + 2 * s - 1,
            ;
            assert(((len * len) * n) * (n * ROOT_SHIFT_SQ + 2 * s - 1) == w * w + (2 * s - 1) * ((len
                * len) * n)) by (nonlinear_arith)
                requires
                    w == n * (len * ROOT_SHIFT),
                    ROOT_SHIFT_SQ == ROOT_SHIFT * ROOT_SHIFT,
            ;
            let g = (len * len) * n;
            assert(g >= 1) by (nonlinear_arith)
                requires
                    g == (len * len) * n,
                    len >= 1,
                    n >= 1,
            ;
            assert(2 * (w * (k * s)) <= (2 * s - 1) * g);
            assert(w * k >= g) by (nonlinear_arith)
                requires
                    w == n * (len * ROOT_SHIFT),
                    g == (len * len) * n,
                    k * ROOT_SHIFT >= len,
                    len >= 0,
                    n >= 1,
            ;
            assert(false) by (nonlinear_arith)
                requires
                    2 * (w * (k * s)) <= (2 * s - 1) * g,
                    w * k >= g,
                    g >= 1,
                    s > 0,
                    g == (len * len) * n,
                    len >= 1,
                    n >= 1,
            ;
        }
    }
}

/// `v` has unit length, as nearly as whole components allow: it is no
/// longer than [`ONE`], and longer once either component is moved two steps
/// away from zero.
pub open spec fn is_unit(v: Vec2) -> bool {
    let x = if v.x >= 0 { v.x } else { -v.x };
    let y = if v.y >= 0 { v.y } else { -v.y };
    &&& v.norm_sq() <= ONE * ONE
    &&& ONE * ONE < (x + 2) * (x + 2) + (y + 2) * (y + 2)
}

/// A vector that is not zero, resized to the length [`ONE`], has unit
/// length.
pub proof fn lemma_resized_is_unit(v: Vec2)
    requires
        v != Vec2::zero(),
    ensures
        is_unit(v.resized(ONE as int)),
{
    lemma_resized_length(v, ONE as int);
    lemma_scaled_norm_positive(v);
    let s = v.scaled_norm();
    let n = v.norm_sq();
    let r = v.resized(ONE as int);
    let x = if r.x >= 0 { r.x } else { -r.x };
    let y = if r.y >= 0 { r.y } else { -r.y };
    assert(n >= 1) by (nonlinear_arith)
        requires
            v != Vec2::zero(),
            n == v.x * v.x + v.y * v.y,
    ;
    assert(v.x * v.x <= n && v.y * v.y <= n) by (nonlinear_arith)
        requires
            n == v.x * v.x + v.y * v.y,
    ;
    lemma_rounded_component_reach(v.x, x, n, s);
    lemma_rounded_component_reach(v.y, y, n, s);
    assert(ONE * ONE < (x + 2) * (x + 2) + (y + 2) * (y + 2)) by (nonlinear_arith)
        requires
            (v.x * v.x) * (ONE * ONE) < ((x + 2) * (x + 2)) * n,
            (v.y * v.y) * (ONE * ONE) < ((y + 2) * (y + 2)) * n,
            n == v.x * v.x + v.y * v.y,
            n >= 1,
    ;
}

/// A component `c` of a vector of squared length `n` and scaled length `s`,
/// brought to the length [`ONE`] and rounded toward zero to magnitude `q`,
/// falls short of its exact value by less than two.
proof fn lemma_rounded_component_reach(c: int, q: int, n: int, s: int)
    requires
        n >= 1,
        c * c <= n,
        s > 0,
        is_ceil_sqrt(n * ROOT_SHIFT_SQ, s),
        q == trunc_div(c * ONE * ROOT_SHIFT, s) || q == -trunc_div(c * ONE * ROOT_SHIFT, s),
        q >= 0,
    ensures
        (c * c) * (ONE * ONE) < ((q + 2) * (q + 2)) * n,
{
    let m = if c >= 0 { c } else { -c };
    let big = m * ONE * ROOT_SHIFT;
    assert(big >= 0) by (nonlinear_arith)
        requires
            big == m * ONE * ROOT_SHIFT,
            m >= 0,
    ;
    // The magnitude of the rounded component is the quotient of the magnitudes.
    assert(q == big / s) by {
        let a = c * ONE * ROOT_SHIFT;
        assert(a == big || a == -big) by (nonlinear_arith)
            requires
                a == c * ONE * ROOT_SHIFT,
                big == m * ONE * ROOT_SHIFT,
                m == c || m == -c,
        ;
        lemma_trunc_div_monotonic(0, big, s);
        if a == big {
            assert(trunc_div(a, s) == big / s);
        } else {
            assert(trunc_div(a, s) == -(big / s));
        }
        assert(big / s >= 0);
    }
    // The quotient falls short of the exact value by less than one.
    lemma_fundamental_div_mod(big, s);
    lemma_mod_bound(big, s);
    assert(big < (q + 1) * s) by (nonlinear_arith)
        requires
            big == s * q + big % s,
            0 <= big % s < s,
    ;
    // It is at most ONE, as the scaled length is at least the scaled component.
    assert((ROOT_SHIFT * m) * (ROOT_SHIFT * m) <= n * ROOT_SHIFT_SQ) by (nonlinear_arith)
        requires
            c * c <= n,
            m == c || m == -c,
            ROOT_SHIFT_SQ == ROOT_SHIFT * ROOT_SHIFT,
    ;
    lemma_ceil_sqrt_unique(n * ROOT_SHIFT_SQ, s);
    lemma_ceil_sqrt_lower(n * ROOT_SHIFT_SQ, ROOT_SHIFT * m);
    assert(q <= ONE) by (nonlinear_arith)
        requires
            q >= 0,
            s * q <= big,
            big == m * ONE * ROOT_SHIFT,
            s >= ROOT_SHIFT * m,
            s > 0,
    ;
    let y = (q + 1) * (s - 1);
    let z = q + 1;
    let w = n * ROOT_SHIFT_SQ;
    assert(big < y + z) by (nonlinear_arith)
        requires
            big < (q + 1) * s,
            y == (q + 1) * (s - 1),
            z == q + 1,
    ;
    assert(y >= 0) by (nonlinear_arith)
        requires
            y == (q + 1) * (s - 1),
            q >= 0,
            s >= 1,
    ;
    assert(big * big < (y + z) * (y + z)) by (nonlinear_arith)
        requires
            0 <= big < y + z,
    ;
    // Term by term, the square of `y + z` is at most `(q + 2)^2 * w`.
    assert(y * y <= ((q + 1) * (q + 1)) * w) by (nonlinear_arith)
        requires
            y == (q + 1) * (s - 1),
            (s - 1) * (s - 1) < w,
            q >= 0,
    ;
    assert(s - 1 < n * ROOT_SHIFT) by (nonlinear_arith)
        requires
            (s - 1) * (s - 1) < n * ROOT_SHIFT_SQ,
            ROOT_SHIFT_SQ == ROOT_SHIFT * ROOT_SHIFT,
            n >= 1,
            s >= 1,
    ;
    assert(y * z <= (q + 1) * w) by (nonlinear_arith)
        requires
            y == (q + 1) * (s - 1),
            z == q + 1,
            0 <= q <= ONE,
            ONE < ROOT_SHIFT,
            0 <= s - 1 < n * ROOT_SHIFT,
            w == n * ROOT_SHIFT_SQ,
            ROOT_SHIFT_SQ == ROOT_SHIFT * ROOT_SHIFT,
    ;
    assert(z * z <= w) by (nonlinear_arith)
        requires
            z == q + 1,
            0 <= q <= ONE,
            ONE < ROOT_SHIFT,
            w == n * ROOT_SHIFT_SQ,
            ROOT_SHIFT_SQ == ROOT_SHIFT * ROOT_SHIFT,
            n >= 1,
    ;
    assert((y + z) * (y + z) <= ((q + 2) * (q + 2)) * w) by (nonlinear_arith)
        requires
            y * y <= ((q + 1) * (q + 1)) * w,
            y * z <= (q + 1) * w,
            z * z <= w,
    ;
    assert(big * big == ((c * c) * (ONE * ONE)) * ROOT_SHIFT_SQ) by (nonlinear_arith)
        requires
            big == m * ONE * ROOT_SHIFT,
            m == c || m == -c,
            ROOT_SHIFT_SQ == ROOT_SHIFT * ROOT_SHIFT,
    ;
    assert((c * c) * (ONE * ONE) < ((q + 2) * (q + 2)) * n) by (nonlinear_arith)
        requires
            ((c * c) * (ONE * ONE)) * ROOT_SHIFT_SQ < ((q + 2) * (q + 2)) * w,
            w == n * ROOT_SHIFT_SQ,
            ROOT_SHIFT_SQ > 0,
    ;
}

/// The projection on a direction has the sign of the scalar product with
/// it, and grows with the scalar product.
pub proof fn lemma_projection_monotonic(n: Vec2, p: Vec2, q: Vec2)
    requires
        n != Vec2::zero(),
        n.dot(p) <= n.dot(q),
    ensures
        n.projection(p) <= n.projection(q),
        n.dot(p) >= 0 ==> n.projection(p) >= 0,
        n.dot(q) <= 0 ==> n.projection(q) <= 0,
{
    lemma_scaled_norm_positive(n);
    let s = n.scaled_norm();
    assert(n.dot(p) * ROOT_SHIFT <= n.dot(q) * ROOT_SHIFT) by (nonlinear_arith)
        requires
            n.dot(p) <= n.dot(q),
    ;
    lemma_trunc_div_monotonic(n.dot(p) * ROOT_SHIFT, n.dot(q) * ROOT_SHIFT, s);
    lemma_trunc_div_monotonic(0, n.dot(p) * ROOT_SHIFT, s);
    lemma_trunc_div_monotonic(n.dot(q) * ROOT_SHIFT, 0, s);
}

/// Where the scalar product of `p` with a direction is no less than `slack`
/// for each unit of the components of the direction below zero, the
/// projection of `p` on the direction is no less than twice `slack` below
/// zero.
pub proof fn lemma_projection_floor(n: Vec2, p: Vec2, slack: int)
    requires
        n != Vec2::zero(),
        slack >= 0,
        0 <= n.dot(p) + slack * n.norm1(),
    ensures
        n.projection(p) >= -2 * slack,
{
    lemma_scaled_norm_positive(n);
    let s = n.scaled_norm();
    let low = -(slack * n.norm1()) * ROOT_SHIFT;
    assert(low <= n.dot(p) * ROOT_SHIFT) by (nonlinear_arith)
        requires
            low == -(slack * n.norm1()) * ROOT_SHIFT,
            -(slack * n.norm1()) <= n.dot(p),
    ;
    lemma_trunc_div_monotonic(low, n.dot(p) * ROOT_SHIFT, s);
    assert(-((2 * slack) * s) <= low <= (2 * slack) * s) by (nonlinear_arith)
        requires
            low == -(slack * n.norm1()) * ROOT_SHIFT,
            slack >= 0,
            n.norm1() >= 0,
            ROOT_SHIFT * n.norm1() <= 2 * s,
    ;
    lemma_trunc_div_bound(low, s, 2 * slack);
}

/// The scaled length of every vector is a rounded-up square root that is
/// not negative.
pub proof fn lemma_scaled_norm_is_root(v: Vec2)
    ensures
        is_ceil_sqrt(v.norm_sq() * ROOT_SHIFT_SQ, v.scaled_norm()),
        v.scaled_norm() >= 0,
{
    lemma_ceil_sqrt_exists(v.norm_sq() * ROOT_SHIFT_SQ);
}

/// The scaled length of a sum is at most the sum of the scaled lengths.
pub proof fn lemma_scaled_norm_triangle(u: Vec2, v: Vec2)
    ensures
        u.plus(v).scaled_norm() <= u.scaled_norm() + v.scaled_norm(),
{
    lemma_scaled_norm_is_root(u);
    lemma_scaled_norm_is_root(v);
    let su = u.scaled_norm();
    let sv = v.scaled_norm();
    let nu = u.norm_sq();
    let nv = v.norm_sq();
    let uv = u.dot(v);
    let q = ROOT_SHIFT_SQ as int;
    assert(q > 0);
    // The scalar product times the scale is at most the product of the scaled lengths.
    assert(uv * q <= su * sv) by {
        if uv > 0 {
            lemma_cauchy_schwarz(u, v);
            assert(nu >= 0 && nv >= 0) by (nonlinear_arith)
                requires
                    nu == u.x * u.x + u.y * u.y,
                    nv == v.x * v.x + v.y * v.y,
            ;
            assert((uv * q) * (uv * q) <= (su * sv) * (su * sv)) by (nonlinear_arith)
                requires
                    uv * uv <= nu * nv,
                    su * su >= nu * q,
                    sv * sv >= nv * q,
                    nu >= 0,
                    nv >= 0,
                    q > 0,
            ;
            assert(su * sv >= 0) by (nonlinear_arith)
                requires
                    su >= 0,
                    sv >= 0,
            ;
            if uv * q > su * sv {
                lemma_square_strict_order(su * sv, uv * q);
            }
        } else {
            assert(uv * q <= 0 <= su * sv) by (nonlinear_arith)
                requires
                    uv <= 0,
                    q > 0,
                    su >= 0,
                    sv >= 0,
            ;
        }
    }
    let w = u.plus(v);
    assert(w.norm_sq() == nu + 2 * uv + nv) by (nonlinear_arith)
        requires
            w.x == u.x + v.x,
            w.y == u.y + v.y,
            w.norm_sq() == w.x * w.x + w.y * w.y,
            nu == u.x * u.x + u.y * u.y,
            nv == v.x * v.x + v.y * v.y,
            uv == u.x * v.x + u.y * v.y,
    ;
    assert((su + sv) * (su + sv) >= w.norm_sq() * q) by (nonlinear_arith)
        requires
            w.norm_sq() == nu + 2 * uv + nv,
            su * su >= nu * q,
            sv * sv >= nv * q,
            uv * q <= su * sv,
    ;
    lemma_ceil_sqrt_upper(w.norm_sq() * ROOT_SHIFT_SQ, su + sv);
}

/// Among natural numbers the strictly greater has the strictly greater square.
proof fn lemma_square_strict_order(a: int, b: int)
    by (nonlinear_arith)
    requires
        0 <= a < b,
    ensures
        a * a < b * b,
{
}

/// The scaled length of a vector scaled by a number that is not negative
/// is at most that number times the scaled length.
pub proof fn lemma_scaled_norm_scale(u: Vec2, k: int)
    requires
        k >= 0,
    ensures
        u.scale(k).scaled_norm() <= k * u.scaled_norm(),
{
    lemma_scaled_norm_is_root(u);
    let su = u.scaled_norm();
    let w = u.scale(k);
    assert(k * su >= 0) by (nonlinear_arith)
        requires
            k >= 0,
            su >= 0,
    ;
    assert(w.norm_sq() == (k * k) * u.norm_sq()) by (nonlinear_arith)
        requires
            w.x == k * u.x,
            w.y == k * u.y,
            w.norm_sq() == w.x * w.x + w.y * w.y,
            u.norm_sq() == u.x * u.x + u.y * u.y,
    ;
    assert((k * su) * (k * su) >= w.norm_sq() * ROOT_SHIFT_SQ) by (nonlinear_arith)
        requires
            w.norm_sq() == (k * k) * u.norm_sq(),
            su * su >= u.norm_sq() * ROOT_SHIFT_SQ,
    ;
    lemma_ceil_sqrt_upper(w.norm_sq() * ROOT_SHIFT_SQ, k * su);
}

/// The scaled length of a vector scaled by a positive number is more than
/// that number times one less than the scaled length.
pub proof fn lemma_scaled_norm_scale_lower(d: Vec2, k: int)
    requires
        k > 0,
        d != Vec2::zero(),
    ensures
        d.scale(k).scaled_norm() > k * (d.scaled_norm() - 1),
{
    lemma_scaled_norm_positive(d);
    let s = d.scaled_norm();
    let w = d.scale(k);
    lemma_scaled_norm_is_root(w);
    let sw = w.scaled_norm();
    assert(w.norm_sq() == (k * k) * d.norm_sq()) by (nonlinear_arith)
        requires
            w.x == k * d.x,
            w.y == k * d.y,
            w.norm_sq() == w.x * w.x + w.y * w.y,
            d.norm_sq() == d.x * d.x + d.y * d.y,
    ;
    let low = k * (s - 1);
    assert(low >= 0) by (nonlinear_arith)
        requires
            low == k * (s - 1),
            k > 0,
            s >= 1,
    ;
    let below = (s - 1) * (s - 1);
    let above = d.norm_sq() * ROOT_SHIFT_SQ;
    lemma_square_of_product(k, s - 1);
    assert(low * low == (k * k) * below);
    assert(k * k >= 1) by (nonlinear_arith)
        requires
            k >= 1,
    ;
    assert((k * k) * below < (k * k) * above) by (nonlinear_arith)
        requires
            below < above,
            k * k >= 1,
    ;
    lemma_mul3(k * k, d.norm_sq(), ROOT_SHIFT_SQ as int);
    assert(low * low < sw * sw);
    if sw <= low {
        assert(sw * sw <= low * low) by (nonlinear_arith)
            requires
                0 <= sw <= low,
        ;
    }
}

/// A vector brought to a length falls short of that length, along its own
/// direction, by less than one for each unit of its components.
pub proof fn lemma_resized_reach(d: Vec2, len: int)
    requires
        len >= 0,
        d != Vec2::zero(),
    ensures
        (d.resized(len).dot(d) + d.norm1()) * d.scaled_norm() >= d.norm_sq() * (len * ROOT_SHIFT),
{
    let s = d.scaled_norm();
    let u = d.resized(len);
    lemma_scaled_norm_positive(d);
    lemma_rounded_component_short(d.x, len, s);
    lemma_rounded_component_short(d.y, len, s);
    let mx = if d.x >= 0 { d.x } else { -d.x };
    let my = if d.y >= 0 { d.y } else { -d.y };
    let l = len * ROOT_SHIFT;
    assert((u.x * d.x + mx + (u.y * d.y + my)) * s == (u.x * d.x + mx) * s + (u.y * d.y + my) * s)
        by (nonlinear_arith);
    assert((d.x * d.x + d.y * d.y) * l == (d.x * d.x) * l + (d.y * d.y) * l) by (nonlinear_arith);
}

/// The opposite vector, brought to a length, is the opposite of the vector
/// brought to that length.
pub proof fn lemma_resized_neg(d: Vec2, len: int)
    ensures
        d.neg().resized(len) == d.resized(len).neg(),
{
    if d != Vec2::zero() {
        assert(d.neg().norm_sq() == d.norm_sq()) by (nonlinear_arith)
            requires
                d.neg().x == -d.x,
                d.neg().y == -d.y,
                d.neg().norm_sq() == d.neg().x * d.neg().x + d.neg().y * d.neg().y,
                d.norm_sq() == d.x * d.x + d.y * d.y,
        ;
        let s = d.scaled_norm();
        assert(d.neg().scaled_norm() == s);
        lemma_scaled_norm_positive(d);
        assert((-d.x) * len * ROOT_SHIFT == -(d.x * len * ROOT_SHIFT)) by (nonlinear_arith);
        assert((-d.y) * len * ROOT_SHIFT == -(d.y * len * ROOT_SHIFT)) by (nonlinear_arith);
        lemma_trunc_div_monotonic(0, 0, s);
    }
}

/// The projection of a point on a direction, rounded toward zero, is less
/// than one short of the exact projection.
pub proof fn lemma_projection_ceiling(n: Vec2, p: Vec2)
    requires
        n != Vec2::zero(),
    ensures
        n.dot(p) * ROOT_SHIFT < (n.projection(p) + 1) * n.scaled_norm(),
{
    let s = n.scaled_norm();
    let x = n.dot(p) * ROOT_SHIFT;
    let depth = n.projection(p);
    lemma_scaled_norm_positive(n);
    let m = if x >= 0 { x } else { -x };
    lemma_fundamental_div_mod(m, s);
    lemma_mod_bound(m, s);
    assert(x < (depth + 1) * s) by (nonlinear_arith)
        requires
            m == s * (m / s) + m % s,
            0 <= m % s < s,
            m == if x >= 0 { x } else { -x },
            depth == if x >= 0 { m / s } else { -(m / s) },
            s > 0,
    ;
}

} // verus!
