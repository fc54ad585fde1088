//! Integer square roots and rounded quotients, the two inexact operations of
//! the fixed-point arithmetic.

use vstd::arithmetic::div_mod::{lemma_div_is_ordered, lemma_fundamental_div_mod, lemma_mod_bound};
use vstd::prelude::*;

verus! {

/// The number of fractional bits carried through a square root.
pub const ROOT_SHIFT: i128 = 0x1000_0000;

/// The square of [`ROOT_SHIFT`].
pub const ROOT_SHIFT_SQ: i128 = 0x100_0000_0000_0000;

/// `r` is the least natural number whose square is at least `n`.
pub open spec fn is_ceil_sqrt(n: int, r: int) -> bool {
    &&& r >= 0
    &&& r * r >= n
    &&& (r == 0 || (r - 1) * (r - 1) < n)
}

/// The square root of `n`, rounded up.
pub open spec fn ceil_sqrt(n: int) -> int {
    choose|r: int| is_ceil_sqrt(n, r)
}

/// The quotient of `a` by a positive `b`, rounded toward zero.
pub open spec fn trunc_div(a: int, b: int) -> int {
    if a >= 0 {
        a / b
    } else {
        -((-a) / b)
    }
}

/// Among natural numbers the greater has the greater square.
proof fn lemma_square_monotonic(a: int, b: int)
    by (nonlinear_arith)
    requires
        0 <= a <= b,
    ensures
        a * a <= b * b,
{
}

/// Only one number is the rounded-up square root of `n`.
pub proof fn lemma_ceil_sqrt_unique(n: int, r: int)
    requires
        is_ceil_sqrt(n, r),
    ensures
        ceil_sqrt(n) == r,
{
    let c = ceil_sqrt(n);
    assert(is_ceil_sqrt(n, c));
    if c < r {
        lemma_square_monotonic(c, r - 1);
    }
    if r < c {
        lemma_square_monotonic(r, c - 1);
    }
}

/// Every integer has a rounded-up square root.
pub proof fn lemma_ceil_sqrt_exists(n: int)
    ensures
        is_ceil_sqrt(n, ceil_sqrt(n)),
    decreases n,
{
    if n <= 0 {
        assert(is_ceil_sqrt(n, 0));
    } else {
        lemma_ceil_sqrt_exists(n - 1);
        let r = ceil_sqrt(n - 1);
        if r * r >= n {
            assert(is_ceil_sqrt(n, r));
        } else {
            assert((r + 1) * (r + 1) >= n && (r + 1 - 1) * (r + 1 - 1) < n) by (nonlinear_arith)
                requires
                    r >= 0,
                    r * r >= n - 1,
                    r * r < n,
            ;
            assert(is_ceil_sqrt(n, r + 1));
        }
    }
}

/// The rounded-up square root is at most every natural number whose square
/// is at least `n`.
pub proof fn lemma_ceil_sqrt_upper(n: int, a: int)
    requires
        0 <= a,
        a * a >= n,
    ensures
        ceil_sqrt(n) <= a,
{
    lemma_ceil_sqrt_exists(n);
    let c = ceil_sqrt(n);
    if a < c {
        lemma_square_monotonic(a, c - 1);
    }
}

/// The rounded-up square root is at least every number whose square is at most `n`.
pub proof fn lemma_ceil_sqrt_lower(n: int, a: int)
    requires
        0 <= a,
        a * a <= n,
    ensures
        a <= ceil_sqrt(n),
{
    lemma_ceil_sqrt_exists(n);
    let c = ceil_sqrt(n);
    if c < a {
        lemma_square_strict(c, a);
    }
}

/// Among natural numbers the strictly greater has the strictly greater square.
proof fn lemma_square_strict(a: int, b: int)
    by (nonlinear_arith)
    requires
        0 <= a < b,
    ensures
        a * a < b * b,
{
}

/// The square root of `n`, rounded up.
pub fn ceil_sqrt_u128(n: u128) -> (r: u128)
    requires
        n <= 0x4000_0000_0000_0000_0000_0000_0000_0000,
    ensures
        is_ceil_sqrt(n as int, r as int),
        r == ceil_sqrt(n as int),
        r <= 0x8000_0000_0000_0000,
{
    let mut lo: u128 = 0;
    let mut hi: u128 = 0x8000_0000_0000_0000;
    assert(hi * hi >= n) by (nonlinear_arith)
        requires
            hi == 0x8000_0000_0000_0000,
            n <= 0x4000_0000_0000_0000_0000_0000_0000_0000,
    ;
    while lo < hi
        invariant
            lo <= hi <= 0x8000_0000_0000_0000,
            hi * hi >= n,
            lo == 0 || (lo - 1) * (lo - 1) < n,
        decreases hi - lo,
    {
        let mid: u128 = lo + (hi - lo) / 2;
        assert(mid * mid <= 0x4000_0000_0000_0000_0000_0000_0000_0000) by (nonlinear_arith)
            requires
                mid <= 0x8000_0000_0000_0000,
        ;
        if mid * mid >= n {
            hi = mid;
        } else {
            lo = mid + 1;
        }
    }
    proof {
        lemma_ceil_sqrt_unique(n as int, lo as int);
    }
    lo
}

/// The quotient of `a` by a positive `b`, rounded toward zero.
pub fn trunc_div_i128(a: i128, b: i128) -> (q: i128)
    requires
        b > 0,
        a > i128::MIN,
    ensures
        q == trunc_div(a as int, b as int),
{
    if a >= 0 {
        a / b
    } else {
        let m: i128 = -a;
        let q: i128 = m / b;
        -q
    }
}

/// A rounded quotient is no larger in magnitude than the exact one.
pub proof fn lemma_trunc_div_bound(a: int, b: int, m: int)
    by (nonlinear_arith)
    requires
        b > 0,
        m >= 0,
        -(m * b) <= a <= m * b,
    ensures
        -m <= trunc_div(a, b) <= m,
        a >= 0 ==> 0 <= trunc_div(a, b) && trunc_div(a, b) * b <= a,
        a <= 0 ==> trunc_div(a, b) <= 0 && trunc_div(a, b) * b >= a,
{
}

/// A quotient that is rounded toward zero to no less than a positive
/// number comes of a dividend of no less than that number times the
/// divisor.
pub proof fn lemma_trunc_div_reach(a: int, d: int, q: int)
    requires
        d > 0,
        q >= 1,
        trunc_div(a, d) >= q,
    ensures
        a >= q * d,
{
    if a >= 0 {
        lemma_fundamental_div_mod(a, d);
        lemma_mod_bound(a, d);
        assert(a >= q * d) by (nonlinear_arith)
            requires
                a == d * (a / d) + a % d,
                0 <= a % d,
                a / d >= q,
                q >= 0,
                d > 0,
        ;
    } else {
        lemma_div_is_ordered(0, -a, d);
        assert(0int / d == 0) by (nonlinear_arith)
            requires
                d > 0,
        ;
    }
}

/// A quotient rounded toward zero grows with the dividend, and is zero for
/// the dividend zero.
pub proof fn lemma_trunc_div_monotonic(a: int, b: int, d: int)
    requires
        d > 0,
    ensures
        a <= b ==> trunc_div(a, d) <= trunc_div(b, d),
        trunc_div(0, d) == 0,
{
    assert(0int / d == 0) by (nonlinear_arith)
        requires
            d > 0,
    ;
    if a <= b {
        if a >= 0 {
            lemma_div_is_ordered(a, b, d);
        } else if b >= 0 {
            lemma_div_is_ordered(0, -a, d);
            lemma_div_is_ordered(0, b, d);
        } else {
            lemma_div_is_ordered(-b, -a, d);
        }
    }
}

} // verus!
