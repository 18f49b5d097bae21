//! Saturating fixed-point scalar arithmetic.
//!
//! Every stored quantity of the simulation is an `i64` counting quanta of
//! `1 / SCALE` world units, kept inside `[-LIM, LIM]`.  Intermediate products
//! are computed exactly in `i128`; whatever is stored back is clamped into
//! the representable band, so every operation is total and exactly described
//! by its spec-level mirror.

use vstd::arithmetic::div_mod::*;
use vstd::arithmetic::mul::*;
use vstd::prelude::*;

verus! {

/// One world unit, in quanta.
pub const SCALE: i64 = 1024;

/// Magnitude bound for every stored scalar (2^46 quanta).
pub const LIM: i64 = 0x4000_0000_0000;

/// The circle constant in fixed point: round(pi * SCALE).
pub const FIX_PI: i64 = 3217;

/// Default body radius: nine world units.
pub const DEFAULT_RADIUS: i64 = 9 * 1024;

/// Separation inflation factor against floating sticking, about 1.1.
pub const OVERLAP_FIX: i64 = 1126;

/// Truncating (round-toward-zero) division, the semantics of hardware
/// integer division; defined for `b >= 1`.
pub open spec fn tdiv(a: int, b: int) -> int {
    if a >= 0 {
        a / b
    } else {
        -((-a) / b)
    }
}

/// Saturation into `[-LIM, LIM]`.
pub open spec fn clamped(x: int) -> int {
    if x > LIM {
        LIM as int
    } else if x < -LIM {
        -LIM as int
    } else {
        x
    }
}

/// The one compound scalar operation everything else is built from:
/// `a * b / c`, exact in the wide intermediate, saturated on the way out.
pub open spec fn cmul(a: int, b: int, c: int) -> int {
    clamped(tdiv(a * b, c))
}

/// Truncating division never increases magnitude faster than real division:
/// `|tdiv(a, b)| * b <= |a|`.
pub proof fn lemma_tdiv_mul_le(a: int, b: int)
    requires
        b >= 1,
        a >= 0,
    ensures
        tdiv(a, b) >= 0,
        tdiv(a, b) * b <= a,
{
    lemma_div_pos_is_pos(a, b);
    lemma_fundamental_div_mod(a, b);
    lemma_remainder_lower(a, b);
    lemma_mul_is_commutative(b, a / b);
}

/// Monotonicity of truncating division in the magnitude of the numerator.
pub proof fn lemma_tdiv_abs_le(a: int, b: int, m: int)
    requires
        b >= 1,
        -m <= a <= m,
    ensures
        -(m / b) <= tdiv(a, b) <= m / b,
{
    if a >= 0 {
        lemma_div_is_ordered(a, m, b);
        lemma_div_pos_is_pos(a, b);
    } else {
        lemma_div_is_ordered(-a, m, b);
        lemma_div_pos_is_pos(-a, b);
    }
}

/// Division by a positive divisor does not increase a nonnegative value.
pub proof fn lemma_div_le_self(a: int, b: int)
    requires
        b >= 1,
        a >= 0,
    ensures
        0 <= a / b <= a,
{
    lemma_div_pos_is_pos(a, b);
    lemma_div_nonincreasing(a, b);
}

/// Exact truncating division of a wide intermediate.
pub fn div_q(a: i128, b: i128) -> (r: i128)
    requires
        b >= 1,
        -0x40000000000000000000000000000000 <= a <= 0x40000000000000000000000000000000,
    ensures
        r as int == tdiv(a as int, b as int),
{
    if a >= 0 {
        let q = (a as u128) / (b as u128);
        proof {
            lemma_div_le_self(a as int, b as int);
        }
        q as i128
    } else {
        let m = (-a) as u128;
        let q = m / (b as u128);
        proof {
            lemma_div_le_self(m as int, b as int);
        }
        -(q as i128)
    }
}

/// Saturate a wide intermediate back into a stored scalar.
pub fn clamp64(x: i128) -> (r: i64)
    ensures
        r as int == clamped(x as int),
{
    if x > LIM as i128 {
        LIM
    } else if x < -(LIM as i128) {
        -LIM
    } else {
        x as i64
    }
}

/// `a * b / c`, saturated: the executable form of `cmul`.
pub fn muldiv64(a: i64, b: i64, c: i64) -> (r: i64)
    requires
        c >= 1,
    ensures
        r as int == cmul(a as int, b as int, c as int),
{
    proof {
        assert((a as int) * (b as int) <= 0x40000000000000000000000000000000
            && -0x40000000000000000000000000000000 <= (a as int) * (b as int)) by (nonlinear_arith)
            requires
                -0x8000000000000000 <= a as int <= 0x7FFFFFFFFFFFFFFF,
                -0x8000000000000000 <= b as int <= 0x7FFFFFFFFFFFFFFF,
        ;
    }
    let p = (a as i128) * (b as i128);
    let q = div_q(p, c as i128);
    clamp64(q)
}

/// Saturating addition.
pub fn addc(a: i64, b: i64) -> (r: i64)
    ensures
        r as int == clamped(a + b),
{
    clamp64(a as i128 + b as i128)
}

/// Saturating subtraction.
pub fn subc(a: i64, b: i64) -> (r: i64)
    ensures
        r as int == clamped(a - b),
{
    clamp64(a as i128 - b as i128)
}

/// Saturating negation.
pub fn negc(a: i64) -> (r: i64)
    ensures
        r as int == clamped(-a),
{
    clamp64(-(a as i128))
}

/// Saturating doubling.
pub fn dblc(a: i64) -> (r: i64)
    ensures
        r as int == clamped(2 * a),
{
    clamp64(2 * (a as i128))
}

/// `r` is the integer square root of `n`.
pub open spec fn is_sqrt(n: int, r: int) -> bool {
    &&& 0 <= r
    &&& r * r <= n
    &&& n < (r + 1) * (r + 1)
}

/// The integer square root, as a function; `lemma_sqrt_floor` shows it is
/// defined on every nonnegative argument.
pub closed spec fn sqrt_floor(n: int) -> int {
    choose|r: int| is_sqrt(n, r)
}

pub proof fn lemma_sqrt_unique(n: int, r1: int, r2: int)
    requires
        is_sqrt(n, r1),
        is_sqrt(n, r2),
    ensures
        r1 == r2,
{
    if r1 < r2 {
        assert((r1 + 1) * (r1 + 1) <= r2 * r2) by (nonlinear_arith)
            requires
                0 <= r1 + 1 <= r2,
        ;
    }
    if r2 < r1 {
        assert((r2 + 1) * (r2 + 1) <= r1 * r1) by (nonlinear_arith)
            requires
                0 <= r2 + 1 <= r1,
        ;
    }
}

pub proof fn lemma_sqrt_floor_is(n: int, r: int)
    requires
        is_sqrt(n, r),
    ensures
        sqrt_floor(n) == r,
{
    assert(exists|x: int| is_sqrt(n, x));
    let r2 = choose|x: int| is_sqrt(n, x);
    lemma_sqrt_unique(n, r, r2);
}

pub proof fn lemma_sqrt_floor(n: int)
    requires
        n >= 0,
    ensures
        is_sqrt(n, sqrt_floor(n)),
    decreases n,
{
    if n == 0 {
        assert(is_sqrt(0, 0));
        lemma_sqrt_floor_is(0, 0);
    } else {
        lemma_sqrt_floor(n - 1);
        let r = sqrt_floor(n - 1);
        if (r + 1) * (r + 1) <= n {
            assert(n < (r + 2) * (r + 2)) by (nonlinear_arith)
                requires
                    0 <= r,
                    n <= (r + 1) * (r + 1),
            ;
            assert(is_sqrt(n, r + 1));
            lemma_sqrt_floor_is(n, r + 1);
        } else {
            assert(is_sqrt(n, r));
            lemma_sqrt_floor_is(n, r);
        }
    }
}

/// Executable integer square root by bisection.
pub fn isqrt128(n: u128) -> (r: u64)
    ensures
        is_sqrt(n as int, r as int),
        r as int == sqrt_floor(n as int),
{
    let mut lo: u128 = 0;
    let mut hi: u128 = if n >= 0xFFFF_FFFF_FFFF_FFFF {
        0x1_0000_0000_0000_0000
    } else {
        n + 1
    };
    proof {
        assert((n as int) < (hi as int) * (hi as int)) by (nonlinear_arith)
            requires
                (n >= 0xFFFF_FFFF_FFFF_FFFF && hi == 0x1_0000_0000_0000_0000 && n
                    < 0x1_0000_0000_0000_0000_0000_0000_0000_0000) || (hi == n + 1 && n
                    < 0xFFFF_FFFF_FFFF_FFFF),
        ;
    }
    while lo + 1 < hi
        invariant
            (lo as int) * (lo as int) <= n as int,
            (n as int) < (hi as int) * (hi as int),
            lo < hi,
            hi <= 0x1_0000_0000_0000_0000,
        decreases hi - lo,
    {
        let mid = lo + (hi - lo) / 2;
        proof {
            assert((mid as int) * (mid as int) < 0xFFFFFFFFFFFFFFFFFFFFFFFFFFFFFFFF)
                by (nonlinear_arith)
                requires
                    0 <= (mid as int) < 0x1_0000_0000_0000_0000,
            ;
        }
        let sq = mid * mid;
        if sq <= n {
            lo = mid;
        } else {
            hi = mid;
        }
    }
    proof {
        assert(is_sqrt(n as int, lo as int));
        lemma_sqrt_floor_is(n as int, lo as int);
        assert((lo as int) < 0x1_0000_0000_0000_0000);
    }
    lo as u64
}

} // verus!
