//! Two-dimensional fixed-point vectors and the handful of geometric
//! operations the solver needs: componentwise sums, scaling, length,
//! normalization, the perpendicular, and vector projection.

use crate::fixed::{
    addc, clamped, cmul, dblc, is_sqrt, isqrt128, lemma_sqrt_floor, lemma_sqrt_floor_is, muldiv64,
    negc, sqrt_floor, subc, tdiv, LIM, SCALE,
};
use vstd::arithmetic::div_mod::{lemma_div_is_ordered, lemma_div_multiples_vanish};
use vstd::prelude::*;

verus! {

#[derive(Clone, Copy, Debug, PartialEq, Eq, Structural)]
pub struct Vec2 {
    pub x: i64,
    pub y: i64,
}

/// Both components inside the stored band.
pub open spec fn in_lim(v: Vec2) -> bool {
    &&& -LIM <= v.x <= LIM
    &&& -LIM <= v.y <= LIM
}

/// A clamped scalar, narrowed back to its stored type.
pub open spec fn c64(x: int) -> i64 {
    clamped(x) as i64
}

pub open spec fn vzero() -> Vec2 {
    Vec2 { x: 0, y: 0 }
}

pub open spec fn vplus(a: Vec2, b: Vec2) -> Vec2 {
    Vec2 { x: c64(a.x + b.x), y: c64(a.y + b.y) }
}

pub open spec fn vminus(a: Vec2, b: Vec2) -> Vec2 {
    Vec2 { x: c64(a.x - b.x), y: c64(a.y - b.y) }
}

pub open spec fn vdbl(a: Vec2) -> Vec2 {
    Vec2 { x: c64(2 * a.x), y: c64(2 * a.y) }
}

/// Counter-clockwise perpendicular, `(-y, x)`.
pub open spec fn vperp(a: Vec2) -> Vec2 {
    Vec2 { x: c64(-a.y), y: a.x }
}

/// Componentwise `v * k / d`.
pub open spec fn vmuldiv(a: Vec2, k: int, d: int) -> Vec2 {
    Vec2 { x: c64(cmul(a.x as int, k, d)), y: c64(cmul(a.y as int, k, d)) }
}

/// Scaling by a fixed-point factor.
pub open spec fn vfixmul(a: Vec2, s: int) -> Vec2 {
    vmuldiv(a, s, SCALE as int)
}

pub open spec fn len_sq(v: Vec2) -> int {
    (v.x as int) * (v.x as int) + (v.y as int) * (v.y as int)
}

/// Euclidean length, rounded down to a whole quantum.
pub open spec fn vlen(v: Vec2) -> int {
    sqrt_floor(len_sq(v))
}

pub open spec fn vdot(a: Vec2, b: Vec2) -> int {
    (a.x as int) * (b.x as int) + (a.y as int) * (b.y as int)
}

/// The unit vector along `v`, carrying `SCALE` as unit; meaningful when
/// `vlen(v) >= 1`.
pub open spec fn vnorm(v: Vec2) -> Vec2 {
    Vec2 {
        x: c64(tdiv((v.x as int) * (SCALE as int), vlen(v))),
        y: c64(tdiv((v.y as int) * (SCALE as int), vlen(v))),
    }
}

/// Vector projection of `v` onto the axis `n`: `n * (v . n) / (n . n)`;
/// meaningful when `len_sq(n) >= 1`.
pub open spec fn vproject(v: Vec2, n: Vec2) -> Vec2 {
    Vec2 {
        x: c64(tdiv((n.x as int) * vdot(v, n), len_sq(n))),
        y: c64(tdiv((n.y as int) * vdot(v, n), len_sq(n))),
    }
}

proof fn lemma_sq_nonneg(a: int)
    ensures
        a * a >= 0,
{
    assert(a * a >= 0) by (nonlinear_arith);
}

/// The floor square root of a sum of squares dominates each component.
pub proof fn lemma_len_dominates(v: Vec2)
    requires
        in_lim(v),
    ensures
        vlen(v) >= 0,
        -vlen(v) <= v.x as int <= vlen(v),
        -vlen(v) <= v.y as int <= vlen(v),
        vlen(v) <= 2 * LIM,
{
    lemma_sq_nonneg(v.x as int);
    lemma_sq_nonneg(v.y as int);
    lemma_sqrt_floor(len_sq(v));
    let l = vlen(v);
    assert(is_sqrt(len_sq(v), l));
    assert((l + 1) * (l + 1) == l * l + 2 * l + 1) by (nonlinear_arith);
    assert(-l <= v.x as int <= l && -l <= v.y as int <= l) by (nonlinear_arith)
        requires
            l >= 0,
            (v.x as int) * (v.x as int) <= l * l + 2 * l,
            (v.y as int) * (v.y as int) <= l * l + 2 * l,
    ;
    assert(l <= 2 * LIM) by {
        if l > 2 * LIM {
            assert(l * l > (2 * LIM) * (2 * LIM)) by (nonlinear_arith)
                requires
                    l > 2 * LIM >= 0,
            ;
            assert(len_sq(v) <= 2 * ((LIM as int) * (LIM as int))) by (nonlinear_arith)
                requires
                    -LIM <= v.x as int <= LIM,
                    -LIM <= v.y as int <= LIM,
            ;
        }
    }
}

/// A normalized vector has components no larger than one unit.
pub proof fn lemma_vnorm_small(v: Vec2)
    requires
        in_lim(v),
        vlen(v) >= 1,
    ensures
        -SCALE <= vnorm(v).x as int <= SCALE,
        -SCALE <= vnorm(v).y as int <= SCALE,
{
    lemma_len_dominates(v);
    let l = vlen(v);
    lemma_component_ratio(v.x as int, l);
    lemma_component_ratio(v.y as int, l);
}

/// `|a| <= l` implies `|tdiv(a * SCALE, l)| <= SCALE`.
proof fn lemma_component_ratio(a: int, l: int)
    requires
        l >= 1,
        -l <= a <= l,
    ensures
        -SCALE <= c64(tdiv(a * (SCALE as int), l)) as int <= SCALE,
        -SCALE <= tdiv(a * (SCALE as int), l) <= SCALE,
{
    let s = SCALE as int;
    assert(0 <= a * s <= l * s || 0 <= (-a) * s <= l * s) by (nonlinear_arith)
        requires
            l >= 1,
            -l <= a <= l,
            s >= 1,
    ;
    lemma_div_is_ordered(a * s, l * s, l);
    lemma_div_is_ordered((-a) * s, l * s, l);
    lemma_div_multiples_vanish(s, l);
    assert((l * s) / l == s);
    if a >= 0 {
        vstd::arithmetic::div_mod::lemma_div_pos_is_pos(a * s, l);
        assert((a * s) >= 0) by (nonlinear_arith)
            requires
                a >= 0,
                s >= 1,
        ;
    } else {
        vstd::arithmetic::div_mod::lemma_div_pos_is_pos((-a) * s, l);
        assert(((-a) * s) >= 0) by (nonlinear_arith)
            requires
                a <= 0,
                s >= 1,
        ;
        assert(-(a * s) == (-a) * s) by (nonlinear_arith);
    }
}

impl Vec2 {
    pub fn new(x: i64, y: i64) -> (r: Vec2)
        ensures
            r == (Vec2 { x, y }),
    {
        Vec2 { x, y }
    }

    pub fn zero() -> (r: Vec2)
        ensures
            r == vzero(),
    {
        Vec2 { x: 0, y: 0 }
    }

    pub fn plus(self, o: Vec2) -> (r: Vec2)
        ensures
            r == vplus(self, o),
            in_lim(r),
    {
        Vec2 { x: addc(self.x, o.x), y: addc(self.y, o.y) }
    }

    pub fn minus(self, o: Vec2) -> (r: Vec2)
        ensures
            r == vminus(self, o),
            in_lim(r),
    {
        Vec2 { x: subc(self.x, o.x), y: subc(self.y, o.y) }
    }

    pub fn dbl(self) -> (r: Vec2)
        ensures
            r == vdbl(self),
            in_lim(r),
    {
        Vec2 { x: dblc(self.x), y: dblc(self.y) }
    }

    pub fn perp(self) -> (r: Vec2)
        requires
            in_lim(self),
        ensures
            r == vperp(self),
            in_lim(r),
    {
        Vec2 { x: negc(self.y), y: self.x }
    }

    pub fn muldiv(self, k: i64, d: i64) -> (r: Vec2)
        requires
            d >= 1,
        ensures
            r == vmuldiv(self, k as int, d as int),
            in_lim(r),
    {
        Vec2 { x: muldiv64(self.x, k, d), y: muldiv64(self.y, k, d) }
    }

    pub fn fixmul(self, s: i64) -> (r: Vec2)
        ensures
            r == vfixmul(self, s as int),
            in_lim(r),
    {
        self.muldiv(s, SCALE)
    }

    /// Euclidean length in quanta, exact floor of the true length.
    pub fn length(self) -> (r: i64)
        requires
            in_lim(self),
        ensures
            r as int == vlen(self),
            0 <= r <= 2 * LIM,
    {
        proof {
            lemma_sq_nonneg(self.x as int);
            lemma_sq_nonneg(self.y as int);
            assert((self.x as int) * (self.x as int) <= 0x100000000000000000000000 && (
            self.y as int) * (self.y as int) <= 0x100000000000000000000000) by (nonlinear_arith)
                requires
                    -LIM <= self.x as int <= LIM,
                    -LIM <= self.y as int <= LIM,
                    LIM == 0x4000_0000_0000,
            ;
        }
        let sq: i128 = (self.x as i128) * (self.x as i128) + (self.y as i128) * (self.y as i128);
        let n: u128 = sq as u128;
        let r: u64 = isqrt128(n);
        proof {
            lemma_len_dominates(self);
            lemma_sqrt_floor_is(n as int, r as int);
        }
        r as i64
    }

    /// The unit vector along `self`; callers must have checked the length.
    pub fn normalized(self) -> (r: Vec2)
        requires
            in_lim(self),
            vlen(self) >= 1,
        ensures
            r == vnorm(self),
            -SCALE <= r.x <= SCALE,
            -SCALE <= r.y <= SCALE,
            in_lim(r),
    {
        let l = self.length();
        let r = Vec2 { x: muldiv64(self.x, SCALE, l), y: muldiv64(self.y, SCALE, l) };
        proof {
            lemma_vnorm_small(self);
        }
        r
    }

    /// Vector projection of `self` onto the short axis `n`.
    pub fn project_onto(self, n: Vec2) -> (r: Vec2)
        requires
            in_lim(self),
            -SCALE <= n.x <= SCALE,
            -SCALE <= n.y <= SCALE,
            len_sq(n) >= 1,
        ensures
            r == vproject(self, n),
            in_lim(r),
    {
        proof {
            assert(-0x100000000000000000 <= (self.x as int) * (n.x as int) <= 0x100000000000000000
                && -0x100000000000000000 <= (self.y as int) * (n.y as int) <= 0x100000000000000000
                && 0 <= (n.x as int) * (n.x as int) <= 0x100000 && 0 <= (n.y as int) * (n.y as int)
                <= 0x100000) by (nonlinear_arith)
                requires
                    -LIM <= self.x as int <= LIM,
                    -LIM <= self.y as int <= LIM,
                    -SCALE <= n.x as int <= SCALE,
                    -SCALE <= n.y as int <= SCALE,
                    LIM == 0x4000_0000_0000,
                    SCALE == 1024,
            ;
        }
        let d: i128 = (self.x as i128) * (n.x as i128) + (self.y as i128) * (n.y as i128);
        let nn: i128 = (n.x as i128) * (n.x as i128) + (n.y as i128) * (n.y as i128);
        proof {
            assert(d as int == vdot(self, n));
            assert(nn as int == len_sq(n));
            assert(-0x80000000000000000000 <= (n.x as int) * (d as int) <= 0x80000000000000000000
                && -0x80000000000000000000 <= (n.y as int) * (d as int) <= 0x80000000000000000000)
                by (nonlinear_arith)
                requires
                    -0x200000000000000000 <= d as int <= 0x200000000000000000,
                    -SCALE <= n.x as int <= SCALE,
                    -SCALE <= n.y as int <= SCALE,
                    SCALE == 1024,
            ;
        }
        let qx = crate::fixed::div_q((n.x as i128) * d, nn);
        let qy = crate::fixed::div_q((n.y as i128) * d, nn);
        Vec2 { x: crate::fixed::clamp64(qx), y: crate::fixed::clamp64(qy) }
    }
}

} // verus!

verus! {

/// Normalizing a vector of length at least one quantum never yields the
/// zero vector: its largest component maps to at least one quantum.
pub proof fn lemma_vnorm_nonzero(v: Vec2)
    requires
        in_lim(v),
        vlen(v) >= 1,
    ensures
        vnorm(v) != vzero(),
{
    let l = vlen(v);
    let x = v.x as int;
    let y = v.y as int;
    let s = SCALE as int;
    lemma_len_dominates(v);
    lemma_sq_nonneg(x);
    lemma_sq_nonneg(y);
    lemma_sqrt_floor(len_sq(v));
    assert(is_sqrt(len_sq(v), l));
    assert(len_sq(v) >= 1) by (nonlinear_arith)
        requires
            l >= 1,
            l * l <= len_sq(v),
    ;
    let m = if x >= 0 {
        if y >= 0 {
            if x >= y { x } else { y }
        } else {
            if x >= -y { x } else { -y }
        }
    } else {
        if y >= 0 {
            if -x >= y { -x } else { y }
        } else {
            if -x >= -y { -x } else { -y }
        }
    };
    assert(m >= 1) by (nonlinear_arith)
        requires
            x * x + y * y >= 1,
            m >= x && m >= -x && m >= y && m >= -y,
            len_sq(v) == x * x + y * y,
    ;
    assert(l <= 2 * m) by {
        if l > 2 * m {
            assert(l * l > 4 * (m * m)) by (nonlinear_arith)
                requires
                    l > 2 * m >= 0,
            ;
            assert(x * x + y * y <= 2 * (m * m)) by (nonlinear_arith)
                requires
                    -m <= x <= m,
                    -m <= y <= m,
            ;
            assert(2 * (m * m) <= 4 * (m * m)) by (nonlinear_arith);
            assert(l * l <= len_sq(v));
            assert(false);
        }
    }
    assert(m * s >= l) by (nonlinear_arith)
        requires
            m >= 1,
            s == 1024,
            l <= 2 * m,
    ;
    vstd::arithmetic::div_mod::lemma_div_by_self(l);
    vstd::arithmetic::div_mod::lemma_div_is_ordered(l, m * s, l);
    assert((m * s) / l >= 1);
    if x == m || x == -m {
        assert(x * s == m * s || x * s == -(m * s)) by (nonlinear_arith)
            requires
                x == m || x == -m,
        ;
        assert(tdiv(x * s, l) >= 1 || tdiv(x * s, l) <= -1);
        assert(vnorm(v).x as int == clamped(tdiv(x * s, l)));
        assert(vnorm(v).x != 0);
    } else {
        assert(y == m || y == -m);
        assert(y * s == m * s || y * s == -(m * s)) by (nonlinear_arith)
            requires
                y == m || y == -m,
        ;
        assert(tdiv(y * s, l) >= 1 || tdiv(y * s, l) <= -1);
        assert(vnorm(v).y as int == clamped(tdiv(y * s, l)));
        assert(vnorm(v).y != 0);
    }
}

} // verus!
