//! Fixed-point circular functions.
//!
//! Angles are measured in turns at the `FP_ONE` scale: `FP_ONE` units make one
//! full revolution. The sine is a rational approximation, exact at the
//! quarter-turn points; the arctangent is a quadratic
//! approximation assembled per octant. All functions are total integer
//! computations, so each executable function returns exactly what its spec
//! function states.

use vstd::prelude::*;
use crate::fixed::{FP_HALF, FP_ONE, FP_QUARTER, abs_spec, abs_i64, isqrt, sqrt_floor};

verus! {

/// Slope of the arctangent approximation at zero: an eighth of a turn.
pub const ATAN_LIN: i64 = 8192;

/// Curvature coefficient of the arctangent approximation.
pub const ATAN_CURVE: i64 = 2848;

/// Sine over the first half turn; `u` in `[0, FP_HALF]`, result in `[0, FP_ONE]`.
pub open spec fn sin_half_spec(u: int) -> int {
    let p = u * (FP_ONE - 2 * u);
    (32 * p * FP_ONE) / (5 * FP_ONE * FP_ONE - 8 * p)
}

/// Sine of a non-negative angle in turns, result in `[-FP_ONE, FP_ONE]`.
pub open spec fn sin_spec(a: int) -> int {
    let q = a % (FP_ONE as int);
    if q <= FP_HALF {
        sin_half_spec(q)
    } else {
        -sin_half_spec(q - FP_HALF)
    }
}

/// Cosine of a non-negative angle in turns.
pub open spec fn cos_spec(a: int) -> int {
    sin_spec(a + FP_QUARTER)
}

pub fn sin_fp(a: i64) -> (r: i64)
    requires
        0 <= a,
    ensures
        r == sin_spec(a as int),
        -FP_ONE <= r <= FP_ONE,
{
    let q = a % FP_ONE;
    let u = if q <= FP_HALF {
        q
    } else {
        q - FP_HALF
    };
    assert(0 <= u <= FP_HALF);
    let f = FP_ONE - 2 * u;
    assert(u * f <= 536870912 && 0 <= u * f) by (nonlinear_arith)
        requires
            0 <= u <= 32768,
            f == 65536 - 2 * u,
    ;
    let p = u * f;
    let num = 32 * p * FP_ONE;
    let den = 5 * FP_ONE * FP_ONE - 8 * p;
    let s = num / den;
    assert(num <= den * 65536) by (nonlinear_arith)
        requires
            0 <= p <= 536870912,
            num == 32 * p * 65536,
            den == 5 * 65536 * 65536 - 8 * p,
    ;
    assert(s <= FP_ONE) by (nonlinear_arith)
        requires
            num <= den * 65536,
            0 < den,
            s == num / den,
    ;
    assert(s == sin_half_spec(u as int));
    if q <= FP_HALF {
        s
    } else {
        -s
    }
}

pub fn cos_fp(a: i64) -> (r: i64)
    requires
        0 <= a <= 0x7fffffffffff0000,
    ensures
        r == cos_spec(a as int),
        -FP_ONE <= r <= FP_ONE,
{
    sin_fp(a + FP_QUARTER)
}

/// Arctangent of `z / FP_ONE` in turns for `z` in `[0, FP_ONE]`;
/// result in `[0, ATAN_LIN]` (an eighth of a turn at the ends).
pub open spec fn atan_unit_spec(z: int) -> int {
    let c = (ATAN_CURVE * z * (FP_ONE - z)) / (FP_ONE as int);
    (ATAN_LIN * z + c) / (FP_ONE as int)
}

pub fn atan_unit(z: i64) -> (r: i64)
    requires
        0 <= z <= FP_ONE,
    ensures
        r == atan_unit_spec(z as int),
        0 <= r <= ATAN_LIN,
{
    let w = FP_ONE - z;
    assert(0 <= ATAN_CURVE * z * w <= 0x40000000000) by (nonlinear_arith)
        requires
            0 <= z <= 65536,
            w == 65536 - z,
    ;
    let c = (ATAN_CURVE * z * w) / FP_ONE;
    assert(ATAN_CURVE * z * w <= 8192 * w * 65536) by (nonlinear_arith)
        requires
            0 <= z <= 65536,
            w == 65536 - z,
    ;
    assert(c <= 8192 * w) by (nonlinear_arith)
        requires
            c == (2848 * z * w) / 65536,
            2848 * z * w <= 8192 * w * 65536,
            0 <= w,
    ;
    let r = (ATAN_LIN * z + c) / FP_ONE;
    assert(r <= ATAN_LIN) by (nonlinear_arith)
        requires
            r == (8192 * z + c) / 65536,
            c <= 8192 * (65536 - z),
            0 <= c,
            z <= 65536,
    ;
    r
}

/// First-quadrant angle of the point `(ax, ay)` in turns, for `ax, ay >= 0`,
/// not both zero; result in `[0, FP_QUARTER]`.
pub open spec fn octant_spec(ax: int, ay: int) -> int {
    if ay <= ax {
        atan_unit_spec((ay * FP_ONE) / ax)
    } else {
        FP_QUARTER - atan_unit_spec((ax * FP_ONE) / ay)
    }
}

/// Angle of the point `(x, y)` in turns, in `[0, FP_ONE)`; zero for the origin.
pub open spec fn angle_spec(x: int, y: int) -> int {
    if x == 0 && y == 0 {
        0
    } else {
        let ax = abs_spec(x);
        let ay = abs_spec(y);
        if x >= 0 && y >= 0 {
            octant_spec(ax, ay)
        } else if x < 0 && y >= 0 {
            FP_HALF - octant_spec(ax, ay)
        } else if x < 0 {
            FP_HALF + octant_spec(ax, ay)
        } else {
            let t = octant_spec(ax, ay);
            if t == 0 {
                0
            } else {
                FP_ONE - t
            }
        }
    }
}

fn octant(ax: i64, ay: i64) -> (r: i64)
    requires
        0 <= ax <= 0x100000000,
        0 <= ay <= 0x100000000,
        ax != 0 || ay != 0,
    ensures
        r == octant_spec(ax as int, ay as int),
        0 <= r <= FP_QUARTER,
{
    if ay <= ax {
        let z = (ay * FP_ONE) / ax;
        assert(ay * 65536 <= ax * 65536) by (nonlinear_arith)
            requires
                0 <= ay <= ax,
        ;
        assert(z <= 65536) by (nonlinear_arith)
            requires
                z == ((ay as int) * 65536) / (ax as int),
                ay * 65536 <= ax * 65536,
                0 < ax,
        ;
        atan_unit(z)
    } else {
        let z = (ax * FP_ONE) / ay;
        assert(ax * 65536 <= ay * 65536) by (nonlinear_arith)
            requires
                0 <= ax <= ay,
        ;
        assert(z <= 65536) by (nonlinear_arith)
            requires
                z == ((ax as int) * 65536) / (ay as int),
                ax * 65536 <= ay * 65536,
                0 < ay,
        ;
        FP_QUARTER - atan_unit(z)
    }
}

pub fn angle_turns(x: i64, y: i64) -> (r: i64)
    requires
        -0x100000000 <= x <= 0x100000000,
        -0x100000000 <= y <= 0x100000000,
    ensures
        r == angle_spec(x as int, y as int),
        0 <= r < FP_ONE,
{
    if x == 0 && y == 0 {
        return 0;
    }
    let ax = abs_i64(x);
    let ay = abs_i64(y);
    let t = octant(ax, ay);
    if x >= 0 && y >= 0 {
        t
    } else if x < 0 && y >= 0 {
        FP_HALF - t
    } else if x < 0 {
        FP_HALF + t
    } else {
        if t == 0 {
            0
        } else {
            FP_ONE - t
        }
    }
}

/// `|asin(d / FP_ONE)| / pi` at the `FP_ONE` scale, for `|d| <= FP_ONE`;
/// result in `[0, FP_HALF]`.
pub open spec fn asin_norm_spec(d: int) -> int {
    let ad = abs_spec(d);
    let s2 = sqrt_floor((FP_ONE * FP_ONE - ad * ad) as nat) as int;
    if s2 == 0 {
        FP_HALF as int
    } else if ad <= s2 {
        2 * atan_unit_spec((ad * FP_ONE) / s2)
    } else {
        2 * (FP_QUARTER - atan_unit_spec((s2 * FP_ONE) / ad))
    }
}

pub fn asin_norm(d: i64) -> (r: i64)
    requires
        -FP_ONE <= d <= FP_ONE,
    ensures
        r == asin_norm_spec(d as int),
        0 <= r <= FP_HALF,
{
    let ad = abs_i64(d);
    assert(0 <= ad * ad <= 65536 * 65536) by (nonlinear_arith)
        requires
            0 <= ad <= 65536,
    ;
    let sq = (FP_ONE * FP_ONE - ad * ad) as u64;
    let s2u = isqrt(sq);
    assert(s2u * s2u <= 65536 * 65536);
    assert(s2u <= 65536) by (nonlinear_arith)
        requires
            s2u * s2u <= 65536 * 65536,
    ;
    let s2 = s2u as i64;
    if s2 == 0 {
        FP_HALF
    } else if ad <= s2 {
        let z = (ad * FP_ONE) / s2;
        assert(ad * 65536 <= s2 * 65536) by (nonlinear_arith)
            requires
                0 <= ad <= s2,
        ;
        assert(z <= 65536) by (nonlinear_arith)
            requires
                z == ((ad as int) * 65536) / (s2 as int),
                ad * 65536 <= s2 * 65536,
                0 < s2,
        ;
        2 * atan_unit(z)
    } else {
        let z = (s2 * FP_ONE) / ad;
        assert(s2 * 65536 <= ad * 65536) by (nonlinear_arith)
            requires
                0 <= s2 <= ad,
        ;
        assert(z <= 65536) by (nonlinear_arith)
            requires
                z == ((s2 as int) * 65536) / (ad as int),
                s2 * 65536 <= ad * 65536,
                0 < ad,
        ;
        2 * (FP_QUARTER - atan_unit(z))
    }
}

} // verus!
