//! Colors, their hue/saturation/lightness form, and the 3-D embedding.
//!
//! `to_hsl` produces exact rationals: lightness is `(max+min)/510`, saturation
//! `delta/min(max+min, 510-(max+min))`, and hue a sixth-of-a-turn fraction
//! with denominator `6*delta`. `from_hsl` is the exact inverse transform on
//! rationals, so converting a color to hue/saturation/lightness and back
//! returns the very same color.
//!
//! The embedding treats hue as an angle and lightness as a radius: a color
//! becomes the point `(l*cos(h), l*sin(h), s)` in fixed point, so similar hues
//! cluster angularly and dark colors cluster near the vertical axis.

use vstd::prelude::*;
use crate::fixed::{
    FP_ONE, abs_spec, abs_i64, clamp_spec, clamp_i64, isqrt, lemma_sqrt_floor_unique, sqrt_floor,
};
use crate::trig::{sin_spec, cos_spec, angle_spec, sin_fp, cos_fp, angle_turns};

verus! {

/// The failures the engine can surface to a caller.
#[derive(Clone, Copy, PartialEq, Eq, Structural, Debug)]
pub enum PaletteError {
    /// An embedded color vector lies outside the valid bounds of the embedding.
    InputRangeViolation,
    /// A sampling density that cannot produce any curve point.
    InvalidSamplingDensity,
}

/// An 8-bit color triple.
#[derive(Clone, Copy, PartialEq, Eq, Hash, Structural, Debug)]
pub struct Color {
    pub r: u8,
    pub g: u8,
    pub b: u8,
}

/// An exact rational number with a positive denominator.
#[derive(Clone, Copy, PartialEq, Eq, Structural, Debug)]
pub struct Ratio {
    pub num: i64,
    pub den: i64,
}

impl Ratio {
    /// Bounds under which all internal arithmetic on rationals stays exact.
    pub open spec fn wf(self) -> bool {
        &&& 0 < self.den <= 0x100000
        &&& -0x1000000 <= self.num <= 0x1000000
    }

    /// The value is within `[0, 1]`.
    pub open spec fn in_unit(self) -> bool {
        0 <= self.num <= self.den
    }

    pub fn new(num: i64, den: i64) -> (r: Ratio)
        requires
            0 < den <= 0x100000,
            -0x1000000 <= num <= 0x1000000,
        ensures
            r == (Ratio { num, den }),
            r.wf(),
    {
        Ratio { num, den }
    }

    /// Round to the nearest fixed-point value at scale `FP_ONE` (half up).
    pub open spec fn to_fp_spec(self) -> int {
        (2 * self.num * FP_ONE + self.den) / (2 * self.den)
    }

    pub fn to_fp(self) -> (r: i64)
        requires
            self.wf(),
            self.in_unit(),
        ensures
            r == self.to_fp_spec(),
            0 <= r <= FP_ONE,
    {
        let n2 = 2 * self.num * FP_ONE + self.den;
        let d2 = 2 * self.den;
        let q = n2 / d2;
        proof {
            assert(n2 <= d2 * 65536 + self.den) by (nonlinear_arith)
                requires
                    n2 == 2 * self.num * 65536 + self.den,
                    d2 == 2 * self.den,
                    self.num <= self.den,
            ;
            assert(q <= FP_ONE) by (nonlinear_arith)
                requires
                    q == (n2 as int) / (d2 as int),
                    n2 <= d2 * 65536 + self.den,
                    2 * self.den == d2,
                    0 < d2,
                    self.den < d2,
            ;
        }
        q
    }
}

pub open spec fn max3_spec(a: int, b: int, c: int) -> int {
    if a >= b {
        if a >= c {
            a
        } else {
            c
        }
    } else {
        if b >= c {
            b
        } else {
            c
        }
    }
}

pub open spec fn min3_spec(a: int, b: int, c: int) -> int {
    if a <= b {
        if a <= c {
            a
        } else {
            c
        }
    } else {
        if b <= c {
            b
        } else {
            c
        }
    }
}

/// The hue numerator over denominator `6 * delta`, for `delta > 0`: the
/// channel that is largest picks the sixth of the turn, as red, green, blue
/// are a third of a turn apart.
pub open spec fn hue_num_spec(r: int, g: int, b: int) -> int {
    let mx = max3_spec(r, g, b);
    let d = mx - min3_spec(r, g, b);
    if mx == r {
        if g >= b {
            g - b
        } else {
            g - b + 6 * d
        }
    } else if mx == g {
        b - r + 2 * d
    } else {
        r - g + 4 * d
    }
}

/// Exact hue/saturation/lightness of a color, as rationals.
pub open spec fn to_hsl_spec(c: Color) -> (Ratio, Ratio, Ratio) {
    let mx = max3_spec(c.r as int, c.g as int, c.b as int);
    let mn = min3_spec(c.r as int, c.g as int, c.b as int);
    let m = mx + mn;
    let d = mx - mn;
    let lum = Ratio { num: m as i64, den: 510 };
    if d == 0 {
        (Ratio { num: 0, den: 1 }, Ratio { num: 0, den: 1 }, lum)
    } else {
        let md = if m <= 510 - m {
            m
        } else {
            510 - m
        };
        (
            Ratio { num: hue_num_spec(c.r as int, c.g as int, c.b as int) as i64, den: (6 * d) as i64 },
            Ratio { num: d as i64, den: md as i64 },
            lum,
        )
    }
}

/// The input is within `[-1/50, 1 + 1/50]`: the tolerance accepted around
/// the unit interval before a range error is reported.
pub open spec fn in_tolerance(v: Ratio) -> bool {
    -v.den <= 50 * v.num <= 51 * v.den
}

/// Clamp a rational into the unit interval.
pub open spec fn clamp_unit_spec(v: Ratio) -> Ratio {
    if v.num < 0 {
        Ratio { num: 0, den: 1 }
    } else if v.num > v.den {
        Ratio { num: 1, den: 1 }
    } else {
        v
    }
}

/// `round(255 * p / q)` clamped into a byte, for `q > 0`.
pub open spec fn byte_round_spec(p: int, q: int) -> int {
    clamp_spec((510 * p + q) / (2 * q), 0, 255)
}

/// Which sixth of the hue circle `hn/hd` falls in; a full turn wraps to 0.
pub open spec fn sextant_spec(hn: int, hd: int) -> int {
    let k = (6 * hn) / hd;
    if k >= 6 {
        0
    } else {
        k
    }
}

/// Position inside the sixth, as a numerator over `hd`.
pub open spec fn sextant_frac_spec(hn: int, hd: int) -> int {
    let k = (6 * hn) / hd;
    if k >= 6 {
        0
    } else {
        6 * hn - k * hd
    }
}

/// The color of unit-interval rationals `(h, s, l)`: chroma
/// `c = (1 - |2l - 1|) * s`, secondary component `x = c * w` with `w` the
/// triangular wave of the hue sixth, offset `m = l - c/2`, channels assembled
/// per sixth and rounded to bytes. All intermediate values are exact
/// numerators over the common denominator `2 * ld * sd * hd * hd`.
pub open spec fn hsl_color_spec(h: Ratio, s: Ratio, l: Ratio) -> Color {
    let hn = h.num as int;
    let hd = h.den as int;
    let sn = s.num as int;
    let sd = s.den as int;
    let ln = l.num as int;
    let ld = l.den as int;
    let k = sextant_spec(hn, hd);
    let f = sextant_frac_spec(hn, hd);
    let a = ld - abs_spec(2 * ln - ld);
    let cq = a * sn * 2 * hd;
    let mqh = (ln * 2 * sd * hd - a * sn * hd) * hd;
    let cqh = cq * hd;
    let xqh = if k % 2 == 0 {
        cq * f
    } else {
        cq * (hd - f)
    };
    let qh = 2 * ld * sd * hd * hd;
    let rp = if k == 0 || k == 5 {
        cqh
    } else if k == 1 || k == 4 {
        xqh
    } else {
        0
    };
    let gp = if k == 1 || k == 2 {
        cqh
    } else if k == 0 || k == 3 {
        xqh
    } else {
        0
    };
    let bp = if k == 3 || k == 4 {
        cqh
    } else if k == 2 || k == 5 {
        xqh
    } else {
        0
    };
    Color {
        r: byte_round_spec(rp + mqh, qh) as u8,
        g: byte_round_spec(gp + mqh, qh) as u8,
        b: byte_round_spec(bp + mqh, qh) as u8,
    }
}

/// The inverse hue/saturation/lightness transform: the color reproduced from
/// the triple, or a range error when an input exceeds the tolerance.
pub open spec fn from_hsl_spec(h: Ratio, s: Ratio, l: Ratio) -> Result<Color, PaletteError> {
    if in_tolerance(h) && in_tolerance(s) && in_tolerance(l) {
        Ok(hsl_color_spec(clamp_unit_spec(h), clamp_unit_spec(s), clamp_unit_spec(l)))
    } else {
        Err(PaletteError::InputRangeViolation)
    }
}

fn clamp_unit(v: Ratio) -> (r: Ratio)
    requires
        v.wf(),
    ensures
        r == clamp_unit_spec(v),
        r.wf(),
        r.in_unit(),
{
    if v.num < 0 {
        Ratio { num: 0, den: 1 }
    } else if v.num > v.den {
        Ratio { num: 1, den: 1 }
    } else {
        v
    }
}

fn byte_round(p: i128, q: i128) -> (r: u8)
    requires
        0 <= p <= 0x80000000000000000000000,
        0 < q <= 0x80000000000000000000000,
    ensures
        r as int == byte_round_spec(p as int, q as int),
{
    let t = (510 * p + q) / (2 * q);
    let c = if t < 0 {
        0
    } else if t > 255 {
        255
    } else {
        t
    };
    c as u8
}

impl Color {
    /// Hue, saturation and lightness of this color, each an exact rational
    /// in `[0, 1]` (hue strictly below 1).
    pub fn to_hsl(&self) -> (hsl: (Ratio, Ratio, Ratio))
        ensures
            hsl == to_hsl_spec(*self),
            hsl.0.wf() && hsl.1.wf() && hsl.2.wf(),
            hsl.0.in_unit() && hsl.1.in_unit() && hsl.2.in_unit(),
            hsl.0.num < hsl.0.den,
    {
        let r = self.r as i64;
        let g = self.g as i64;
        let b = self.b as i64;
        let mx = if r >= g {
            if r >= b {
                r
            } else {
                b
            }
        } else {
            if g >= b {
                g
            } else {
                b
            }
        };
        let mn = if r <= g {
            if r <= b {
                r
            } else {
                b
            }
        } else {
            if g <= b {
                g
            } else {
                b
            }
        };
        let m = mx + mn;
        let d = mx - mn;
        let lum = Ratio { num: m, den: 510 };
        if d == 0 {
            (Ratio { num: 0, den: 1 }, Ratio { num: 0, den: 1 }, lum)
        } else {
            let md = if m <= 510 - m {
                m
            } else {
                510 - m
            };
            let hn = if mx == r {
                if g >= b {
                    g - b
                } else {
                    g - b + 6 * d
                }
            } else if mx == g {
                b - r + 2 * d
            } else {
                r - g + 4 * d
            };
            (Ratio { num: hn, den: 6 * d }, Ratio { num: d, den: md }, lum)
        }
    }

    /// A color with all three channels drawn from the entropy source.
    pub fn random() -> Color {
        let e = crate::rng::entropy_u64();
        Color {
            r: (e % 256) as u8,
            g: ((e / 256) % 256) as u8,
            b: ((e / 65536) % 256) as u8,
        }
    }

    /// The color with the given hue, saturation and lightness, each accepted
    /// within a small tolerance around `[0, 1]` and clamped before conversion;
    /// inputs beyond the tolerance are rejected with a range error.
    pub fn from_hsl(hue: Ratio, sat: Ratio, lum: Ratio) -> (res: Result<Color, PaletteError>)
        requires
            hue.wf(),
            sat.wf(),
            lum.wf(),
        ensures
            res == from_hsl_spec(hue, sat, lum),
            res is Ok <==> in_tolerance(hue) && in_tolerance(sat) && in_tolerance(lum),
    {
        if !(-hue.den <= 50 * hue.num && 50 * hue.num <= 51 * hue.den) {
            return Err(PaletteError::InputRangeViolation);
        }
        if !(-sat.den <= 50 * sat.num && 50 * sat.num <= 51 * sat.den) {
            return Err(PaletteError::InputRangeViolation);
        }
        if !(-lum.den <= 50 * lum.num && 50 * lum.num <= 51 * lum.den) {
            return Err(PaletteError::InputRangeViolation);
        }
        let h = clamp_unit(hue);
        let s = clamp_unit(sat);
        let l = clamp_unit(lum);
        let k6: i64 = (6 * h.num) / h.den;
        assert(0 <= k6 <= 6) by (nonlinear_arith)
            requires
                k6 == (6 * (h.num as int)) / (h.den as int),
                0 <= h.num <= h.den,
                0 < h.den,
        ;
        let k: i64 = if k6 >= 6 {
            0
        } else {
            k6
        };
        assert(k6 < 6 ==> 0 <= 6 * (h.num as int) - k6 * (h.den as int) <= h.den) by (nonlinear_arith)
            requires
                k6 == (6 * (h.num as int)) / (h.den as int),
                0 <= h.num <= h.den,
                0 < h.den,
        ;
        let f64v: i64 = if k6 >= 6 {
            0
        } else {
            6 * h.num - k6 * h.den
        };
        let t2: i64 = 2 * l.num - l.den;
        let at: i64 = abs_i64(t2);
        let a: i64 = l.den - at;
        assert(0 <= a <= 0x100000);
        let hd: i128 = h.den as i128;
        let f: i128 = f64v as i128;
        assert(0 <= (a as int) * (s.num as int) <= 0x10000000000) by (nonlinear_arith)
            requires
                0 <= a <= 0x100000,
                0 <= s.num <= 0x100000,
        ;
        let asn: i128 = (a as i128) * (s.num as i128);
        assert(0 <= (asn as int) * 2 * (hd as int) <= 0x4000000000000000) by (nonlinear_arith)
            requires
                0 <= asn <= 0x10000000000,
                0 < hd <= 0x100000,
        ;
        let cq: i128 = asn * 2 * hd;
        assert(0 <= (l.num as int) * 2 * (s.den as int) <= 0x20000000000) by (nonlinear_arith)
            requires
                0 <= l.num <= 0x100000,
                0 < s.den <= 0x100000,
        ;
        let lsd: i128 = (l.num as i128) * 2 * (s.den as i128);
        assert(0 <= (lsd as int) * (hd as int) <= 0x2000000000000000) by (nonlinear_arith)
            requires
                0 <= lsd <= 0x20000000000,
                0 < hd <= 0x100000,
        ;
        assert(0 <= (asn as int) * (hd as int) <= 0x1000000000000000) by (nonlinear_arith)
            requires
                0 <= asn <= 0x10000000000,
                0 < hd <= 0x100000,
        ;
        let mq: i128 = lsd * hd - asn * hd;
        assert(a <= 2 * l.num);
        assert((a as int) * (s.num as int) <= 2 * (l.num as int) * (s.den as int)) by (nonlinear_arith)
            requires
                0 <= a <= 2 * (l.num as int),
                0 <= s.num <= s.den,
        ;
        assert(mq >= 0) by (nonlinear_arith)
            requires
                mq == (lsd as int) * (hd as int) - (asn as int) * (hd as int),
                lsd == (l.num as int) * 2 * (s.den as int),
                asn == (a as int) * (s.num as int),
                (a as int) * (s.num as int) <= 2 * (l.num as int) * (s.den as int),
                0 < hd,
        ;
        assert(0 <= (mq as int) * (hd as int) <= 0x200000000000000000000) by (nonlinear_arith)
            requires
                0 <= mq <= 0x2000000000000000,
                0 < hd <= 0x100000,
        ;
        let mqh: i128 = mq * hd;
        assert(0 <= (cq as int) * (hd as int) <= 0x400000000000000000000) by (nonlinear_arith)
            requires
                0 <= cq <= 0x4000000000000000,
                0 < hd <= 0x100000,
        ;
        let cqh: i128 = cq * hd;
        let xqh: i128 = if k % 2 == 0 {
            assert(0 <= (cq as int) * (f as int) <= 0x400000000000000000000) by (nonlinear_arith)
                requires
                    0 <= cq <= 0x4000000000000000,
                    0 <= f <= 0x100000,
            ;
            cq * f
        } else {
            assert(0 <= (cq as int) * ((hd as int) - (f as int)) <= 0x400000000000000000000)
                by (nonlinear_arith)
                requires
                    0 <= cq <= 0x4000000000000000,
                    0 <= f <= hd <= 0x100000,
            ;
            cq * (hd - f)
        };
        assert(0 < 2 * (l.den as int) * (s.den as int) <= 0x20000000000) by (nonlinear_arith)
            requires
                0 < l.den <= 0x100000,
                0 < s.den <= 0x100000,
        ;
        let q2: i128 = 2 * (l.den as i128) * (s.den as i128);
        assert(0 < (q2 as int) * (hd as int) <= 0x2000000000000000) by (nonlinear_arith)
            requires
                0 < q2 <= 0x20000000000,
                0 < hd <= 0x100000,
        ;
        let q3: i128 = q2 * hd;
        assert(0 < (q3 as int) * (hd as int) <= 0x200000000000000000000) by (nonlinear_arith)
            requires
                0 < q3 <= 0x2000000000000000,
                0 < hd <= 0x100000,
        ;
        let qh: i128 = q3 * hd;
        let rp: i128 = if k == 0 || k == 5 {
            cqh
        } else if k == 1 || k == 4 {
            xqh
        } else {
            0
        };
        let gp: i128 = if k == 1 || k == 2 {
            cqh
        } else if k == 0 || k == 3 {
            xqh
        } else {
            0
        };
        let bp: i128 = if k == 3 || k == 4 {
            cqh
        } else if k == 2 || k == 5 {
            xqh
        } else {
            0
        };
        let rv = byte_round(rp + mqh, qh);
        let gv = byte_round(gp + mqh, qh);
        let bv = byte_round(bp + mqh, qh);
        Ok(Color { r: rv, g: gv, b: bv })
    }
}

/// The sixth and the in-sixth position of a hue from its Euclidean
/// decomposition.
proof fn lemma_sextant_value(hn: int, hd: int, kk: int, ff: int)
    requires
        0 < hd,
        0 <= ff < hd,
        6 * hn == hd * kk + ff,
        0 <= kk < 6,
    ensures
        sextant_spec(hn, hd) == kk,
        sextant_frac_spec(hn, hd) == ff,
{
    vstd::arithmetic::div_mod::lemma_div_multiples_vanish_fancy(kk, ff, hd);
    assert((6 * hn) / hd == kk);
    assert(kk * hd == hd * kk) by (nonlinear_arith);
}

/// A byte rounds through `byte_round_spec` exactly when numerator and
/// denominator share the factor that scales the byte.
proof fn lemma_byte_round_exact(y: int, v: int)
    requires
        0 < y,
        0 <= v <= 255,
    ensures
        byte_round_spec(y * v, 255 * y) == v,
{
    assert(510 * (y * v) + 255 * y == y * (510 * v + 255)) by (nonlinear_arith);
    assert(2 * (255 * y) == y * 510) by (nonlinear_arith);
    vstd::arithmetic::div_mod::lemma_div_multiples_vanish_quotient(y, 510 * v + 255, 510);
    vstd::arithmetic::div_mod::lemma_div_multiples_vanish_fancy(v, 255, 510);
}

/// Converting a color to hue, saturation and lightness and back returns the
/// very color: the conversions are exact rational inverses, and the final
/// rounding to bytes recovers each channel exactly.
pub proof fn lemma_hsl_round_trip(c: Color)
    ensures
        from_hsl_spec(to_hsl_spec(c).0, to_hsl_spec(c).1, to_hsl_spec(c).2) == Ok::<
            Color,
            PaletteError,
        >(c),
{
    let h = to_hsl_spec(c).0;
    let s = to_hsl_spec(c).1;
    let l = to_hsl_spec(c).2;
    let r = c.r as int;
    let g = c.g as int;
    let b = c.b as int;
    let mx = max3_spec(r, g, b);
    let mn = min3_spec(r, g, b);
    let m = mx + mn;
    let d = mx - mn;
    assert(h.in_unit() && s.in_unit() && l.in_unit());
    assert(in_tolerance(h) && in_tolerance(s) && in_tolerance(l));
    assert(clamp_unit_spec(h) == h && clamp_unit_spec(s) == s && clamp_unit_spec(l) == l);
    if d == 0 {
        let a = 510 - abs_spec(2 * m - 510);
        let mqh = (m * 2 * 1 * 1 - a * 0 * 1) * 1;
        assert(mqh == 2 * m) by (nonlinear_arith)
            requires
                mqh == (m * 2 * 1 * 1 - a * 0 * 1) * 1,
        ;
        assert(a * 0 * 2 * 1 == 0) by (nonlinear_arith);
        assert(2 * 510 * 1 * 1 * 1 == 1020);
        assert(m == 2 * r);
        assert(byte_round_spec(4 * r, 1020) == r) by {
            lemma_byte_round_exact(4, r);
        }
        assert(hsl_color_spec(h, s, l) == c);
    } else {
        let md = if m <= 510 - m {
            m
        } else {
            510 - m
        };
        let hn = hue_num_spec(r, g, b);
        let hd = 6 * d;
        assert(1 <= md <= 509);
        let y = 144 * md * d * d;
        assert(0 < y) by (nonlinear_arith)
            requires
                1 <= md,
                1 <= d,
                y == 144 * md * d * d,
        ;
        let a = 510 - abs_spec(2 * m - 510);
        assert(a == 2 * md);
        let cq = a * d * 2 * hd;
        assert(cq == 24 * md * d * d) by (nonlinear_arith)
            requires
                a == 2 * md,
                hd == 6 * d,
                cq == a * d * 2 * hd,
        ;
        let cqh = cq * hd;
        assert(cqh == y * d) by (nonlinear_arith)
            requires
                cq == 24 * md * d * d,
                hd == 6 * d,
                cqh == cq * hd,
                y == 144 * md * d * d,
        ;
        let mqh = (m * 2 * md * hd - a * d * hd) * hd;
        assert(mqh == y * mn) by (nonlinear_arith)
            requires
                a == 2 * md,
                hd == 6 * d,
                m == 2 * mn + d,
                mqh == (m * 2 * md * hd - a * d * hd) * hd,
                y == 144 * md * d * d,
        ;
        let qh = 2 * 510 * md * hd * hd;
        assert(qh == 255 * y) by (nonlinear_arith)
            requires
                hd == 6 * d,
                qh == 2 * 510 * md * hd * hd,
                y == 144 * md * d * d,
        ;
        let k = sextant_spec(hn, hd);
        let f = sextant_frac_spec(hn, hd);
        if mx == r {
            if g >= b {
                assert(mn == b);
                assert(hn == g - b);
                if g - b < d {
                    assert(6 * hn == hd * 0 + 6 * (g - b)) by (nonlinear_arith)
                        requires
                            hn == g - b,
                    ;
                    lemma_sextant_value(hn, hd, 0, 6 * (g - b));
                    assert(k == 0 && f == 6 * (g - b));
                    let xqh = cq * f;
                    assert(xqh == y * (g - b)) by (nonlinear_arith)
                        requires
                            cq == 24 * md * d * d,
                            f == 6 * (g - b),
                            xqh == cq * f,
                            y == 144 * md * d * d,
                    ;
                    assert(cqh + mqh == y * r) by (nonlinear_arith)
                        requires
                            cqh == y * d,
                            mqh == y * mn,
                            r == d + mn,
                    ;
                    assert(xqh + mqh == y * g) by (nonlinear_arith)
                        requires
                            xqh == y * (g - b),
                            mqh == y * mn,
                            mn == b,
                    ;
                    lemma_byte_round_exact(y, r);
                    lemma_byte_round_exact(y, g);
                    lemma_byte_round_exact(y, b);
                    assert(mqh == y * b);
                    assert(hsl_color_spec(h, s, l) == c);
                } else {
                    assert(g - b == d && g == mx);
                    assert(6 * hn == hd * 1 + 0) by (nonlinear_arith)
                        requires
                            hn == d,
                            hd == 6 * d,
                    ;
                    lemma_sextant_value(hn, hd, 1, 0);
                    assert(k == 1 && f == 0);
                    let xqh = cq * (hd - f);
                    assert(xqh == y * d) by (nonlinear_arith)
                        requires
                            cq == 24 * md * d * d,
                            f == 0,
                            hd == 6 * d,
                            xqh == cq * (hd - f),
                            y == 144 * md * d * d,
                    ;
                    assert(xqh + mqh == y * r && cqh + mqh == y * g && mqh == y * b)
                        by (nonlinear_arith)
                        requires
                            xqh == y * d,
                            cqh == y * d,
                            mqh == y * mn,
                            r == d + mn,
                            g == d + mn,
                            b == mn,
                    ;
                    lemma_byte_round_exact(y, r);
                    lemma_byte_round_exact(y, g);
                    lemma_byte_round_exact(y, b);
                    assert(hsl_color_spec(h, s, l) == c);
                }
            } else {
                assert(mn == g);
                assert(hn == g - b + 6 * d);
                assert(6 * hn == hd * 5 + 6 * (g - b + d)) by (nonlinear_arith)
                    requires
                        hn == g - b + 6 * d,
                        hd == 6 * d,
                ;
                assert(0 <= 6 * (g - b + d) < hd);
                lemma_sextant_value(hn, hd, 5, 6 * (g - b + d));
                assert(k == 5 && f == 6 * (g - b + d));
                let xqh = cq * (hd - f);
                assert(xqh == y * (b - g)) by (nonlinear_arith)
                    requires
                        cq == 24 * md * d * d,
                        f == 6 * (g - b + d),
                        hd == 6 * d,
                        xqh == cq * (hd - f),
                        y == 144 * md * d * d,
                ;
                assert(cqh + mqh == y * r && mqh == y * g && xqh + mqh == y * b)
                    by (nonlinear_arith)
                    requires
                        xqh == y * (b - g),
                        cqh == y * d,
                        mqh == y * mn,
                        r == d + mn,
                        mn == g,
                ;
                lemma_byte_round_exact(y, r);
                lemma_byte_round_exact(y, g);
                lemma_byte_round_exact(y, b);
                assert(hsl_color_spec(h, s, l) == c);
            }
        } else if mx == g {
            assert(hn == b - r + 2 * d);
            if b < r {
                assert(mn == b);
                assert(6 * hn == hd * 1 + 6 * (hn - d)) by (nonlinear_arith)
                    requires
                        hd == 6 * d,
                ;
                assert(0 <= 6 * (hn - d) < hd);
                lemma_sextant_value(hn, hd, 1, 6 * (hn - d));
                assert(k == 1 && f == 6 * (hn - d));
                let xqh = cq * (hd - f);
                assert(xqh == y * (r - b)) by (nonlinear_arith)
                    requires
                        cq == 24 * md * d * d,
                        f == 6 * (hn - d),
                        hn == b - r + 2 * d,
                        hd == 6 * d,
                        xqh == cq * (hd - f),
                        y == 144 * md * d * d,
                ;
                assert(xqh + mqh == y * r && cqh + mqh == y * g && mqh == y * b)
                    by (nonlinear_arith)
                    requires
                        xqh == y * (r - b),
                        cqh == y * d,
                        mqh == y * mn,
                        g == d + mn,
                        mn == b,
                ;
                lemma_byte_round_exact(y, r);
                lemma_byte_round_exact(y, g);
                lemma_byte_round_exact(y, b);
                assert(hsl_color_spec(h, s, l) == c);
            } else if b - r < d {
                assert(mn == r);
                assert(6 * hn == hd * 2 + 6 * (b - r)) by (nonlinear_arith)
                    requires
                        hn == b - r + 2 * d,
                        hd == 6 * d,
                ;
                lemma_sextant_value(hn, hd, 2, 6 * (b - r));
                assert(k == 2 && f == 6 * (b - r));
                let xqh = cq * f;
                assert(xqh == y * (b - r)) by (nonlinear_arith)
                    requires
                        cq == 24 * md * d * d,
                        f == 6 * (b - r),
                        xqh == cq * f,
                        y == 144 * md * d * d,
                ;
                assert(mqh == y * r && cqh + mqh == y * g && xqh + mqh == y * b)
                    by (nonlinear_arith)
                    requires
                        xqh == y * (b - r),
                        cqh == y * d,
                        mqh == y * mn,
                        g == d + mn,
                        mn == r,
                ;
                lemma_byte_round_exact(y, r);
                lemma_byte_round_exact(y, g);
                lemma_byte_round_exact(y, b);
                assert(hsl_color_spec(h, s, l) == c);
            } else {
                assert(b - r == d && mn == r && b == mx);
                assert(6 * hn == hd * 3 + 0) by (nonlinear_arith)
                    requires
                        hn == 3 * d,
                        hd == 6 * d,
                ;
                lemma_sextant_value(hn, hd, 3, 0);
                assert(k == 3 && f == 0);
                let xqh = cq * (hd - f);
                assert(xqh == y * d) by (nonlinear_arith)
                    requires
                        cq == 24 * md * d * d,
                        f == 0,
                        hd == 6 * d,
                        xqh == cq * (hd - f),
                        y == 144 * md * d * d,
                ;
                assert(mqh == y * r && xqh + mqh == y * g && cqh + mqh == y * b)
                    by (nonlinear_arith)
                    requires
                        xqh == y * d,
                        cqh == y * d,
                        mqh == y * mn,
                        g == d + mn,
                        b == d + mn,
                        mn == r,
                ;
                lemma_byte_round_exact(y, r);
                lemma_byte_round_exact(y, g);
                lemma_byte_round_exact(y, b);
                assert(hsl_color_spec(h, s, l) == c);
            }
        } else {
            assert(mx == b);
            assert(hn == r - g + 4 * d);
            if r < g {
                assert(mn == r);
                assert(6 * hn == hd * 3 + 6 * (hn - 3 * d)) by (nonlinear_arith)
                    requires
                        hd == 6 * d,
                ;
                assert(0 <= 6 * (hn - 3 * d) < hd);
                lemma_sextant_value(hn, hd, 3, 6 * (hn - 3 * d));
                assert(k == 3 && f == 6 * (hn - 3 * d));
                let xqh = cq * (hd - f);
                assert(xqh == y * (g - r)) by (nonlinear_arith)
                    requires
                        cq == 24 * md * d * d,
                        f == 6 * (hn - 3 * d),
                        hn == r - g + 4 * d,
                        hd == 6 * d,
                        xqh == cq * (hd - f),
                        y == 144 * md * d * d,
                ;
                assert(mqh == y * r && xqh + mqh == y * g && cqh + mqh == y * b)
                    by (nonlinear_arith)
                    requires
                        xqh == y * (g - r),
                        cqh == y * d,
                        mqh == y * mn,
                        b == d + mn,
                        mn == r,
                ;
                lemma_byte_round_exact(y, r);
                lemma_byte_round_exact(y, g);
                lemma_byte_round_exact(y, b);
                assert(hsl_color_spec(h, s, l) == c);
            } else if r - g < d {
                assert(mn == g);
                assert(6 * hn == hd * 4 + 6 * (r - g)) by (nonlinear_arith)
                    requires
                        hn == r - g + 4 * d,
                        hd == 6 * d,
                ;
                lemma_sextant_value(hn, hd, 4, 6 * (r - g));
                assert(k == 4 && f == 6 * (r - g));
                let xqh = cq * f;
                assert(xqh == y * (r - g)) by (nonlinear_arith)
                    requires
                        cq == 24 * md * d * d,
                        f == 6 * (r - g),
                        xqh == cq * f,
                        y == 144 * md * d * d,
                ;
                assert(xqh + mqh == y * r && mqh == y * g && cqh + mqh == y * b)
                    by (nonlinear_arith)
                    requires
                        xqh == y * (r - g),
                        cqh == y * d,
                        mqh == y * mn,
                        b == d + mn,
                        mn == g,
                ;
                lemma_byte_round_exact(y, r);
                lemma_byte_round_exact(y, g);
                lemma_byte_round_exact(y, b);
                assert(hsl_color_spec(h, s, l) == c);
            } else {
                assert(r - g == d && mn == g && r == mx);
                assert(6 * hn == hd * 5 + 0) by (nonlinear_arith)
                    requires
                        hn == 5 * d,
                        hd == 6 * d,
                ;
                lemma_sextant_value(hn, hd, 5, 0);
                assert(k == 5 && f == 0);
                let xqh = cq * (hd - f);
                assert(xqh == y * d) by (nonlinear_arith)
                    requires
                        cq == 24 * md * d * d,
                        f == 0,
                        hd == 6 * d,
                        xqh == cq * (hd - f),
                        y == 144 * md * d * d,
                ;
                assert(cqh + mqh == y * r && mqh == y * g && xqh + mqh == y * b)
                    by (nonlinear_arith)
                    requires
                        xqh == y * d,
                        cqh == y * d,
                        mqh == y * mn,
                        r == d + mn,
                        b == d + mn,
                        mn == g,
                ;
                lemma_byte_round_exact(y, r);
                lemma_byte_round_exact(y, g);
                lemma_byte_round_exact(y, b);
                assert(hsl_color_spec(h, s, l) == c);
            }
        }
    }
}

/// A three-component vector in signed fixed point at scale `FP_ONE`.
#[derive(Clone, Copy, PartialEq, Eq, Structural, Debug)]
pub struct Vec3A {
    pub x: i64,
    pub y: i64,
    pub z: i64,
}

impl Vec3A {
    /// Within the valid range of the embedding: the horizontal pair in
    /// `[-1, 1]`^2, the vertical component in `[0, 1]`.
    pub open spec fn wf(self) -> bool {
        &&& -FP_ONE <= self.x <= FP_ONE
        &&& -FP_ONE <= self.y <= FP_ONE
        &&& 0 <= self.z <= FP_ONE
    }

    pub fn new(x: i64, y: i64, z: i64) -> (v: Vec3A)
        ensures
            v == (Vec3A { x, y, z }),
    {
        Vec3A { x, y, z }
    }

    /// Length of the horizontal pair, rounded down.
    pub open spec fn len_xy_spec(self) -> int {
        sqrt_floor((self.x * self.x + self.y * self.y) as nat) as int
    }

    pub fn len_xy(self) -> (r: i64)
        requires
            self.wf(),
        ensures
            r == self.len_xy_spec(),
            0 <= r <= 92682,
    {
        assert(0 <= self.x * self.x <= 65536 * 65536) by (nonlinear_arith)
            requires
                -65536 <= self.x <= 65536,
        ;
        assert(0 <= self.y * self.y <= 65536 * 65536) by (nonlinear_arith)
            requires
                -65536 <= self.y <= 65536,
        ;
        let sq = (self.x * self.x + self.y * self.y) as u64;
        let len_u = isqrt(sq);
        assert(len_u <= 92682) by (nonlinear_arith)
            requires
                len_u * len_u <= 2 * 65536 * 65536,
        ;
        len_u as i64
    }
}

/// The embedding of a hue/saturation/lightness triple: hue is an angle,
/// lightness a radius, saturation the vertical component.
pub open spec fn to_vec3a_spec(hue: Ratio, sat: Ratio, lum: Ratio) -> Vec3A {
    let hf = hue.to_fp_spec();
    let lf = lum.to_fp_spec();
    let sf = sat.to_fp_spec();
    let c = cos_spec(hf);
    let s = sin_spec(hf);
    let x = if c < 0 {
        -((lf * -c) / (FP_ONE as int))
    } else {
        (lf * c) / (FP_ONE as int)
    };
    let y = if s < 0 {
        -((lf * -s) / (FP_ONE as int))
    } else {
        (lf * s) / (FP_ONE as int)
    };
    Vec3A { x: x as i64, y: y as i64, z: sf as i64 }
}

/// The inverse of the embedding: the angle of the horizontal pair as hue,
/// its length (capped at 1) as lightness, the vertical component clamped
/// into `[0, 1]` as saturation.
pub open spec fn vec3a_to_hsl_spec(v: Vec3A) -> (Ratio, Ratio, Ratio) {
    let hue = angle_spec(v.x as int, v.y as int);
    let len = sqrt_floor((v.x * v.x + v.y * v.y) as nat) as int;
    let lum = if len > FP_ONE {
        FP_ONE as int
    } else {
        len
    };
    let sat = clamp_spec(v.z as int, 0, FP_ONE as int);
    (
        Ratio { num: hue as i64, den: FP_ONE },
        Ratio { num: sat as i64, den: FP_ONE },
        Ratio { num: lum as i64, den: FP_ONE },
    )
}

/// The fixed-point value of a unit-interval rational stays in `[0, FP_ONE]`.
proof fn lemma_to_fp_unit(v: Ratio)
    requires
        v.wf(),
        v.in_unit(),
    ensures
        0 <= v.to_fp_spec() <= FP_ONE,
{
    let n2 = 2 * (v.num as int) * (FP_ONE as int) + v.den;
    let d2 = 2 * (v.den as int);
    assert(0 <= n2) by (nonlinear_arith)
        requires
            0 <= v.num,
            0 < v.den,
            n2 == 2 * (v.num as int) * 65536 + v.den,
    ;
    vstd::arithmetic::div_mod::lemma_div_pos_is_pos(n2, d2);
    assert(n2 <= d2 * 65536 + v.den) by (nonlinear_arith)
        requires
            n2 == 2 * (v.num as int) * 65536 + v.den,
            d2 == 2 * (v.den as int),
            v.num <= v.den,
    ;
    assert(n2 / d2 <= FP_ONE) by (nonlinear_arith)
        requires
            n2 <= d2 * 65536 + v.den,
            2 * (v.den as int) == d2,
            0 < d2,
            v.den < d2,
    ;
}

/// The saturation leg of the embedding round trip, exact: the saturation
/// recovered from the embedded vector of a unit triple is precisely the
/// fixed-point value of the saturation that was embedded. The hue and
/// lightness legs go through the circular approximations and carry a small
/// tolerance instead.
pub proof fn lemma_embed_unembed_sat(hue: Ratio, sat: Ratio, lum: Ratio)
    requires
        hue.wf() && hue.in_unit(),
        sat.wf() && sat.in_unit(),
        lum.wf() && lum.in_unit(),
    ensures
        vec3a_to_hsl_spec(to_vec3a_spec(hue, sat, lum)).1 == (Ratio {
            num: sat.to_fp_spec() as i64,
            den: FP_ONE,
        }),
{
    lemma_to_fp_unit(sat);
}

/// The lightness leg of the embedding round trip, exact at zero hue: the
/// cosine is exact there, so the horizontal pair is `(l, 0)` and its length
/// is recovered without loss. At other hues the legs go through the
/// circular approximations and carry a small tolerance.
pub proof fn lemma_embed_unembed_lum_at_zero_hue(sat: Ratio, lum: Ratio)
    requires
        sat.wf() && sat.in_unit(),
        lum.wf() && lum.in_unit(),
    ensures
        vec3a_to_hsl_spec(to_vec3a_spec(Ratio { num: 0, den: 1 }, sat, lum)).2 == (Ratio {
            num: lum.to_fp_spec() as i64,
            den: FP_ONE,
        }),
{
    let hue = Ratio { num: 0, den: 1 };
    lemma_to_fp_unit(lum);
    assert(hue.to_fp_spec() == 0) by {
        assert(2 * (hue.num as int) * (FP_ONE as int) + (hue.den as int) == 1) by (nonlinear_arith)
            requires
                hue.num == 0,
                hue.den == 1,
        ;
        assert(1int / (2 * (hue.den as int)) == 0) by (nonlinear_arith)
            requires
                hue.den == 1,
        ;
    }
    let lf = lum.to_fp_spec();
    assert(cos_spec(0) == FP_ONE) by {
        assert(16384int % 65536 == 16384);
        assert(16384int * (65536 - 2 * 16384) == 536870912) by (nonlinear_arith);
        assert(32int * 536870912 * 65536 == 1125899906842624) by (nonlinear_arith);
        assert(5int * 65536 * 65536 - 8 * 536870912 == 17179869184) by (nonlinear_arith);
        assert(1125899906842624int / 17179869184int == 65536) by (nonlinear_arith);
    }
    assert(sin_spec(0) == 0) by {
        assert(0int % 65536 == 0);
        assert(0int * (65536 - 2 * 0) == 0) by (nonlinear_arith);
        assert(32int * 0 * 65536 == 0) by (nonlinear_arith);
        assert(0int / (5int * 65536 * 65536 - 8 * 0) == 0) by (nonlinear_arith);
    }
    let v = to_vec3a_spec(hue, sat, lum);
    assert(v.x == lf) by {
        assert((lf * 65536) / 65536 == lf) by {
            assert(lf * 65536 == 65536 * lf) by (nonlinear_arith);
            vstd::arithmetic::div_mod::lemma_div_multiples_vanish(lf, 65536);
        }
    }
    assert(v.y == 0) by {
        assert((lf * 0) / 65536 == 0) by (nonlinear_arith);
    }
    assert(v.x * v.x + v.y * v.y == lf * lf) by (nonlinear_arith)
        requires
            v.x == lf,
            v.y == 0,
    ;
    assert(0 <= lf * lf && lf * lf < (lf + 1) * (lf + 1)) by (nonlinear_arith)
        requires
            0 <= lf,
    ;
    lemma_sqrt_floor_unique((lf * lf) as nat, lf as nat);
}

impl Color {
    /// The embedded vector of a hue/saturation/lightness triple, each a
    /// unit-interval rational.
    pub fn to_vec3a(hue: Ratio, sat: Ratio, lum: Ratio) -> (v: Vec3A)
        requires
            hue.wf() && hue.in_unit(),
            sat.wf() && sat.in_unit(),
            lum.wf() && lum.in_unit(),
        ensures
            v == to_vec3a_spec(hue, sat, lum),
            v.wf(),
    {
        let hf = hue.to_fp();
        let lf = lum.to_fp();
        let sf = sat.to_fp();
        let c = cos_fp(hf);
        let s = sin_fp(hf);
        let ca = abs_i64(c);
        let sa = abs_i64(s);
        assert(0 <= lf * ca <= 65536 * 65536) by (nonlinear_arith)
            requires
                0 <= lf <= 65536,
                0 <= ca <= 65536,
        ;
        assert(0 <= lf * sa <= 65536 * 65536) by (nonlinear_arith)
            requires
                0 <= lf <= 65536,
                0 <= sa <= 65536,
        ;
        let xm = (lf * ca) / FP_ONE;
        let ym = (lf * sa) / FP_ONE;
        let x = if c < 0 {
            -xm
        } else {
            xm
        };
        let y = if s < 0 {
            -ym
        } else {
            ym
        };
        Vec3A { x, y, z: sf }
    }

    /// The hue/saturation/lightness triple recovered from an embedded vector,
    /// each a unit-interval rational over `FP_ONE` (hue strictly below 1).
    pub fn vec3a_to_hsl(v: Vec3A) -> (hsl: (Ratio, Ratio, Ratio))
        requires
            v.wf(),
        ensures
            hsl == vec3a_to_hsl_spec(v),
            hsl.0.wf() && hsl.1.wf() && hsl.2.wf(),
            hsl.0.in_unit() && hsl.1.in_unit() && hsl.2.in_unit(),
            hsl.0.num < hsl.0.den,
    {
        let hue = angle_turns(v.x, v.y);
        assert(0 <= v.x * v.x <= 65536 * 65536) by (nonlinear_arith)
            requires
                -65536 <= v.x <= 65536,
        ;
        assert(0 <= v.y * v.y <= 65536 * 65536) by (nonlinear_arith)
            requires
                -65536 <= v.y <= 65536,
        ;
        let sq = (v.x * v.x + v.y * v.y) as u64;
        let len_u = isqrt(sq);
        assert(len_u <= 131072) by (nonlinear_arith)
            requires
                len_u * len_u <= 2 * 65536 * 65536,
        ;
        let len = len_u as i64;
        let lum = if len > FP_ONE {
            FP_ONE
        } else {
            len
        };
        let sat = clamp_i64(v.z, 0, FP_ONE);
        (
            Ratio { num: hue, den: FP_ONE },
            Ratio { num: sat, den: FP_ONE },
            Ratio { num: lum, den: FP_ONE },
        )
    }
}

} // verus!
