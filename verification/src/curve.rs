//! The parametric palette curve and its error metric.
//!
//! A curve is a scalar parameter set; sampling it at a position `t` in
//! `[0, 1]` yields a point of the embedding space. The angular position is
//! scaled by an explicit jitter factor in `[0.5, 1.5)`, which callers derive
//! from a seed per position (see [`crate::rng`]), so that a fitting run is
//! reproducible; drawing the factor from fresh entropy instead recovers the
//! textured, nondeterministic variant. The vertical component follows the
//! sampling position directly.
//!
//! The error metric weighs an angular hue mismatch most, then the length
//! difference of the horizontal pairs, then the vertical difference. The hue
//! term takes the arcsine of the dot product of the normalized horizontal
//! pairs, so two aligned directions score half, orthogonal ones zero; a
//! zero-length horizontal pair scores zero, the angle being undefined there.

use vstd::prelude::*;
use crate::fixed::{
    FP_HALF, FP_ONE, abs_spec, abs_i64, clamp_spec, clamp_i64, floor_div, lemma_mul_fp_bound,
    mul_fp, mul_fp_spec,
};
use crate::trig::{asin_norm, asin_norm_spec, cos_fp, cos_spec, sin_fp, sin_spec};
use crate::color::Vec3A;
use crate::rng::{jitter_at, jitter_spec};

verus! {

/// Largest accepted sampling density.
pub const MAX_POINTS: usize = 65536;

/// A parametric palette curve: a radius built from two sine terms swept
/// around the vertical axis `harmonic` times, scaled by `amplitude`.
/// All scalar fields are fixed-point values; the phases and the harmonic
/// count are measured in turns.
#[derive(Clone, Copy, PartialEq, Eq, Structural, Debug)]
pub struct PaletteCurve {
    pub num_points: usize,
    pub amplitude: i64,
    pub amplitude_phase: i64,
    pub oscilation: i64,
    pub oscilation_phase: i64,
    pub harmonic: i64,
}

impl PaletteCurve {
    /// The documented parameter ranges: amplitude and oscillation in
    /// `[0, 1]`, phases within one turn, harmonic in `[0.5, 4.5]` turns,
    /// and a positive sampling density.
    pub open spec fn wf(self) -> bool {
        &&& 1 <= self.num_points <= MAX_POINTS
        &&& 0 <= self.amplitude <= FP_ONE
        &&& 0 <= self.amplitude_phase <= FP_ONE
        &&& 0 <= self.oscilation <= FP_ONE
        &&& 0 <= self.oscilation_phase <= FP_ONE
        &&& FP_HALF <= self.harmonic <= 9 * FP_HALF
    }

    /// A curve with the given parameters.
    pub fn new(
        num_points: usize,
        amplitude: i64,
        amplitude_phase: i64,
        oscilation: i64,
        oscilation_phase: i64,
        harmonic: i64,
    ) -> (c: PaletteCurve)
        requires
            1 <= num_points <= MAX_POINTS,
            0 <= amplitude <= FP_ONE,
            0 <= amplitude_phase <= FP_ONE,
            0 <= oscilation <= FP_ONE,
            0 <= oscilation_phase <= FP_ONE,
            FP_HALF <= harmonic <= 9 * FP_HALF,
        ensures
            c == (PaletteCurve {
                num_points,
                amplitude,
                amplitude_phase,
                oscilation,
                oscilation_phase,
                harmonic,
            }),
            c.wf(),
    {
        PaletteCurve { num_points, amplitude, amplitude_phase, oscilation, oscilation_phase, harmonic }
    }

    /// The point at position `t` with the given jitter factor: the angle is
    /// `harmonic * t * jitter` turns, the radius two sine terms, and each
    /// component is clamped into the valid range of the embedding.
    pub open spec fn sample_spec(self, t: int, jitter: int) -> Vec3A {
        let th1 = (self.harmonic * t) / (FP_ONE as int);
        let theta = (th1 * jitter) / (FP_ONE as int);
        let r1 = (self.amplitude * sin_spec(theta + self.amplitude_phase)) / (FP_ONE as int);
        let inner = (self.harmonic * theta) / (FP_ONE as int);
        let r2 = (self.oscilation * sin_spec(inner + self.oscilation_phase)) / (FP_ONE as int);
        let radius = r1 + r2;
        let xr = (radius * cos_spec(theta)) / (FP_ONE as int);
        let yr = (radius * sin_spec(theta)) / (FP_ONE as int);
        let x = clamp_spec((xr * self.amplitude) / (FP_ONE as int), -(FP_ONE as int), FP_ONE as int);
        let y = clamp_spec((yr * self.amplitude) / (FP_ONE as int), -(FP_ONE as int), FP_ONE as int);
        let z = clamp_spec(t, 0, FP_ONE as int);
        Vec3A { x: x as i64, y: y as i64, z: z as i64 }
    }

    pub fn sample(&self, t: i64, jitter: i64) -> (v: Vec3A)
        requires
            self.wf(),
            0 <= t <= FP_ONE,
            FP_HALF <= jitter <= FP_HALF + FP_ONE,
        ensures
            v == self.sample_spec(t as int, jitter as int),
            v.wf(),
    {
        let th1 = mul_fp(self.harmonic, t);
        proof {
            lemma_mul_fp_bound(self.harmonic as int, t as int, 294912, 65536);
        }
        assert(0 <= th1 <= 294912);
        let theta = mul_fp(th1, jitter);
        proof {
            lemma_mul_fp_bound(th1 as int, jitter as int, 294912, 98304);
        }
        assert(0 <= theta <= 442368);
        let s1 = sin_fp(theta + self.amplitude_phase);
        let r1 = mul_fp(self.amplitude, s1);
        proof {
            lemma_mul_fp_bound(self.amplitude as int, s1 as int, 65536, 65536);
        }
        let inner = mul_fp(self.harmonic, theta);
        proof {
            lemma_mul_fp_bound(self.harmonic as int, theta as int, 294912, 442368);
        }
        assert(0 <= inner <= 1990656);
        let s2 = sin_fp(inner + self.oscilation_phase);
        let r2 = mul_fp(self.oscilation, s2);
        proof {
            lemma_mul_fp_bound(self.oscilation as int, s2 as int, 65536, 65536);
        }
        let radius = r1 + r2;
        assert(-131074 <= radius <= 131072);
        let ct = cos_fp(theta);
        let st = sin_fp(theta);
        let xr = mul_fp(radius, ct);
        proof {
            lemma_mul_fp_bound(radius as int, ct as int, 131074, 65536);
        }
        let yr = mul_fp(radius, st);
        proof {
            lemma_mul_fp_bound(radius as int, st as int, 131074, 65536);
        }
        let xs = mul_fp(xr, self.amplitude);
        proof {
            lemma_mul_fp_bound(xr as int, self.amplitude as int, 131075, 65536);
        }
        let ys = mul_fp(yr, self.amplitude);
        proof {
            lemma_mul_fp_bound(yr as int, self.amplitude as int, 131075, 65536);
        }
        let x = clamp_i64(xs, -FP_ONE, FP_ONE);
        let y = clamp_i64(ys, -FP_ONE, FP_ONE);
        let z = clamp_i64(t, 0, FP_ONE);
        Vec3A { x, y, z }
    }

    /// The sampling position of the `i`-th point: positions are evenly
    /// spaced over `[0, 1]`; a single point sits at zero.
    pub open spec fn t_of_spec(i: int, num_points: int) -> int {
        if num_points <= 1 {
            0
        } else {
            (i * (FP_ONE as int)) / (num_points - 1)
        }
    }

    /// All `num_points` samples in generation order, with the jitter of the
    /// `i`-th position drawn from the stream with the given seed.
    pub open spec fn points_spec(self, seed: u64) -> Seq<Vec3A> {
        Seq::new(
            self.num_points as nat,
            |i: int|
                self.sample_spec(
                    Self::t_of_spec(i, self.num_points as int),
                    jitter_spec(seed, i as u64),
                ),
        )
    }

    /// The ordered sequence of curve points for this seed.
    pub fn points(&self, seed: u64) -> (pts: Vec<Vec3A>)
        requires
            self.wf(),
        ensures
            pts@ == self.points_spec(seed),
            pts@.len() == self.num_points,
            forall|i: int| 0 <= i < pts@.len() ==> #[trigger] pts@[i].wf(),
    {
        let mut pts: Vec<Vec3A> = Vec::new();
        let n = self.num_points;
        let mut i: usize = 0;
        while i < n
            invariant
                self.wf(),
                n == self.num_points,
                i <= n,
                pts@.len() == i,
                forall|k: int|
                    0 <= k < i ==> #[trigger] pts@[k] == self.points_spec(seed)[k],
                forall|k: int| 0 <= k < i ==> #[trigger] pts@[k].wf(),
            decreases n - i,
        {
            let t: i64 = if n == 1 {
                0
            } else {
                let ti = ((i as i64) * FP_ONE) / ((n as i64) - 1);
                assert((i as int) * 65536 <= ((n as int) - 1) * 65536) by (nonlinear_arith)
                    requires
                        0 <= i <= (n as int) - 1,
                ;
                assert(ti <= 65536) by (nonlinear_arith)
                    requires
                        ti == ((i as int) * 65536) / ((n as int) - 1),
                        (i as int) * 65536 <= ((n as int) - 1) * 65536,
                        0 < (n as int) - 1,
                ;
                ti
            };
            assert(t == Self::t_of_spec(i as int, self.num_points as int));
            let j = jitter_at(seed, i as u64);
            let v = self.sample(t, j);
            pts.push(v);
            i = i + 1;
        }
        proof {
            assert(pts@ =~= self.points_spec(seed));
        }
        pts
    }

    /// The perceptually weighted error between a curve point and a target
    /// vector: the hue term plus `1.24` times the length difference of the
    /// horizontal pairs plus `0.64` times the vertical difference.
    pub open spec fn error_spec(point: Vec3A, target: Vec3A) -> int {
        let lp = point.len_xy_spec();
        let lt = target.len_xy_spec();
        let hue_err = if lp == 0 || lt == 0 {
            0
        } else {
            let dot = point.x * target.x + point.y * target.y;
            let dn = (dot * (FP_ONE as int)) / (lp * lt);
            asin_norm_spec(clamp_spec(dn, -(FP_ONE as int), FP_ONE as int))
        };
        let lum_err = abs_spec(lp - lt);
        let sat_err = abs_spec(point.z - target.z);
        hue_err + (124 * lum_err) / 100 + (64 * sat_err) / 100
    }

    pub fn error(point: Vec3A, target: Vec3A) -> (e: i64)
        requires
            point.wf(),
            target.wf(),
        ensures
            e == Self::error_spec(point, target),
            0 <= e <= 4 * FP_ONE,
    {
        let lp = point.len_xy();
        let lt = target.len_xy();
        let hue_err: i64 = if lp == 0 || lt == 0 {
            0
        } else {
            assert(-65536 * 65536 <= point.x * target.x <= 65536 * 65536) by (nonlinear_arith)
                requires
                    -65536 <= point.x <= 65536,
                    -65536 <= target.x <= 65536,
            ;
            assert(-65536 * 65536 <= point.y * target.y <= 65536 * 65536) by (nonlinear_arith)
                requires
                    -65536 <= point.y <= 65536,
                    -65536 <= target.y <= 65536,
            ;
            let dot = point.x * target.x + point.y * target.y;
            assert(0 < lp * lt <= 92682 * 92682) by (nonlinear_arith)
                requires
                    0 < lp <= 92682,
                    0 < lt <= 92682,
            ;
            let denom = lp * lt;
            let dn = floor_div(dot * FP_ONE, denom);
            let dc = clamp_i64(dn, -FP_ONE, FP_ONE);
            asin_norm(dc)
        };
        let lum_err = abs_i64(lp - lt);
        let sat_err = abs_i64(point.z - target.z);
        hue_err + (124 * lum_err) / 100 + (64 * sat_err) / 100
    }
}

/// The metric of a point against itself is zero whenever its horizontal
/// pair is zero-length: the hue term is defined as zero there, and the
/// length and vertical differences vanish. A point with a nonzero
/// horizontal pair scores its own aligned direction at half scale under the
/// arcsine hue term, so its self-error is not zero.
pub proof fn lemma_error_self_axis(p: Vec3A)
    requires
        p.x == 0,
        p.y == 0,
    ensures
        PaletteCurve::error_spec(p, p) == 0,
{
    assert(p.x * p.x + p.y * p.y == 0) by (nonlinear_arith)
        requires
            p.x == 0,
            p.y == 0,
    ;
    assert(p.len_xy_spec() == 0);
}

/// Index of the sample with least error against `target`; on ties the
/// earliest sample in generation order wins.
pub open spec fn closest_index_spec(pts: Seq<Vec3A>, target: Vec3A) -> int
    decreases pts.len(),
{
    if pts.len() <= 1 {
        0
    } else {
        let rest = closest_index_spec(pts.drop_last(), target);
        if PaletteCurve::error_spec(pts.last(), target) < PaletteCurve::error_spec(
            pts[rest],
            target,
        ) {
            pts.len() - 1
        } else {
            rest
        }
    }
}

/// The winning index is in range, minimizes the error, and every earlier
/// sample has strictly larger error.
pub proof fn lemma_closest_index(pts: Seq<Vec3A>, target: Vec3A)
    requires
        pts.len() > 0,
    ensures
        0 <= closest_index_spec(pts, target) < pts.len(),
        forall|i: int|
            0 <= i < pts.len() ==> PaletteCurve::error_spec(
                pts[closest_index_spec(pts, target)],
                target,
            ) <= PaletteCurve::error_spec(#[trigger] pts[i], target),
        forall|i: int|
            0 <= i < closest_index_spec(pts, target) ==> PaletteCurve::error_spec(
                pts[closest_index_spec(pts, target)],
                target,
            ) < PaletteCurve::error_spec(#[trigger] pts[i], target),
    decreases pts.len(),
{
    if pts.len() > 1 {
        lemma_closest_index(pts.drop_last(), target);
        assert(forall|i: int|
            0 <= i < pts.len() - 1 ==> #[trigger] pts[i] == pts.drop_last()[i]);
    }
}

impl PaletteCurve {
    /// Index of the sample of `pts` closest to `target`.
    pub(crate) fn closest_index(pts: &Vec<Vec3A>, target: &Vec3A) -> (idx: usize)
        requires
            pts@.len() > 0,
            forall|i: int| 0 <= i < pts@.len() ==> #[trigger] pts@[i].wf(),
            target.wf(),
        ensures
            idx == closest_index_spec(pts@, *target),
    {
        let mut best: usize = 0;
        let mut best_err = Self::error(pts[0], *target);
        let mut i: usize = 1;
        proof {
            assert(pts@.take(1).len() == 1);
            assert(pts@.take(1)[0] == pts@[0]);
        }
        while i < pts.len()
            invariant
                1 <= i <= pts@.len(),
                0 <= best < i,
                forall|k: int| 0 <= k < pts@.len() ==> #[trigger] pts@[k].wf(),
                target.wf(),
                best == closest_index_spec(pts@.take(i as int), *target),
                best_err == Self::error_spec(pts@[best as int], *target),
            decreases pts@.len() - i,
        {
            let e = Self::error(pts[i], *target);
            proof {
                assert(pts@.take(i + 1).drop_last() =~= pts@.take(i as int));
                assert(pts@.take(i + 1).last() == pts@[i as int]);
                assert(pts@.take(i + 1)[best as int] == pts@[best as int]);
            }
            if e < best_err {
                best = i;
                best_err = e;
            }
            proof {
                assert(best == closest_index_spec(pts@.take(i + 1), *target));
            }
            i = i + 1;
        }
        proof {
            assert(pts@.take(pts@.len() as int) =~= pts@);
        }
        best
    }

    /// The sample of this curve (for the given seed) closest to `point`:
    /// always a member of the sample sequence; with a single sample, always
    /// the sample at position zero.
    pub fn get_closest_point(&self, point: &Vec3A, seed: u64) -> (v: Vec3A)
        requires
            self.wf(),
            point.wf(),
        ensures
            v == self.points_spec(seed)[closest_index_spec(self.points_spec(seed), *point)],
            self.points_spec(seed).contains(v),
            forall|i: int|
                0 <= i < self.points_spec(seed).len() ==> Self::error_spec(v, *point)
                    <= Self::error_spec(#[trigger] self.points_spec(seed)[i], *point),
            v.wf(),
    {
        let pts = self.points(seed);
        let idx = Self::closest_index(&pts, point);
        proof {
            lemma_closest_index(pts@, *point);
        }
        pts[idx]
    }

    /// A multi-line table of the parameters; fixed-point scalars are shown
    /// as numerators over 65536. Relies on std's `format` macro to render
    /// the numbers.
    #[verifier::external_body]
    pub fn describe(&self) -> String {
        format!(
            "| PaletteCurve      | Values  |\n|-------------------|---------|\n| Sample Points     | {} |\n| Amplitude         | {}/65536 |\n| Amplitude Phase   | {}/65536 |\n| Oscillation       | {}/65536 |\n| Oscillation Phase | {}/65536 |\n| Harmonic          | {}/65536 |",
            self.num_points,
            self.amplitude,
            self.amplitude_phase,
            self.oscilation,
            self.oscilation_phase,
            self.harmonic,
        )
    }

    /// A compact one-line summary; fixed-point scalars are shown as
    /// numerators over 65536. Relies on std's `format` macro to render the
    /// numbers.
    #[verifier::external_body]
    pub fn summary(&self) -> String {
        format!(
            "PaletteCurve[pts={}, amp={}/65536, amp_phase={}/65536, osc={}/65536, osc_phase={}/65536, harm={}/65536]",
            self.num_points,
            self.amplitude,
            self.amplitude_phase,
            self.oscilation,
            self.oscilation_phase,
            self.harmonic,
        )
    }

    /// The sampling position of the sample closest to `point`, for callers
    /// needing the curve position rather than the color.
    pub fn closest_parameter(&self, point: &Vec3A, seed: u64) -> (t: i64)
        requires
            self.wf(),
            point.wf(),
        ensures
            t == Self::t_of_spec(
                closest_index_spec(self.points_spec(seed), *point),
                self.num_points as int,
            ),
            0 <= t <= FP_ONE,
    {
        let pts = self.points(seed);
        let idx = Self::closest_index(&pts, point);
        proof {
            lemma_closest_index(pts@, *point);
        }
        let n = self.num_points;
        if n == 1 {
            0
        } else {
            let ti = ((idx as i64) * FP_ONE) / ((n as i64) - 1);
            assert((idx as int) * 65536 <= ((n as int) - 1) * 65536) by (nonlinear_arith)
                requires
                    0 <= idx <= (n as int) - 1,
            ;
            assert(0 <= ti <= 65536) by (nonlinear_arith)
                requires
                    ti == ((idx as int) * 65536) / ((n as int) - 1),
                    (idx as int) * 65536 <= ((n as int) - 1) * 65536,
                    0 <= idx,
                    0 < (n as int) - 1,
            ;
            ti
        }
    }
}

} // verus!
