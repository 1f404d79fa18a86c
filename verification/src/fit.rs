//! Fitting a palette curve to a color histogram.
//!
//! A fitting run draws a pool of candidate parameter sets from a seeded
//! stream, scores every candidate by its histogram-weighted mean error, and
//! keeps the earliest candidate achieving the minimum. The whole run is a
//! pure function of the histogram, the sampling density, the search depth and
//! the seed; [`PaletteCurve::best_fit`] seeds a run from fresh entropy.
//! Candidate scoring is independent per candidate and runs on parallel
//! workers; only the gathered score vector is reduced, sequentially, to its
//! first minimum.

use vstd::prelude::*;
use rayon::iter::{IndexedParallelIterator, IntoParallelIterator, ParallelIterator};
use crate::fixed::{FP_HALF, FP_ONE};
use crate::color::{Color, PaletteError, Vec3A, to_hsl_spec, to_vec3a_spec};
use crate::curve::{MAX_POINTS, PaletteCurve, closest_index_spec};
use crate::histogram::ColorHistogram;
use crate::rng::{draw_range_spec, draw_range, entropy_u64, stream_at, stream_at_spec};

verus! {

/// The embedded vector of a color.
#[verifier::opaque]
pub open spec fn embed_color_spec(c: Color) -> Vec3A {
    let hsl = to_hsl_spec(c);
    to_vec3a_spec(hsl.0, hsl.1, hsl.2)
}

/// The error of the curve sample closest to the embedded color.
pub open spec fn color_error_spec(curve: PaletteCurve, seed: u64, c: Color) -> int {
    let v = embed_color_spec(c);
    let pts = curve.points_spec(seed);
    PaletteCurve::error_spec(pts[closest_index_spec(pts, v)], v)
}

/// Count-weighted sum of the per-color errors of the entries.
pub open spec fn weighted_sum_spec(
    curve: PaletteCurve,
    seed: u64,
    entries: Seq<(Color, u64)>,
) -> int
    decreases entries.len(),
{
    if entries.len() == 0 {
        0
    } else {
        weighted_sum_spec(curve, seed, entries.drop_last()) + color_error_spec(
            curve,
            seed,
            entries.last().0,
        ) * entries.last().1
    }
}

/// The histogram-weighted mean error of a curve: the weighted sum of the
/// per-color errors over the total pixel count.
#[verifier::opaque]
pub open spec fn mean_error_spec(curve: PaletteCurve, seed: u64, h: ColorHistogram) -> int {
    weighted_sum_spec(curve, seed, h.entries@) / h.total_spec()
}

proof fn lemma_sum_counts_nonneg(s: Seq<(Color, u64)>)
    ensures
        crate::histogram::sum_counts_spec(s) >= 0,
    decreases s.len(),
{
    if s.len() > 0 {
        lemma_sum_counts_nonneg(s.drop_last());
    }
}

impl PaletteCurve {
    /// The histogram-weighted mean error of this curve against the colors
    /// of `hist`, with per-position jitter drawn from the given seed.
    pub fn mean_error(&self, hist: &ColorHistogram, seed: u64) -> (e: i64)
        requires
            self.wf(),
            hist.wf(),
            0 < hist.total_spec() <= 0x1000000000000,
        ensures
            e == mean_error_spec(*self, seed, *hist),
            0 <= e <= 4 * FP_ONE,
    {
        proof {
            reveal(mean_error_spec);
        }
        let pts = self.points(seed);
        let n = hist.len();
        let mut acc: u128 = 0;
        let mut total: u128 = 0;
        let mut i: usize = 0;
        proof {
            assert(hist.entries@.take(0) =~= Seq::<(Color, u64)>::empty());
            lemma_sum_counts_nonneg(hist.entries@);
        }
        while i < n
            invariant
                self.wf(),
                hist.wf(),
                0 < hist.total_spec() <= 0x1000000000000,
                n == hist.entries@.len(),
                i <= n,
                pts@ == self.points_spec(seed),
                pts@.len() == self.num_points >= 1,
                forall|k: int| 0 <= k < pts@.len() ==> (#[trigger] pts@[k]).wf(),
                acc == weighted_sum_spec(*self, seed, hist.entries@.take(i as int)),
                total == crate::histogram::sum_counts_spec(hist.entries@.take(i as int)),
                acc <= 4 * FP_ONE * total,
                total <= hist.total_spec(),
            decreases n - i,
        {
            let (c, count) = hist.get(i);
            let err = entry_error(&pts, c);
            proof {
                lemma_color_error_glue(*self, seed, c, pts@);
                lemma_take_total_le(hist.entries@, i + 1);
                lemma_weighted_sum_step(
                    *self,
                    seed,
                    hist.entries@,
                    i as int,
                    err as int,
                    acc as int,
                    total as int,
                );
            }
            acc = acc + (err as u128) * (count as u128);
            total = total + (count as u128);
            i = i + 1;
        }
        proof {
            assert(hist.entries@.take(n as int) =~= hist.entries@);
            assert((acc as int) / (total as int) <= 4 * FP_ONE) by (nonlinear_arith)
                requires
                    0 <= acc <= 4 * FP_ONE * (total as int),
                    0 < total,
            ;
        }
        (acc / total) as i64
    }
}

/// The error of the closest sample among a curve's own samples is the
/// per-color error of the color.
proof fn lemma_color_error_glue(curve: PaletteCurve, seed: u64, c: Color, pts: Seq<Vec3A>)
    requires
        pts == curve.points_spec(seed),
    ensures
        entry_error_spec(pts, c) == color_error_spec(curve, seed, c),
{
}

/// The error of the sample of `pts` closest to the embedded color.
pub open spec fn entry_error_spec(pts: Seq<Vec3A>, c: Color) -> int {
    let v = embed_color_spec(c);
    PaletteCurve::error_spec(pts[closest_index_spec(pts, v)], v)
}

/// The error of the sample of `pts` closest to the embedded color.
fn entry_error(pts: &Vec<Vec3A>, c: Color) -> (err: i64)
    requires
        pts@.len() > 0,
        forall|k: int| 0 <= k < pts@.len() ==> (#[trigger] pts@[k]).wf(),
    ensures
        err == entry_error_spec(pts@, c),
        0 <= err <= 4 * FP_ONE,
{
    proof {
        reveal(embed_color_spec);
    }
    let hsl = c.to_hsl();
    let v = Color::to_vec3a(hsl.0, hsl.1, hsl.2);
    let idx = PaletteCurve::closest_index(pts, &v);
    proof {
        crate::curve::lemma_closest_index(pts@, v);
    }
    PaletteCurve::error(pts[idx], v)
}

/// One histogram entry extends the weighted sum by its weighted error and
/// the count sum by its count, preserving the bound.
proof fn lemma_weighted_sum_step(
    curve: PaletteCurve,
    seed: u64,
    s: Seq<(Color, u64)>,
    i: int,
    err: int,
    acc: int,
    total: int,
)
    requires
        0 <= i < s.len(),
        acc == weighted_sum_spec(curve, seed, s.take(i)),
        total == crate::histogram::sum_counts_spec(s.take(i)),
        acc <= 4 * FP_ONE * total,
        0 <= acc,
        0 <= total,
        err == color_error_spec(curve, seed, s[i].0),
        0 <= err <= 4 * FP_ONE,
        crate::histogram::sum_counts_spec(s) <= 0x1000000000000,
    ensures
        weighted_sum_spec(curve, seed, s.take(i + 1)) == acc + err * s[i].1,
        crate::histogram::sum_counts_spec(s.take(i + 1)) == total + s[i].1,
        0 <= acc + err * s[i].1 <= 4 * FP_ONE * (total + s[i].1),
        0 <= err * s[i].1 <= 0x40000000000000000,
        acc + err * s[i].1 <= 0x40000000000000000,
{
    assert(s.take(i + 1).drop_last() =~= s.take(i));
    assert(s.take(i + 1).last() == s[i]);
    lemma_take_total_le(s, i + 1);
    let count = s[i].1 as int;
    assert(0 <= err * count <= 4 * FP_ONE * count) by (nonlinear_arith)
        requires
            0 <= err <= 4 * FP_ONE,
            0 <= count,
    ;
    assert(4 * FP_ONE * total + 4 * FP_ONE * count == 4 * FP_ONE * (total + count))
        by (nonlinear_arith);
    assert(4 * FP_ONE * (total + count) <= 0x40000000000000000) by (nonlinear_arith)
        requires
            0 <= total + count <= 0x1000000000000,
    ;
}

/// The non-uniform harmonic transform: a cubed unit draw biases the
/// harmonic count toward the low end of `[0.5, 4.5]` turns.
pub open spec fn harmonic_of_spec(r: int) -> int {
    let r2 = (r * r) / (FP_ONE as int);
    let r3 = (r2 * r) / (FP_ONE as int);
    FP_HALF + 4 * r3
}

/// Candidate `i` of the run with the given seed: each scalar drawn from its
/// documented range, the harmonic through the cubing transform.
#[verifier::opaque]
pub open spec fn candidate_spec(seed: u64, i: int, num_points: usize) -> PaletteCurve {
    PaletteCurve {
        num_points,
        amplitude: draw_range_spec(seed, (6 * i) as u64, 6554, 65536) as i64,
        amplitude_phase: draw_range_spec(seed, (6 * i + 1) as u64, 0, 65536) as i64,
        oscilation: draw_range_spec(seed, (6 * i + 2) as u64, 6554, 65536) as i64,
        oscilation_phase: draw_range_spec(seed, (6 * i + 3) as u64, 0, 65536) as i64,
        harmonic: harmonic_of_spec(draw_range_spec(seed, (6 * i + 4) as u64, 0, 65536)) as i64,
    }
}

/// Seed of the jitter stream under which candidate `i` is evaluated.
#[verifier::opaque]
pub open spec fn eval_seed_spec(seed: u64, i: int) -> u64 {
    stream_at_spec(seed, (6 * i + 5) as u64)
}

fn gen_candidate(seed: u64, i: usize, num_points: usize) -> (c: PaletteCurve)
    requires
        i < 0x100000,
        1 <= num_points <= MAX_POINTS,
    ensures
        c == candidate_spec(seed, i as int, num_points),
        c.wf(),
{
    proof {
        reveal(candidate_spec);
    }
    let base = 6 * (i as u64);
    let amp = draw_range(seed, base, 6554, 65536);
    let ap = draw_range(seed, base + 1, 0, 65536);
    let osc = draw_range(seed, base + 2, 6554, 65536);
    let op = draw_range(seed, base + 3, 0, 65536);
    let hr = draw_range(seed, base + 4, 0, 65536);
    assert(0 <= hr * hr <= 65536 * 65536) by (nonlinear_arith)
        requires
            0 <= hr <= 65536,
    ;
    let r2 = (hr * hr) / FP_ONE;
    assert(0 <= r2 * hr <= 65536 * 65536) by (nonlinear_arith)
        requires
            0 <= r2 <= 65536,
            0 <= hr <= 65536,
    ;
    let r3 = (r2 * hr) / FP_ONE;
    let harmonic = FP_HALF + 4 * r3;
    PaletteCurve {
        num_points,
        amplitude: amp,
        amplitude_phase: ap,
        oscilation: osc,
        oscilation_phase: op,
        harmonic,
    }
}

/// The mean error of candidate `i` of a run.
#[verifier::opaque]
pub open spec fn cand_error_spec(hist: ColorHistogram, seed: u64, np: usize, i: int) -> int {
    mean_error_spec(candidate_spec(seed, i, np), eval_seed_spec(seed, i), hist)
}

/// First index among the first `depth` candidates achieving the least error.
pub open spec fn best_index_spec(hist: ColorHistogram, seed: u64, np: usize, depth: int) -> int
    decreases depth,
{
    if depth <= 1 {
        0
    } else {
        let r = best_index_spec(hist, seed, np, depth - 1);
        if cand_error_spec(hist, seed, np, depth - 1) < cand_error_spec(hist, seed, np, r) {
            depth - 1
        } else {
            r
        }
    }
}

/// The least mean error achieved among the first `depth` candidates.
pub open spec fn best_error_spec(hist: ColorHistogram, seed: u64, np: usize, depth: int) -> int {
    cand_error_spec(hist, seed, np, best_index_spec(hist, seed, np, depth))
}

/// Deepening a search can only improve it: with the same seed, the least
/// error achieved among a longer prefix of the candidate pool never exceeds
/// the least error achieved among a shorter one.
pub proof fn lemma_deeper_search_no_worse(
    hist: ColorHistogram,
    seed: u64,
    np: usize,
    d1: int,
    d2: int,
)
    requires
        1 <= d1 <= d2,
    ensures
        best_error_spec(hist, seed, np, d2) <= best_error_spec(hist, seed, np, d1),
    decreases d2 - d1,
{
    if d2 > d1 {
        lemma_deeper_search_no_worse(hist, seed, np, d1, d2 - 1);
    }
}

/// The parameter set achieving the least mean error over one candidate
/// pool, with its achieved error and the jitter seed it was scored under.
#[derive(Clone, Copy, PartialEq, Eq, Structural, Debug)]
pub struct FitResult {
    pub curve: PaletteCurve,
    pub error: i64,
    pub jitter_seed: u64,
}

/// The outcome of a seeded fitting run: the first candidate achieving the
/// least error, or a range error when a histogram color embeds outside the
/// valid bounds, or a density error when no curve point could be sampled.
pub open spec fn best_fit_spec(
    hist: ColorHistogram,
    num_points: usize,
    search_depth: usize,
    seed: u64,
) -> Result<FitResult, PaletteError> {
    if num_points < 1 {
        Err(PaletteError::InvalidSamplingDensity)
    } else if exists|i: int|
        0 <= i < hist.entries@.len() && !(#[trigger] embed_color_spec(
            hist.entries@[i].0,
        )).wf() {
        Err(PaletteError::InputRangeViolation)
    } else {
        let bi = best_index_spec(hist, seed, num_points, search_depth as int);
        Ok(
            FitResult {
                curve: candidate_spec(seed, bi, num_points),
                error: cand_error_spec(hist, seed, num_points, bi) as i64,
                jitter_seed: eval_seed_spec(seed, bi),
            },
        )
    }
}

/// Every histogram color embeds within the valid bounds of the embedding:
/// the check never fails, since the embedding of a unit-interval triple is
/// always in range, but a violation would abort the fit.
fn validate_entries(hist: &ColorHistogram) -> (ok: bool)
    requires
        hist.wf(),
    ensures
        ok,
        !(exists|i: int|
            0 <= i < hist.entries@.len() && !(#[trigger] embed_color_spec(
                hist.entries@[i].0,
            )).wf()),
{
    proof {
        reveal(embed_color_spec);
    }
    let nh = hist.len();
    let mut vi: usize = 0;
    while vi < nh
        invariant
            hist.wf(),
            nh == hist.entries@.len(),
            vi <= nh,
            forall|k: int| 0 <= k < vi ==> (#[trigger] embed_color_spec(hist.entries@[k].0)).wf(),
        decreases nh - vi,
    {
        let (c, _count) = hist.get(vi);
        proof {
            reveal(embed_color_spec);
        }
        let hsl = c.to_hsl();
        let v = Color::to_vec3a(hsl.0, hsl.1, hsl.2);
        if !(v.x >= -FP_ONE && v.x <= FP_ONE && v.y >= -FP_ONE && v.y <= FP_ONE && v.z >= 0
            && v.z <= FP_ONE) {
            return false;
        }
        vi = vi + 1;
    }
    true
}

/// The first `depth` candidates of the run with the given seed.
fn gen_candidates(seed: u64, depth: usize, num_points: usize) -> (curves: Vec<PaletteCurve>)
    requires
        depth <= 0x100000,
        1 <= num_points <= MAX_POINTS,
    ensures
        curves@.len() == depth,
        forall|k: int| 0 <= k < depth ==> #[trigger] curves@[k] == candidate_spec(
            seed,
            k,
            num_points,
        ),
        forall|k: int| 0 <= k < depth ==> (#[trigger] curves@[k]).wf(),
{
    let mut curves: Vec<PaletteCurve> = Vec::new();
    let mut gi: usize = 0;
    while gi < depth
        invariant
            gi <= depth <= 0x100000,
            1 <= num_points <= MAX_POINTS,
            curves@.len() == gi,
            forall|k: int| 0 <= k < gi ==> #[trigger] curves@[k] == candidate_spec(
                seed,
                k,
                num_points,
            ),
            forall|k: int| 0 <= k < gi ==> (#[trigger] curves@[k]).wf(),
        decreases depth - gi,
    {
        let c = gen_candidate(seed, gi, num_points);
        curves.push(c);
        gi = gi + 1;
    }
    curves
}

/// First index of the least value of a non-empty vector.
fn min_index(errs: &Vec<i64>) -> (best: usize)
    requires
        errs@.len() >= 1,
    ensures
        best == min_index_spec(errs@),
        0 <= best < errs@.len(),
{
    let mut best: usize = 0;
    let mut bi: usize = 1;
    proof {
        assert(errs@.take(1).len() == 1);
    }
    while bi < errs.len()
        invariant
            1 <= bi <= errs@.len(),
            0 <= best < bi,
            best == min_index_spec(errs@.take(bi as int)),
        decreases errs@.len() - bi,
    {
        proof {
            assert(errs@.take(bi + 1).drop_last() =~= errs@.take(bi as int));
            assert(errs@.take(bi + 1).last() == errs@[bi as int]);
            assert(forall|k: int| 0 <= k < bi ==> #[trigger] errs@.take(bi as int)[k] == errs@[k]);
        }
        if errs[bi] < errs[best] {
            best = bi;
        }
        bi = bi + 1;
    }
    proof {
        assert(errs@.take(errs@.len() as int) =~= errs@);
        lemma_min_index(errs@);
    }
    best
}

/// Assembles the contract of a successful seeded run from the facts about
/// its selected index.
proof fn lemma_best_fit_glue(
    hist: ColorHistogram,
    np: usize,
    depth: usize,
    seed: u64,
    f: FitResult,
)
    requires
        1 <= np,
        1 <= depth,
        !(exists|i: int|
            0 <= i < hist.entries@.len() && !(#[trigger] embed_color_spec(
                hist.entries@[i].0,
            )).wf()),
        f.curve == candidate_spec(seed, best_index_spec(hist, seed, np, depth as int), np),
        f.error == cand_error_spec(hist, seed, np, best_index_spec(hist, seed, np, depth as int)),
        f.jitter_seed == eval_seed_spec(seed, best_index_spec(hist, seed, np, depth as int)),
    ensures
        Ok::<FitResult, PaletteError>(f) == best_fit_spec(hist, np, depth, seed),
        f.error == best_error_spec(hist, seed, np, depth as int),
{
}

fn candidate_error_at(
    curves: &Vec<PaletteCurve>,
    hist: &ColorHistogram,
    seed: u64,
    i: usize,
) -> (e: i64)
    requires
        i < curves@.len() <= 0x100000,
        forall|k: int| 0 <= k < curves@.len() ==> (#[trigger] curves@[k]).wf(),
        hist.wf(),
        0 < hist.total_spec() <= 0x1000000000000,
    ensures
        e == mean_error_spec(curves@[i as int], eval_seed_spec(seed, i as int), *hist),
{
    proof {
        reveal(eval_seed_spec);
        assert(6 * (i as u64) + 5 == (6 * (i as int) + 5) as u64);
    }
    let es = stream_at(seed, 6 * (i as u64) + 5);
    curves[i].mean_error(hist, es)
}

/// Relies on rayon's `into_par_iter` over an index range with `map` and
/// `collect_into_vec`: the closure is applied to every index on parallel
/// workers and the results are collected into the vector in index order.
#[verifier::external_body]
fn par_candidate_errors(curves: &Vec<PaletteCurve>, hist: &ColorHistogram, seed: u64) -> (errs:
    Vec<i64>)
    requires
        curves@.len() <= 0x100000,
        forall|k: int| 0 <= k < curves@.len() ==> (#[trigger] curves@[k]).wf(),
        hist.wf(),
        0 < hist.total_spec() <= 0x1000000000000,
    ensures
        errs@.len() == curves@.len(),
        forall|i: int|
            0 <= i < curves@.len() ==> errs@[i] == mean_error_spec(
                curves@[i],
                eval_seed_spec(seed, i),
                *hist,
            ),
{
    let mut out = Vec::new();
    (0..curves.len()).into_par_iter().map(|i| candidate_error_at(curves, hist, seed, i))
        .collect_into_vec(&mut out);
    out
}

/// First index of the least value; earlier indices win ties.
pub open spec fn min_index_spec(errs: Seq<i64>) -> int
    decreases errs.len(),
{
    if errs.len() <= 1 {
        0
    } else {
        let r = min_index_spec(errs.drop_last());
        if errs.last() < errs[r] {
            errs.len() - 1
        } else {
            r
        }
    }
}

proof fn lemma_min_index(errs: Seq<i64>)
    requires
        errs.len() > 0,
    ensures
        0 <= min_index_spec(errs) < errs.len(),
        forall|i: int|
            0 <= i < errs.len() ==> errs[min_index_spec(errs)] <= #[trigger] errs[i],
        forall|i: int|
            0 <= i < min_index_spec(errs) ==> errs[min_index_spec(errs)] < #[trigger] errs[i],
    decreases errs.len(),
{
    if errs.len() > 1 {
        lemma_min_index(errs.drop_last());
        assert(forall|i: int|
            0 <= i < errs.len() - 1 ==> #[trigger] errs[i] == errs.drop_last()[i]);
    }
}

/// When the value at every index is the corresponding candidate error, the
/// first minimal index is the best candidate index.
proof fn lemma_min_index_is_best(
    hist: ColorHistogram,
    seed: u64,
    np: usize,
    errs: Seq<i64>,
)
    requires
        errs.len() >= 1,
        forall|i: int| 0 <= i < errs.len() ==> #[trigger] errs[i] == cand_error_spec(
            hist,
            seed,
            np,
            i,
        ),
    ensures
        min_index_spec(errs) == best_index_spec(hist, seed, np, errs.len() as int),
    decreases errs.len(),
{
    if errs.len() > 1 {
        assert(forall|i: int|
            0 <= i < errs.len() - 1 ==> #[trigger] errs.drop_last()[i] == errs[i]);
        lemma_min_index_is_best(hist, seed, np, errs.drop_last());
        lemma_min_index(errs.drop_last());
    }
}

impl PaletteCurve {
    /// The curve best fitting a histogram, with explicit seed: the whole run
    /// is a pure function of its arguments, so re-running with the same seed
    /// reproduces the identical result. Fails fast with a range error when a
    /// histogram color embeds outside the valid bounds, and with a density
    /// error when the sampling density would produce no curve point.
    pub fn best_fit_seeded(
        hist: &ColorHistogram,
        num_points: usize,
        search_depth: usize,
        seed: u64,
    ) -> (res: Result<FitResult, PaletteError>)
        requires
            hist.wf(),
            0 < hist.total_spec() <= 0x1000000000000,
            1 <= search_depth <= 0x100000,
            num_points <= MAX_POINTS,
        ensures
            res == best_fit_spec(*hist, num_points, search_depth, seed),
            res is Ok <==> num_points >= 1,
            res matches Ok(f) ==> {
                &&& f.curve.wf()
                &&& f.curve == candidate_spec(
                    seed,
                    best_index_spec(*hist, seed, num_points, search_depth as int),
                    num_points,
                )
                &&& f.error == best_error_spec(*hist, seed, num_points, search_depth as int)
                &&& forall|i: int|
                    0 <= i < search_depth ==> f.error <= #[trigger] cand_error_spec(
                        *hist,
                        seed,
                        num_points,
                        i,
                    )
            },
    {
        if num_points < 1 {
            return Err(PaletteError::InvalidSamplingDensity);
        }
        if !validate_entries(hist) {
            return Err(PaletteError::InputRangeViolation);
        }
        let curves = gen_candidates(seed, search_depth, num_points);
        let errs = par_candidate_errors(&curves, hist, seed);
        proof {
            assert forall|i: int| 0 <= i < errs@.len() implies errs@[i]
                == #[trigger] cand_error_spec(*hist, seed, num_points, i) by {
                reveal(cand_error_spec);
            }
            lemma_min_index(errs@);
            lemma_min_index_is_best(*hist, seed, num_points, errs@);
        }
        let best = min_index(&errs);
        let jitter_seed = stream_at(seed, 6 * (best as u64) + 5);
        let f = FitResult { curve: curves[best], error: errs[best], jitter_seed };
        proof {
            assert(f.jitter_seed == eval_seed_spec(seed, best as int)) by {
                reveal(eval_seed_spec);
                assert(6 * (best as u64) + 5 == (6 * (best as int) + 5) as u64);
            }
            lemma_best_fit_glue(*hist, num_points, search_depth, seed, f);
        }
        Ok(f)
    }

    /// The curve best fitting a histogram, seeded from fresh entropy: the
    /// result is the outcome of some seeded run over the same histogram.
    pub fn best_fit(hist: &ColorHistogram, num_points: usize, search_depth: usize) -> (res:
        Result<FitResult, PaletteError>)
        requires
            hist.wf(),
            0 < hist.total_spec() <= 0x1000000000000,
            1 <= search_depth <= 0x100000,
            num_points <= MAX_POINTS,
        ensures
            exists|s: u64| res == best_fit_spec(*hist, num_points, search_depth, s),
            res is Ok <==> num_points >= 1,
            res matches Ok(f) ==> f.curve.wf(),
    {
        let seed = entropy_u64();
        let res = Self::best_fit_seeded(hist, num_points, search_depth, seed);
        proof {
            assert(res == best_fit_spec(*hist, num_points, search_depth, seed));
        }
        res
    }
}

/// Partial count sums never exceed the full total.
proof fn lemma_take_total_le(s: Seq<(Color, u64)>, i: int)
    requires
        0 <= i <= s.len(),
    ensures
        crate::histogram::sum_counts_spec(s.take(i)) <= crate::histogram::sum_counts_spec(s),
    decreases s.len() - i,
{
    if i < s.len() {
        lemma_take_total_le(s, i + 1);
        assert(s.take(i + 1).drop_last() =~= s.take(i));
        assert(s.take(i + 1).last() == s[i]);
    } else {
        assert(s.take(i) =~= s);
    }
}

} // verus!
