use palettecurve::color::{Color, PaletteError, Ratio, Vec3A};
use palettecurve::curve::PaletteCurve;
use palettecurve::fixed::{abs_i64, clamp_i64, isqrt};
use palettecurve::fit::FitResult;
use palettecurve::histogram::{select_top_colors, u8rgba_to_color_counts, ColorHistogram};
use palettecurve::quantize::{map_pixels_to_curve, rgb_to_rgba};
use palettecurve::rng::{jitter_at, stream_at};
use palettecurve::trig::{angle_turns, asin_norm, atan_unit, cos_fp, sin_fp};

const FP_ONE: i64 = 65536;
const FP_HALF: i64 = 32768;
const FP_QUARTER: i64 = 16384;

fn test_curve(num_points: usize) -> PaletteCurve {
    PaletteCurve::new(num_points, 37449, 22763, 52000, 51980, 97843)
}

#[test]
fn isqrt_exact_values() {
    assert_eq!(isqrt(0), 0);
    assert_eq!(isqrt(1), 1);
    assert_eq!(isqrt(3), 1);
    assert_eq!(isqrt(4), 2);
    assert_eq!(isqrt(65536 * 65536), 65536);
    assert_eq!(isqrt(65536 * 65536 - 1), 65535);
    assert_eq!(isqrt(u64::MAX), 4294967295);
}

#[test]
fn fixed_point_helpers() {
    assert_eq!(abs_i64(-5), 5);
    assert_eq!(abs_i64(5), 5);
    assert_eq!(clamp_i64(-70000, -FP_ONE, FP_ONE), -FP_ONE);
    assert_eq!(clamp_i64(70000, -FP_ONE, FP_ONE), FP_ONE);
    assert_eq!(clamp_i64(1234, -FP_ONE, FP_ONE), 1234);
}

#[test]
fn sine_is_exact_at_cardinal_angles() {
    assert_eq!(sin_fp(0), 0);
    assert_eq!(sin_fp(FP_QUARTER), FP_ONE);
    assert_eq!(sin_fp(FP_HALF), 0);
    assert_eq!(sin_fp(FP_HALF + FP_QUARTER), -FP_ONE);
    assert_eq!(sin_fp(FP_ONE), 0);
    assert_eq!(cos_fp(0), FP_ONE);
    assert_eq!(cos_fp(FP_QUARTER), 0);
    assert_eq!(cos_fp(FP_HALF), -FP_ONE);
    // a twelfth of a turn is not representable exactly; the value at the
    // nearest representable angle is within a few units of one half
    assert!((sin_fp(FP_ONE / 12) - FP_HALF).abs() <= 4);
}

#[test]
fn angle_recovers_cardinal_directions() {
    assert_eq!(angle_turns(0, 0), 0);
    assert_eq!(angle_turns(FP_ONE, 0), 0);
    assert_eq!(angle_turns(0, FP_ONE), FP_QUARTER);
    assert_eq!(angle_turns(-FP_ONE, 0), FP_HALF);
    assert_eq!(angle_turns(0, -FP_ONE), FP_HALF + FP_QUARTER);
    assert_eq!(atan_unit(FP_ONE), 8192);
    assert_eq!(atan_unit(0), 0);
}

#[test]
fn asin_norm_endpoints() {
    assert_eq!(asin_norm(0), 0);
    assert_eq!(asin_norm(FP_ONE), FP_HALF);
    assert_eq!(asin_norm(-FP_ONE), FP_HALF);
}

#[test]
fn red_has_expected_hsl() {
    let c = Color { r: 255, g: 0, b: 0 };
    let (h, s, l) = c.to_hsl();
    assert_eq!(h, Ratio { num: 0, den: 1530 });
    assert_eq!(s, Ratio { num: 255, den: 255 });
    assert_eq!(l, Ratio { num: 255, den: 510 });
}

#[test]
fn gray_has_zero_saturation() {
    let c = Color { r: 77, g: 77, b: 77 };
    let (h, s, l) = c.to_hsl();
    assert_eq!(h, Ratio { num: 0, den: 1 });
    assert_eq!(s, Ratio { num: 0, den: 1 });
    assert_eq!(l, Ratio { num: 154, den: 510 });
}

#[test]
fn hsl_round_trip_is_exact_on_sampled_colors() {
    let steps: Vec<u8> = vec![0, 1, 17, 64, 127, 128, 200, 254, 255];
    for &r in &steps {
        for &g in &steps {
            for &b in &steps {
                let c = Color { r, g, b };
                let (h, s, l) = c.to_hsl();
                assert_eq!(Color::from_hsl(h, s, l), Ok(c));
            }
        }
    }
}

#[test]
fn from_hsl_rejects_out_of_tolerance_inputs() {
    let bad = Ratio::new(-1, 10);
    let good = Ratio::new(1, 2);
    assert_eq!(
        Color::from_hsl(bad, good, good),
        Err(PaletteError::InputRangeViolation)
    );
    let above = Ratio::new(11, 10);
    assert_eq!(
        Color::from_hsl(good, above, good),
        Err(PaletteError::InputRangeViolation)
    );
}

#[test]
fn from_hsl_clamps_within_tolerance() {
    // -1/100 is within the tolerance and clamps to zero.
    let slightly_low = Ratio::new(-1, 100);
    let zero = Ratio::new(0, 1);
    assert_eq!(
        Color::from_hsl(zero, zero, slightly_low),
        Color::from_hsl(zero, zero, zero)
    );
}

#[test]
fn embedding_round_trip_within_tolerance() {
    // over a grid of unit triples with lightness away from the axis,
    // embed then unembed recovers hue and lightness within a small
    // tolerance, and saturation exactly.
    let den: i64 = 16;
    for hn in 0..16i64 {
        for sn in 0..=16i64 {
            for ln in 8..=16i64 {
                let hue = Ratio::new(hn, den);
                let sat = Ratio::new(sn, den);
                let lum = Ratio::new(ln, den);
                let v = Color::to_vec3a(hue, sat, lum);
                let (h2, s2, l2) = Color::vec3a_to_hsl(v);
                // saturation: exact fixed-point value of the input
                let sat_fp = (2 * sn * FP_ONE + den) / (2 * den);
                assert_eq!(s2, Ratio { num: sat_fp, den: FP_ONE });
                // lightness within 1 percent
                let lum_fp = (2 * ln * FP_ONE + den) / (2 * den);
                assert!((l2.num - lum_fp).abs() <= FP_ONE / 100);
                // hue within 1 percent of a turn (lightness is at least 1/2)
                let hue_fp = (2 * hn * FP_ONE + den) / (2 * den);
                let mut dh = (h2.num - hue_fp).abs();
                if dh > FP_HALF {
                    dh = FP_ONE - dh;
                }
                assert!(dh <= FP_ONE / 100, "hue {} vs {}", h2.num, hue_fp);
            }
        }
    }
}

#[test]
fn error_is_zero_on_axis_points() {
    let p = Vec3A::new(0, 0, 30000);
    assert_eq!(PaletteCurve::error(p, p), 0);
}

#[test]
fn error_scores_aligned_directions_at_half() {
    let p = Vec3A::new(FP_ONE, 0, 0);
    assert_eq!(PaletteCurve::error(p, p), FP_HALF);
}

#[test]
fn error_weighs_the_vertical_difference() {
    let p = Vec3A::new(0, 0, 0);
    let q = Vec3A::new(0, 0, FP_ONE);
    // 0.64 * 1.0 at fixed point, rounded down
    assert_eq!(PaletteCurve::error(p, q), 64 * FP_ONE / 100);
}

#[test]
fn closest_point_is_a_member_of_the_samples() {
    let curve = test_curve(16);
    let seed = 7u64;
    let pts = curve.points(seed);
    let query = Vec3A::new(12000, -3000, 40000);
    let closest = curve.get_closest_point(&query, seed);
    assert!(pts.contains(&closest));
}

#[test]
fn single_sample_curve_always_returns_position_zero() {
    let curve = test_curve(1);
    let seed = 99u64;
    let pts = curve.points(seed);
    assert_eq!(pts.len(), 1);
    let expected = curve.sample(0, jitter_at(seed, 0));
    let query = Vec3A::new(-50000, 2000, 65536);
    assert_eq!(curve.get_closest_point(&query, seed), expected);
    assert_eq!(curve.closest_parameter(&query, seed), 0);
}

#[test]
fn points_are_deterministic_per_seed() {
    let curve = test_curve(64);
    assert_eq!(curve.points(5), curve.points(5));
    let jitter = jitter_at(11, 3);
    assert!((FP_HALF..FP_HALF + FP_ONE).contains(&jitter));
}

#[test]
fn histogram_counts_pixels_exactly() {
    let pixels = vec![
        [255, 0, 0, 255],
        [0, 255, 0, 255],
        [255, 0, 0, 0],
        [255, 0, 0, 9],
    ];
    let h = u8rgba_to_color_counts(pixels);
    assert_eq!(h.len(), 2);
    assert_eq!(h.get(0), (Color { r: 255, g: 0, b: 0 }, 3));
    assert_eq!(h.get(1), (Color { r: 0, g: 255, b: 0 }, 1));
}

#[test]
fn top_colors_keeps_the_heaviest_and_breaks_ties_stably() {
    let pixels = vec![
        [1, 1, 1, 255],
        [2, 2, 2, 255],
        [2, 2, 2, 255],
        [3, 3, 3, 255],
        [4, 4, 4, 255],
        [4, 4, 4, 255],
    ];
    let h = u8rgba_to_color_counts(pixels);
    let top = select_top_colors(&h, 2);
    assert_eq!(top.len(), 2);
    // counts 2 and 2; first-appearance order breaks the tie
    assert_eq!(top.get(0), (Color { r: 2, g: 2, b: 2 }, 2));
    assert_eq!(top.get(1), (Color { r: 4, g: 4, b: 4 }, 2));
    let all = select_top_colors(&h, 100);
    assert_eq!(all.len(), 4);
}

fn scenario_histogram() -> ColorHistogram {
    let mut pixels: Vec<[u8; 4]> = Vec::new();
    for _ in 0..100 {
        pixels.push([255, 0, 0, 255]);
    }
    for _ in 0..50 {
        pixels.push([0, 255, 0, 255]);
    }
    u8rgba_to_color_counts(pixels)
}

#[test]
fn best_fit_scenario_is_deterministic_and_below_ceiling() {
    let hist = scenario_histogram();
    let seed = 0xfeed_beef_u64;
    let a = PaletteCurve::best_fit_seeded(&hist, 64, 16, seed).unwrap();
    let b = PaletteCurve::best_fit_seeded(&hist, 64, 16, seed).unwrap();
    assert_eq!(a, b);
    // documented ceiling: one error unit (the aligned-direction hue score
    // of one half, plus lightness and saturation terms well under a half)
    assert!(a.error < FP_ONE, "error {}", a.error);
}

#[test]
fn best_fit_error_matches_public_mean_error() {
    let hist = scenario_histogram();
    let f = PaletteCurve::best_fit_seeded(&hist, 32, 8, 12345).unwrap();
    assert_eq!(f.error, f.curve.mean_error(&hist, f.jitter_seed));
}

#[test]
fn deeper_search_never_worsens_the_error() {
    let hist = scenario_histogram();
    let seed = 4242u64;
    let shallow = PaletteCurve::best_fit_seeded(&hist, 32, 4, seed).unwrap();
    let deep = PaletteCurve::best_fit_seeded(&hist, 32, 16, seed).unwrap();
    let deeper = PaletteCurve::best_fit_seeded(&hist, 32, 64, seed).unwrap();
    assert!(deep.error <= shallow.error);
    assert!(deeper.error <= deep.error);
}

#[test]
fn candidate_parameters_lie_in_documented_ranges() {
    let hist = scenario_histogram();
    let f = PaletteCurve::best_fit_seeded(&hist, 16, 8, 7).unwrap();
    let c = f.curve;
    assert!((6554..=65536).contains(&c.amplitude));
    assert!((0..=65536).contains(&c.amplitude_phase));
    assert!((6554..=65536).contains(&c.oscilation));
    assert!((0..=65536).contains(&c.oscilation_phase));
    assert!((32768..=294912).contains(&c.harmonic));
    assert_eq!(c.num_points, 16);
}

#[test]
fn closest_parameter_matches_a_manual_scan() {
    let curve = test_curve(33);
    let seed = 8u64;
    let pts = curve.points(seed);
    let q = Vec3A::new(20000, 10000, 30000);
    let mut best = 0usize;
    let mut best_err = PaletteCurve::error(pts[0], q);
    for (i, p) in pts.iter().enumerate().skip(1) {
        let e = PaletteCurve::error(*p, q);
        if e < best_err {
            best = i;
            best_err = e;
        }
    }
    assert_eq!(curve.get_closest_point(&q, seed), pts[best]);
    assert_eq!(curve.closest_parameter(&q, seed), (best as i64) * FP_ONE / 32);
}

#[test]
fn zero_sampling_density_is_rejected() {
    let hist = scenario_histogram();
    assert_eq!(
        PaletteCurve::best_fit_seeded(&hist, 0, 16, 1),
        Err(PaletteError::InvalidSamplingDensity)
    );
}

#[test]
fn best_fit_entropy_seeded_returns_a_result() {
    let hist = scenario_histogram();
    let f: FitResult = PaletteCurve::best_fit(&hist, 16, 4).unwrap();
    assert!(f.error >= 0);
}

#[test]
fn remap_is_idempotent_when_one_sample_exists() {
    // with a single curve sample the closest-sample index is always zero,
    // so the idempotence hypothesis holds for every color
    let curve = test_curve(1);
    let seed = 31337u64;
    for c in [
        Color { r: 255, g: 0, b: 0 },
        Color { r: 0, g: 255, b: 0 },
        Color { r: 12, g: 200, b: 99 },
        Color { r: 255, g: 255, b: 255 },
        Color { r: 0, g: 0, b: 0 },
    ] {
        let once = curve.remap(c, seed);
        let twice = curve.remap(once, seed);
        assert_eq!(once, twice);
    }
}

#[test]
fn remap_stays_on_a_fixed_point_once_reached() {
    // once an iterate of remap repeats, it repeats forever
    let curve = test_curve(64);
    let seed = 31337u64;
    let mut c = Color { r: 12, g: 200, b: 99 };
    for _ in 0..64 {
        let next = curve.remap(c, seed);
        if next == c {
            // the hypothesis of the idempotence law holds here
            assert_eq!(curve.remap(next, seed), next);
            break;
        }
        c = next;
    }
}

#[test]
fn map_pixels_produces_rgba_in_order() {
    let curve = test_curve(8);
    let seed = 5u64;
    // two four-channel pixels
    let buf = vec![255u8, 0, 0, 255, 0, 255, 0, 255];
    let out = map_pixels_to_curve(&curve, &buf, seed);
    assert_eq!(out.len(), 8);
    assert_eq!(out[3], 255);
    assert_eq!(out[7], 255);
    let first = curve.remap(Color { r: 255, g: 0, b: 0 }, seed);
    assert_eq!(&out[0..3], &[first.r, first.g, first.b]);
    // three-channel input with a trailing incomplete chunk
    let buf3 = vec![10u8, 20, 30, 40, 50];
    let out3 = map_pixels_to_curve(&curve, &buf3, seed);
    assert_eq!(out3.len(), 4);
}

#[test]
fn rgb_to_rgba_appends_opacity() {
    let buf = vec![1u8, 2, 3, 4, 5, 6, 7];
    assert_eq!(rgb_to_rgba(&buf), vec![1, 2, 3, 255, 4, 5, 6, 255]);
}

#[test]
fn palette_grid_has_expected_size() {
    let curve = test_curve(16);
    let grid = curve.palette_grid_pixels(3);
    assert_eq!(grid.len(), 49152);
}

#[test]
fn descriptions_name_the_parameters() {
    let curve = test_curve(255);
    let d = curve.describe();
    assert!(d.contains("PaletteCurve"));
    assert!(d.contains("255"));
    let s = curve.summary();
    assert!(s.contains("pts=255"));
}

#[test]
fn random_color_is_well_formed() {
    let c = Color::random();
    let (_, s, l) = c.to_hsl();
    assert!(s.num <= s.den);
    assert!(l.num <= l.den);
}

#[test]
fn stream_is_deterministic() {
    assert_eq!(stream_at(1, 2), stream_at(1, 2));
    assert_ne!(stream_at(1, 2), stream_at(1, 3));
}
