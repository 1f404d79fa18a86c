//! Re-mapping pixels through a fitted curve.
//!
//! Each pixel's color is embedded, snapped to the closest curve sample, and
//! un-embedded back to a color at full opacity. Every pixel is independent
//! of every other, so a caller may spread the work over parallel workers by
//! remapping slices of the buffer; the sequential buffer transform here
//! keeps the input order.

use vstd::prelude::*;
use crate::fixed::FP_ONE;
use crate::color::{Color, Vec3A, from_hsl_spec, vec3a_to_hsl_spec};
use crate::curve::{PaletteCurve, closest_index_spec, lemma_closest_index};
use crate::fit::embed_color_spec;

verus! {

/// The color of an embedded vector: un-embedded to hue/saturation/lightness
/// and converted back; the components of a valid vector are always within
/// tolerance, so the conversion cannot fail.
#[verifier::opaque]
pub open spec fn color_of_vec_spec(v: Vec3A) -> Color {
    let hsl = vec3a_to_hsl_spec(v);
    match from_hsl_spec(hsl.0, hsl.1, hsl.2) {
        Ok(c) => c,
        Err(_) => Color { r: 0, g: 0, b: 0 },
    }
}

/// The color of the embedded vector `v`.
pub fn color_of_vec(v: Vec3A) -> (c: Color)
    requires
        v.wf(),
    ensures
        c == color_of_vec_spec(v),
{
    proof {
        reveal(color_of_vec_spec);
    }
    let hsl = Color::vec3a_to_hsl(v);
    match Color::from_hsl(hsl.0, hsl.1, hsl.2) {
        Ok(c) => c,
        Err(_) => Color { r: 0, g: 0, b: 0 },
    }
}

/// The remapped color of `c` against the samples `pts`: the color of the
/// closest sample to the embedding of `c`.
pub open spec fn remap_pts_spec(pts: Seq<Vec3A>, c: Color) -> Color {
    color_of_vec_spec(pts[closest_index_spec(pts, embed_color_spec(c))])
}

/// The remapped color of `c` through the curve sampled under `seed`.
pub open spec fn remap_spec(curve: PaletteCurve, seed: u64, c: Color) -> Color {
    remap_pts_spec(curve.points_spec(seed), c)
}

fn remap_px(pts: &Vec<Vec3A>, c: Color) -> (r: Color)
    requires
        pts@.len() > 0,
        forall|k: int| 0 <= k < pts@.len() ==> (#[trigger] pts@[k]).wf(),
    ensures
        r == remap_pts_spec(pts@, c),
{
    proof {
        reveal(embed_color_spec);
    }
    let hsl = c.to_hsl();
    let v = Color::to_vec3a(hsl.0, hsl.1, hsl.2);
    let idx = PaletteCurve::closest_index(pts, &v);
    proof {
        lemma_closest_index(pts@, v);
    }
    color_of_vec(pts[idx])
}

impl PaletteCurve {
    /// The remapped color of one pixel: its color embedded, snapped to the
    /// closest curve sample under `seed`, and un-embedded.
    pub fn remap(&self, c: Color, seed: u64) -> (r: Color)
        requires
            self.wf(),
        ensures
            r == remap_spec(*self, seed, c),
    {
        let pts = self.points(seed);
        remap_px(&pts, c)
    }
}

/// Idempotence of remapping: whenever the remapped color's own embedding
/// selects the same curve sample as the original color's, remapping a second
/// time returns the same color, since both passes return the color of that
/// sample. A color whose quantized form re-embeds closer to a different
/// sample escapes the hypothesis.
pub proof fn lemma_remap_idempotent(curve: PaletteCurve, seed: u64, c: Color)
    requires
        closest_index_spec(
            curve.points_spec(seed),
            embed_color_spec(remap_spec(curve, seed, c)),
        ) == closest_index_spec(curve.points_spec(seed), embed_color_spec(c)),
    ensures
        remap_spec(curve, seed, remap_spec(curve, seed, c)) == remap_spec(curve, seed, c),
{
}

/// Chunk `i` of `out` holds the channels of `c` at full opacity.
pub open spec fn mapped_chunk_ok(out: Seq<u8>, c: Color, i: int) -> bool {
    &&& out[4 * i] == c.r
    &&& out[4 * i + 1] == c.g
    &&& out[4 * i + 2] == c.b
    &&& out[4 * i + 3] == 255
}

/// Number of channels a flat pixel buffer holds per pixel: four when the
/// length divides evenly by four, else three.
pub open spec fn channels_spec(len: int) -> int {
    if len % 4 == 0 {
        4
    } else {
        3
    }
}

/// The color of the `i`-th chunk of a flat buffer with `ch` channels.
pub open spec fn pixel_at_spec(pixels: Seq<u8>, ch: int, i: int) -> Color {
    Color { r: pixels[ch * i], g: pixels[ch * i + 1], b: pixels[ch * i + 2] }
}

/// Every complete pixel of a flat buffer remapped through the curve, with
/// full opacity forced; an incomplete trailing chunk is dropped. The output
/// holds four channels per pixel in input order.
pub fn map_pixels_to_curve(curve: &PaletteCurve, input_pixels: &Vec<u8>, seed: u64) -> (out: Vec<
    u8,
>)
    requires
        curve.wf(),
        input_pixels@.len() <= 0x40000000000,
    ensures
        out@.len() == 4 * ((input_pixels@.len() as int) / channels_spec(input_pixels@.len() as int)),
        forall|i: int|
            0 <= i < (input_pixels@.len() as int) / channels_spec(input_pixels@.len() as int)
                ==> mapped_chunk_ok(
                out@,
                remap_spec(
                    *curve,
                    seed,
                    #[trigger] pixel_at_spec(
                        input_pixels@,
                        channels_spec(input_pixels@.len() as int),
                        i,
                    ),
                ),
                i,
            ),
{
    let len = input_pixels.len();
    let ch: usize = if len % 4 == 0 {
        4
    } else {
        3
    };
    let n = len / ch;
    let pts = curve.points(seed);
    let mut out: Vec<u8> = Vec::new();
    let mut i: usize = 0;
    while i < n
        invariant
            curve.wf(),
            len == input_pixels@.len() <= 0x40000000000,
            ch == channels_spec(len as int),
            n == len as int / ch as int,
            i <= n,
            pts@ == curve.points_spec(seed),
            pts@.len() >= 1,
            forall|k: int| 0 <= k < pts@.len() ==> (#[trigger] pts@[k]).wf(),
            out@.len() == 4 * i,
            forall|k: int|
                0 <= k < i ==> mapped_chunk_ok(
                    out@,
                    remap_pts_spec(pts@, #[trigger] pixel_at_spec(input_pixels@, ch as int, k)),
                    k,
                ),
        decreases n - i,
    {
        proof {
            assert((i as int) * (ch as int) + 2 < len) by (nonlinear_arith)
                requires
                    0 <= i < n,
                    n == len as int / ch as int,
                    3 <= ch <= 4,
                    0 <= len,
            ;
        }
        let base = i * ch;
        let c = Color {
            r: input_pixels[base],
            g: input_pixels[base + 1],
            b: input_pixels[base + 2],
        };
        let m = remap_px(&pts, c);
        out.push(m.r);
        out.push(m.g);
        out.push(m.b);
        out.push(255);
        proof {
            assert(c == pixel_at_spec(input_pixels@, ch as int, i as int));
        }
        i = i + 1;
    }
    out
}

/// Chunk `p` of a three-channel buffer holds the channels of `c`.
pub open spec fn grid_chunk_ok(out: Seq<u8>, c: Color, p: int) -> bool {
    &&& out[3 * p] == c.r
    &&& out[3 * p + 1] == c.g
    &&& out[3 * p + 2] == c.b
}

/// The color of the `p`-th pixel of the palette grid: a 16-by-16 board of
/// 8-pixel squares, square `i` showing the color of curve sample `i`;
/// squares beyond the sample count stay black.
#[verifier::opaque]
pub open spec fn grid_color_at(curve: PaletteCurve, seed: u64, p: int) -> Color {
    let x = p % 128;
    let y = p / 128;
    let idx = (y / 8) * 16 + x / 8;
    if idx < curve.num_points && idx < 256 {
        color_of_vec_spec(curve.points_spec(seed)[idx])
    } else {
        Color { r: 0, g: 0, b: 0 }
    }
}

impl PaletteCurve {
    /// The flat three-channel pixel buffer of the palette grid: a
    /// 128-by-128 image of 8-pixel squares showing the first samples of
    /// this curve as colors, in row-major order.
    pub fn palette_grid_pixels(&self, seed: u64) -> (out: Vec<u8>)
        requires
            self.wf(),
        ensures
            out@.len() == 49152,
            forall|p: int|
                0 <= p < 16384 ==> grid_chunk_ok(
                    out@,
                    #[trigger] grid_color_at(*self, seed, p),
                    p,
                ),
    {
        let pts = self.points(seed);
        let m: usize = if self.num_points < 256 {
            self.num_points
        } else {
            256
        };
        let mut square_colors: Vec<Color> = Vec::new();
        let mut i: usize = 0;
        while i < m
            invariant
                m <= 256,
                m <= pts@.len(),
                i <= m,
                forall|k: int| 0 <= k < pts@.len() ==> (#[trigger] pts@[k]).wf(),
                square_colors@.len() == i,
                forall|k: int|
                    0 <= k < i ==> #[trigger] square_colors@[k] == color_of_vec_spec(pts@[k]),
            decreases m - i,
        {
            let c = color_of_vec(pts[i]);
            square_colors.push(c);
            i = i + 1;
        }
        let mut out: Vec<u8> = Vec::new();
        let mut p: usize = 0;
        while p < 16384
            invariant
                p <= 16384,
                m == if self.num_points < 256 {
                    self.num_points as int
                } else {
                    256
                },
                m <= 256,
                pts@ == self.points_spec(seed),
                m <= pts@.len(),
                square_colors@.len() == m,
                forall|k: int|
                    0 <= k < m ==> #[trigger] square_colors@[k] == color_of_vec_spec(pts@[k]),
                out@.len() == 3 * p,
                forall|k: int|
                    0 <= k < p ==> grid_chunk_ok(
                        out@,
                        #[trigger] grid_color_at(*self, seed, k),
                        k,
                    ),
            decreases 16384 - p,
        {
            let x = p % 128;
            let y = p / 128;
            let idx = (y / 8) * 16 + x / 8;
            let c = if idx < m {
                square_colors[idx]
            } else {
                Color { r: 0, g: 0, b: 0 }
            };
            proof {
                assert(c == grid_color_at(*self, seed, p as int)) by {
                    reveal(grid_color_at);
                }
            }
            out.push(c.r);
            out.push(c.g);
            out.push(c.b);
            p = p + 1;
        }
        out
    }
}

/// A three-channel buffer expanded to four channels at full opacity; an
/// incomplete trailing chunk is dropped.
pub fn rgb_to_rgba(pixels: &Vec<u8>) -> (out: Vec<u8>)
    requires
        pixels@.len() <= 0x40000000000,
    ensures
        out@.len() == 4 * ((pixels@.len() as int) / 3),
        forall|i: int|
            0 <= i < (pixels@.len() as int) / 3 ==> mapped_chunk_ok(
                out@,
                #[trigger] pixel_at_spec(pixels@, 3, i),
                i,
            ),
{
    let len = pixels.len();
    let n = len / 3;
    let mut out: Vec<u8> = Vec::new();
    let mut i: usize = 0;
    while i < n
        invariant
            len == pixels@.len() <= 0x40000000000,
            n == len as int / 3,
            i <= n,
            out@.len() == 4 * i,
            forall|k: int|
                0 <= k < i ==> mapped_chunk_ok(
                    out@,
                    #[trigger] pixel_at_spec(pixels@, 3, k),
                    k,
                ),
        decreases n - i,
    {
        proof {
            assert((i as int) * 3 + 2 < len) by (nonlinear_arith)
                requires
                    0 <= i < n,
                    n == len as int / 3,
                    0 <= len,
            ;
        }
        let base = i * 3;
        out.push(pixels[base]);
        out.push(pixels[base + 1]);
        out.push(pixels[base + 2]);
        out.push(255);
        i = i + 1;
    }
    out
}

} // verus!
