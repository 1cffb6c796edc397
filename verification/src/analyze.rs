//! Bottom-up quadtree construction: the fixed-point Alpha-YCbCr conversion,
//! the two homogeneity tests, and the per-tile builder recursion that fills
//! the canvas.

use vstd::prelude::*;
use vstd::pervasive::VecAdditionalExecFns;
use vstd::arithmetic::power2::pow2;
use vstd::arithmetic::div_mod::{
    lemma_div_is_ordered, lemma_div_multiples_vanish, lemma_div_pos_is_pos,
};
use crate::{CanvasPixel, GenericParams, Sample};
use crate::raster::{pix_at, Image};
use crate::util::{
    div_grid, div_quad, grid_tiles, imin, lemma_grid_tiles_wf, lemma_halve_keeps_pow2,
    lemma_pos_in_bounds, pos, pos_spec, tile_wf, Tile,
};

verus! {

/// Parameters required by [`analyze`].
///
/// Thresholds are fixed-point: a threshold of `t` stands for `t / 10000`
/// sample units, the same scale [`MergeMethod::rgba_to_aycbcr`] returns. The
/// larger a threshold, the more detail is merged away.
#[derive(Debug, Clone, Copy, PartialEq, Eq, Structural)]
pub struct AnalyzeParams {
    /// Threshold for the alpha and luma channels, in ten-thousandths.
    pub thres_ay: u32,
    /// Threshold for the two chroma channels, in ten-thousandths.
    pub thres_cbcr: u32,
    /// The algorithm used by the merging test.
    pub merge_method: MergeMethod,
}

/// Specifies the algorithm to use for merging tests.
#[non_exhaustive]
#[derive(Debug, Clone, Copy, PartialEq, Eq, Structural)]
pub enum MergeMethod {
    /// Per channel, greatest minus smallest value.
    Range,
    /// Per channel, population variance against the squared threshold.
    StDev,
}

/// Why [`analyze`] can fail.
#[non_exhaustive]
#[derive(Debug, Clone, Copy, PartialEq, Eq, Structural)]
pub enum AnalyzeError {
    /// The image has more pixels than the canvas has cells.
    ImageTooLarge,
}

/// Alpha channel scaled by ten thousand.
pub open spec fn conv_a(s: Sample) -> int {
    10000 * (s.a as int)
}

/// BT.709 luma, scaled by ten thousand.
pub open spec fn conv_y(s: Sample) -> int {
    2126 * (s.r as int) + 7152 * (s.g as int) + 722 * (s.b as int)
}

/// BT.709 blue chroma, scaled by ten thousand.
pub open spec fn conv_cb(s: Sample) -> int {
    5000 * (s.b as int) - 1146 * (s.r as int) - 3854 * (s.g as int)
}

/// BT.709 red chroma, scaled by ten thousand.
pub open spec fn conv_cr(s: Sample) -> int {
    5000 * (s.r as int) - 4542 * (s.g as int) - 458 * (s.b as int)
}

/// Greater of two integers.
pub open spec fn imax(a: int, b: int) -> int {
    if a >= b {
        a
    } else {
        b
    }
}

/// Whether the range (greatest minus smallest) of four values exceeds the
/// threshold.
pub open spec fn range_exceeds(v0: int, v1: int, v2: int, v3: int, t: int) -> bool {
    imax(imax(imax(v0, v1), v2), v3) - imin(imin(imin(v0, v1), v2), v3) > t
}

/// Whether the population variance of four values exceeds the squared
/// threshold. Both sides are scaled by sixteen to stay in integers.
pub open spec fn var_exceeds(v0: int, v1: int, v2: int, v3: int, t: int) -> bool {
    4 * (v0 * v0 + v1 * v1 + v2 * v2 + v3 * v3) - (v0 + v1 + v2 + v3) * (v0 + v1 + v2 + v3) > 16 * (
    t * t)
}

/// The homogeneity decision on four sibling colors: converted to Alpha-YCbCr,
/// each channel is tested against its threshold (alpha and luma share
/// `thres_ay`, the chroma pair shares `thres_cbcr`); the colors count as
/// fluctuated as soon as any channel exceeds.
pub open spec fn is_fluctuated_spec(
    c0: Sample,
    c1: Sample,
    c2: Sample,
    c3: Sample,
    params: AnalyzeParams,
) -> bool {
    match params.merge_method {
        MergeMethod::Range => {
            ||| range_exceeds(conv_a(c0), conv_a(c1), conv_a(c2), conv_a(c3), params.thres_ay as int)
            ||| range_exceeds(conv_y(c0), conv_y(c1), conv_y(c2), conv_y(c3), params.thres_ay as int)
            ||| range_exceeds(
                conv_cb(c0),
                conv_cb(c1),
                conv_cb(c2),
                conv_cb(c3),
                params.thres_cbcr as int,
            )
            ||| range_exceeds(
                conv_cr(c0),
                conv_cr(c1),
                conv_cr(c2),
                conv_cr(c3),
                params.thres_cbcr as int,
            )
        },
        MergeMethod::StDev => {
            ||| var_exceeds(conv_a(c0), conv_a(c1), conv_a(c2), conv_a(c3), params.thres_ay as int)
            ||| var_exceeds(conv_y(c0), conv_y(c1), conv_y(c2), conv_y(c3), params.thres_ay as int)
            ||| var_exceeds(
                conv_cb(c0),
                conv_cb(c1),
                conv_cb(c2),
                conv_cb(c3),
                params.thres_cbcr as int,
            )
            ||| var_exceeds(
                conv_cr(c0),
                conv_cr(c1),
                conv_cr(c2),
                conv_cr(c3),
                params.thres_cbcr as int,
            )
        },
    }
}

/// Component-wise mean of four colors, rounded down to the sample type.
pub open spec fn mean4(c0: Sample, c1: Sample, c2: Sample, c3: Sample) -> Sample {
    Sample {
        r: ((c0.r as int + c1.r as int + c2.r as int + c3.r as int) / 4) as u8,
        g: ((c0.g as int + c1.g as int + c2.g as int + c3.g as int) / 4) as u8,
        b: ((c0.b as int + c1.b as int + c2.b as int + c3.b as int) / 4) as u8,
        a: ((c0.a as int + c1.a as int + c2.a as int + c3.a as int) / 4) as u8,
    }
}

/// Channel `c` of a sample: red, green, blue, alpha in that order.
pub open spec fn chan(s: Sample, c: int) -> int {
    if c == 0 {
        s.r as int
    } else if c == 1 {
        s.g as int
    } else if c == 2 {
        s.b as int
    } else {
        s.a as int
    }
}

/// Sum of channel `c` over the `n` pixels `(sx, y) .. (sx + n - 1, y)`.
pub open spec fn row_sum(data: Seq<Sample>, img_w: int, y: int, sx: int, n: int, c: int) -> int
    decreases n,
{
    if n <= 0 {
        0
    } else {
        row_sum(data, img_w, y, sx, n - 1, c) + chan(pix_at(data, img_w, sx + n - 1, y), c)
    }
}

/// Sum of channel `c` over the `w * m` pixels of the first `m` rows of the
/// region starting at `(sx, sy)`.
pub open spec fn rect_sum(data: Seq<Sample>, img_w: int, sx: int, sy: int, w: int, m: int, c: int) -> int
    decreases m,
{
    if m <= 0 {
        0
    } else {
        rect_sum(data, img_w, sx, sy, w, m - 1, c) + row_sum(data, img_w, sy + m - 1, sx, w, c)
    }
}

/// Component-wise mean over every source pixel of a region, rounded down.
pub open spec fn region_mean(data: Seq<Sample>, img_w: int, sx: int, sy: int, w: int, h: int) -> Sample {
    Sample {
        r: (rect_sum(data, img_w, sx, sy, w, h, 0) / (w * h)) as u8,
        g: (rect_sum(data, img_w, sx, sy, w, h, 1) / (w * h)) as u8,
        b: (rect_sum(data, img_w, sx, sy, w, h, 2) / (w * h)) as u8,
        a: (rect_sum(data, img_w, sx, sy, w, h, 3) / (w * h)) as u8,
    }
}

/// A row's channel sum lies between zero and 255 per pixel.
proof fn lemma_row_sum_bounds(data: Seq<Sample>, img_w: int, y: int, sx: int, n: int, c: int)
    requires
        n >= 0,
    ensures
        0 <= row_sum(data, img_w, y, sx, n, c) <= 255 * n,
    decreases n,
{
    if n > 0 {
        lemma_row_sum_bounds(data, img_w, y, sx, n - 1, c);
    }
}

/// A region's channel sum lies between zero and 255 per pixel.
proof fn lemma_rect_sum_bounds(data: Seq<Sample>, img_w: int, sx: int, sy: int, w: int, m: int, c: int)
    requires
        w >= 0,
        m >= 0,
    ensures
        0 <= rect_sum(data, img_w, sx, sy, w, m, c) <= 255 * (w * m),
    decreases m,
{
    if m > 0 {
        lemma_rect_sum_bounds(data, img_w, sx, sy, w, m - 1, c);
        lemma_row_sum_bounds(data, img_w, sy + m - 1, sx, w, c);
        assert(255 * (w * (m - 1)) + 255 * w == 255 * (w * m)) by (nonlinear_arith);
    } else {
        assert(255 * (w * 0) == 0) by (nonlinear_arith);
    }
}

/// How many more levels the recursion may descend, plus one: the region
/// dimensions must hold at least `2^depth_gap` pixels so that the deepest
/// level still has a pixel to summarize.
pub open spec fn depth_gap(max_depth: int, depth: int) -> nat {
    if max_depth + 1 - depth >= 0 {
        (max_depth + 1 - depth) as nat
    } else {
        0
    }
}

/// The canvas after the builder has processed one region, and the region's
/// representative color: `None` when the region stayed subdivided.
///
/// Below the depth cap the region is split in four; if any child stayed
/// subdivided, or the four child colors fluctuate, nothing more is written
/// and the children remain the final leaves. Otherwise — and always at the
/// depth cap, where the color is the mean over the region's source pixels —
/// `(depth, color)` is recorded at the region's top-left pixel.
pub open spec fn go_build(
    data: Seq<Sample>,
    img_w: int,
    canvas: Seq<CanvasPixel>,
    sx: int,
    sy: int,
    w: int,
    h: int,
    an_params: AnalyzeParams,
    max_depth: int,
    depth: int,
) -> (Seq<CanvasPixel>, Option<Sample>)
    decreases max_depth - depth,
{
    if depth < max_depth {
        let w0 = w / 2;
        let h0 = h / 2;
        let t0 = go_build(data, img_w, canvas, sx, sy, w0, h0, an_params, max_depth, depth + 1);
        let t1 = go_build(data, img_w, t0.0, sx + w0, sy, w - w0, h0, an_params, max_depth, depth + 1);
        let t2 = go_build(data, img_w, t1.0, sx, sy + h0, w0, h - h0, an_params, max_depth, depth + 1);
        let t3 = go_build(
            data,
            img_w,
            t2.0,
            sx + w0,
            sy + h0,
            w - w0,
            h - h0,
            an_params,
            max_depth,
            depth + 1,
        );
        match (t0.1, t1.1, t2.1, t3.1) {
            (Some(c0), Some(c1), Some(c2), Some(c3)) => {
                if is_fluctuated_spec(c0, c1, c2, c3, an_params) {
                    (t3.0, None)
                } else {
                    let color = mean4(c0, c1, c2, c3);
                    (
                        t3.0.update(
                            pos_spec(img_w, sx, sy),
                            CanvasPixel { depth: depth as u8, color },
                        ),
                        Some(color),
                    )
                }
            },
            _ => (t3.0, None),
        }
    } else {
        let color = region_mean(data, img_w, sx, sy, w, h);
        (
            canvas.update(
                pos_spec(img_w, sx, sy),
                CanvasPixel { depth: depth as u8, color },
            ),
            Some(color),
        )
    }
}

/// The canvas after the builder has processed the given tiles in order,
/// each from depth one.
pub open spec fn build_tiles(
    data: Seq<Sample>,
    img_w: int,
    canvas: Seq<CanvasPixel>,
    tiles: Seq<Tile>,
    an_params: AnalyzeParams,
) -> Seq<CanvasPixel>
    decreases tiles.len(),
{
    if tiles.len() == 0 {
        canvas
    } else {
        let t = tiles[0];
        let c1 = go_build(
            data,
            img_w,
            canvas,
            t.start_at.0 as int,
            t.start_at.1 as int,
            t.area_size.0 as int,
            t.area_size.1 as int,
            an_params,
            t.real_max_depth as int,
            1,
        ).0;
        build_tiles(data, img_w, c1, tiles.drop_first(), an_params)
    }
}

/// The canvas a successful [`analyze`] call leaves behind.
pub open spec fn analyze_spec(
    data: Seq<Sample>,
    img_w: u32,
    img_h: u32,
    canvas: Seq<CanvasPixel>,
    ge_params: GenericParams,
    an_params: AnalyzeParams,
) -> Seq<CanvasPixel> {
    build_tiles(
        data,
        img_w as int,
        canvas,
        grid_tiles((img_w, img_h), ge_params.slicing_ratio, ge_params.max_depth),
        an_params,
    )
}

impl MergeMethod {
    /// ITU-R BT.709, in exact fixed point: each returned channel is the
    /// converted value scaled by ten thousand, in order alpha, luma, blue
    /// chroma, red chroma.
    pub fn rgba_to_aycbcr(rgba: Sample) -> (v: (i64, i64, i64, i64))
        ensures
            v.0 == conv_a(rgba),
            v.1 == conv_y(rgba),
            v.2 == conv_cb(rgba),
            v.3 == conv_cr(rgba),
    {
        let r = rgba.r as i64;
        let g = rgba.g as i64;
        let b = rgba.b as i64;
        let a = rgba.a as i64;
        (10000 * a, 2126 * r + 7152 * g + 722 * b, 5000 * b - 1146 * r - 3854 * g, 5000 * r - 4542
            * g - 458 * b)
    }

    /// Whether the four sibling colors are too different to merge.
    pub fn is_fluctuated(colors: [Sample; 4], params: AnalyzeParams) -> (r: bool)
        ensures
            r == is_fluctuated_spec(colors[0], colors[1], colors[2], colors[3], params),
    {
        let v0 = Self::rgba_to_aycbcr(colors[0]);
        let v1 = Self::rgba_to_aycbcr(colors[1]);
        let v2 = Self::rgba_to_aycbcr(colors[2]);
        let v3 = Self::rgba_to_aycbcr(colors[3]);
        match params.merge_method {
            MergeMethod::Range => range_exceeds_px(v0.0, v1.0, v2.0, v3.0, params.thres_ay)
                || range_exceeds_px(v0.1, v1.1, v2.1, v3.1, params.thres_ay)
                || range_exceeds_px(v0.2, v1.2, v2.2, v3.2, params.thres_cbcr)
                || range_exceeds_px(v0.3, v1.3, v2.3, v3.3, params.thres_cbcr),
            MergeMethod::StDev => var_exceeds_px(v0.0, v1.0, v2.0, v3.0, params.thres_ay)
                || var_exceeds_px(v0.1, v1.1, v2.1, v3.1, params.thres_ay)
                || var_exceeds_px(v0.2, v1.2, v2.2, v3.2, params.thres_cbcr)
                || var_exceeds_px(v0.3, v1.3, v2.3, v3.3, params.thres_cbcr),
        }
    }
}

/// Exact range test on one channel.
fn range_exceeds_px(v0: i64, v1: i64, v2: i64, v3: i64, t: u32) -> (r: bool)
    requires
        -3000000 <= v0 <= 3000000,
        -3000000 <= v1 <= 3000000,
        -3000000 <= v2 <= 3000000,
        -3000000 <= v3 <= 3000000,
    ensures
        r == range_exceeds(v0 as int, v1 as int, v2 as int, v3 as int, t as int),
{
    let mut hi = v0;
    let mut lo = v0;
    if v1 > hi {
        hi = v1;
    }
    if v2 > hi {
        hi = v2;
    }
    if v3 > hi {
        hi = v3;
    }
    if v1 < lo {
        lo = v1;
    }
    if v2 < lo {
        lo = v2;
    }
    if v3 < lo {
        lo = v3;
    }
    hi - lo > t as i64
}

/// Exact variance test on one channel.
fn var_exceeds_px(v0: i64, v1: i64, v2: i64, v3: i64, t: u32) -> (r: bool)
    requires
        -3000000 <= v0 <= 3000000,
        -3000000 <= v1 <= 3000000,
        -3000000 <= v2 <= 3000000,
        -3000000 <= v3 <= 3000000,
    ensures
        r == var_exceeds(v0 as int, v1 as int, v2 as int, v3 as int, t as int),
{
    proof {
        assert(0 <= v0 as int * v0 as int <= 3000000 * 3000000 && 0 <= v1 as int * v1 as int
            <= 3000000 * 3000000 && 0 <= v2 as int * v2 as int <= 3000000 * 3000000 && 0 <= v3 as int
            * v3 as int <= 3000000 * 3000000) by (nonlinear_arith)
            requires
                -3000000 <= v0 as int <= 3000000,
                -3000000 <= v1 as int <= 3000000,
                -3000000 <= v2 as int <= 3000000,
                -3000000 <= v3 as int <= 3000000,
        ;
        let s = v0 as int + v1 as int + v2 as int + v3 as int;
        assert(0 <= s * s <= 12000000 * 12000000) by (nonlinear_arith)
            requires
                -12000000 <= s <= 12000000,
        ;
        assert(0 <= t as int * t as int <= 0xffffffff * 0xffffffff) by (nonlinear_arith)
            requires
                0 <= t as int <= 0xffffffff,
        ;
    }
    let s = v0 + v1 + v2 + v3;
    let sq = v0 * v0 + v1 * v1 + v2 * v2 + v3 * v3;
    let lhs = 4 * sq - s * s;
    let rhs = 16 * ((t as i128) * (t as i128));
    (lhs as i128) > rhs
}

/// Component-wise mean of four colors, rounded down.
fn mean4_px(c0: Sample, c1: Sample, c2: Sample, c3: Sample) -> (s: Sample)
    ensures
        s == mean4(c0, c1, c2, c3),
{
    Sample {
        r: ((c0.r as u32 + c1.r as u32 + c2.r as u32 + c3.r as u32) / 4) as u8,
        g: ((c0.g as u32 + c1.g as u32 + c2.g as u32 + c3.g as u32) / 4) as u8,
        b: ((c0.b as u32 + c1.b as u32 + c2.b as u32 + c3.b as u32) / 4) as u8,
        a: ((c0.a as u32 + c1.a as u32 + c2.a as u32 + c3.a as u32) / 4) as u8,
    }
}

/// Component-wise mean over every source pixel of the region.
fn region_mean_px(img: &Image, sx: u32, sy: u32, w: u32, h: u32) -> (s: Sample)
    requires
        img.wf(),
        1 <= w,
        1 <= h,
        sx as int + w as int <= img.width as int,
        sy as int + h as int <= img.height as int,
    ensures
        s == region_mean(img.data@, img.width as int, sx as int, sy as int, w as int, h as int),
{
    let sxi = Ghost(sx as int);
    let syi = Ghost(sy as int);
    let wi = Ghost(w as int);
    let mut sr: u128 = 0;
    let mut sg: u128 = 0;
    let mut sb: u128 = 0;
    let mut sa: u128 = 0;
    let mut j: u32 = 0;
    proof {
        assert(0 <= w as int * h as int <= 0xffffffff * 0xffffffff) by (nonlinear_arith)
            requires
                0 <= w as int <= 0xffffffff,
                0 <= h as int <= 0xffffffff,
        ;
    }
    while j < h
        invariant
            img.wf(),
            1 <= w,
            1 <= h,
            sx as int + w as int <= img.width as int,
            sy as int + h as int <= img.height as int,
            j <= h,
            sr == rect_sum(img.data@, img.width as int, sx as int, sy as int, w as int, j as int, 0),
            sg == rect_sum(img.data@, img.width as int, sx as int, sy as int, w as int, j as int, 1),
            sb == rect_sum(img.data@, img.width as int, sx as int, sy as int, w as int, j as int, 2),
            sa == rect_sum(img.data@, img.width as int, sx as int, sy as int, w as int, j as int, 3),
        decreases h - j,
    {
        let mut i: u32 = 0;
        proof {
            lemma_rect_sum_bounds(img.data@, img.width as int, sx as int, sy as int, w as int, j as int, 0);
        }
        while i < w
            invariant
                img.wf(),
                1 <= w,
                1 <= h,
                sx as int + w as int <= img.width as int,
                sy as int + h as int <= img.height as int,
                j < h,
                i <= w,
                sr == rect_sum(img.data@, img.width as int, sx as int, sy as int, w as int, j as int, 0) + row_sum(
                    img.data@,
                    img.width as int,
                    sy as int + j as int,
                    sx as int,
                    i as int,
                    0,
                ),
                sg == rect_sum(img.data@, img.width as int, sx as int, sy as int, w as int, j as int, 1) + row_sum(
                    img.data@,
                    img.width as int,
                    sy as int + j as int,
                    sx as int,
                    i as int,
                    1,
                ),
                sb == rect_sum(img.data@, img.width as int, sx as int, sy as int, w as int, j as int, 2) + row_sum(
                    img.data@,
                    img.width as int,
                    sy as int + j as int,
                    sx as int,
                    i as int,
                    2,
                ),
                sa == rect_sum(img.data@, img.width as int, sx as int, sy as int, w as int, j as int, 3) + row_sum(
                    img.data@,
                    img.width as int,
                    sy as int + j as int,
                    sx as int,
                    i as int,
                    3,
                ),
            decreases w - i,
        {
            let p = img.at(sx + i, sy + j);
            proof {
                let c0 = 0int;
                lemma_rect_sum_bounds(img.data@, img.width as int, sx as int, sy as int, w as int, j as int, 0);
                lemma_rect_sum_bounds(img.data@, img.width as int, sx as int, sy as int, w as int, j as int, 1);
                lemma_rect_sum_bounds(img.data@, img.width as int, sx as int, sy as int, w as int, j as int, 2);
                lemma_rect_sum_bounds(img.data@, img.width as int, sx as int, sy as int, w as int, j as int, 3);
                lemma_row_sum_bounds(img.data@, img.width as int, sy as int + j as int, sx as int, i as int, 0);
                lemma_row_sum_bounds(img.data@, img.width as int, sy as int + j as int, sx as int, i as int, 1);
                lemma_row_sum_bounds(img.data@, img.width as int, sy as int + j as int, sx as int, i as int, 2);
                lemma_row_sum_bounds(img.data@, img.width as int, sy as int + j as int, sx as int, i as int, 3);
                assert(0 <= w as int * j as int <= 0xffffffff * 0xffffffff) by (nonlinear_arith)
                    requires
                        0 <= w as int <= 0xffffffff,
                        0 <= j as int <= 0xffffffff,
                ;
                assert(255 * (w as int * j as int) + 255 * (i as int) + 255 <= 255 * (0xffffffff
                    * 0xffffffff) + 255 * 0xffffffff + 255) by (nonlinear_arith)
                    requires
                        0 <= w as int * j as int <= 0xffffffff * 0xffffffff,
                        0 <= i as int <= 0xffffffff,
                ;
            }
            sr = sr + p.r as u128;
            sg = sg + p.g as u128;
            sb = sb + p.b as u128;
            sa = sa + p.a as u128;
            i = i + 1;
        }
        j = j + 1;
    }
    let area = (w as u128) * (h as u128);
    proof {
        lemma_rect_sum_bounds(img.data@, img.width as int, sx as int, sy as int, w as int, h as int, 0);
        lemma_rect_sum_bounds(img.data@, img.width as int, sx as int, sy as int, w as int, h as int, 1);
        lemma_rect_sum_bounds(img.data@, img.width as int, sx as int, sy as int, w as int, h as int, 2);
        lemma_rect_sum_bounds(img.data@, img.width as int, sx as int, sy as int, w as int, h as int, 3);
        assert(1 <= w as int * h as int) by (nonlinear_arith)
            requires
                1 <= w as int,
                1 <= h as int,
        ;
        let a = w as int * h as int;
        lemma_div_multiples_vanish(255, a);
        lemma_div_is_ordered(rect_sum(img.data@, img.width as int, sx as int, sy as int, w as int, h as int, 0), 255 * a, a);
        lemma_div_is_ordered(rect_sum(img.data@, img.width as int, sx as int, sy as int, w as int, h as int, 1), 255 * a, a);
        lemma_div_is_ordered(rect_sum(img.data@, img.width as int, sx as int, sy as int, w as int, h as int, 2), 255 * a, a);
        lemma_div_is_ordered(rect_sum(img.data@, img.width as int, sx as int, sy as int, w as int, h as int, 3), 255 * a, a);
        lemma_div_pos_is_pos(rect_sum(img.data@, img.width as int, sx as int, sy as int, w as int, h as int, 0), a);
        lemma_div_pos_is_pos(rect_sum(img.data@, img.width as int, sx as int, sy as int, w as int, h as int, 1), a);
        lemma_div_pos_is_pos(rect_sum(img.data@, img.width as int, sx as int, sy as int, w as int, h as int, 2), a);
        lemma_div_pos_is_pos(rect_sum(img.data@, img.width as int, sx as int, sy as int, w as int, h as int, 3), a);
    }
    Sample { r: (sr / area) as u8, g: (sg / area) as u8, b: (sb / area) as u8, a: (sa / area) as u8 }
}

/// One region of the builder recursion. Returns the representative color, or
/// `None` when the region stayed subdivided; all durable output is written
/// into the canvas.
#[verifier::rlimit(100)]
fn go_depth(
    img: &Image,
    canvas: &mut Vec<CanvasPixel>,
    start_at: (u32, u32),
    area_size: (u32, u32),
    an_params: AnalyzeParams,
    max_depth: u8,
    now_depth: u8,
) -> (r: Option<Sample>)
    requires
        img.wf(),
        old(canvas)@.len() >= img.width as int * img.height as int,
        1 <= now_depth,
        (start_at.0 as int) < img.width as int,
        (start_at.1 as int) < img.height as int,
        start_at.0 as int + area_size.0 as int <= img.width as int,
        start_at.1 as int + area_size.1 as int <= img.height as int,
        area_size.0 as int >= pow2(depth_gap(max_depth as int, now_depth as int)),
        area_size.1 as int >= pow2(depth_gap(max_depth as int, now_depth as int)),
    ensures
        final(canvas)@.len() == old(canvas)@.len(),
        (final(canvas)@, r) == go_build(
            img.data@,
            img.width as int,
            old(canvas)@,
            start_at.0 as int,
            start_at.1 as int,
            area_size.0 as int,
            area_size.1 as int,
            an_params,
            max_depth as int,
            now_depth as int,
        ),
    decreases max_depth as int - now_depth as int,
{
    let (sx, sy) = start_at;
    let (w, h) = area_size;
    let img_w = img.width;
    let ghost c_in = canvas@;
    let ghost sxi = sx as int;
    let ghost syi = sy as int;
    let ghost wi = w as int;
    let ghost hi = h as int;
    let ghost mdi = max_depth as int;
    let ghost di = now_depth as int;
    proof {
        vstd::arithmetic::power2::lemma_pow2_pos(depth_gap(mdi, di));
    }

    if now_depth < max_depth {
        proof {
            let gap = depth_gap(mdi, di);
            assert(gap >= 2);
            lemma_halve_keeps_pow2(wi, gap as int);
            lemma_halve_keeps_pow2(hi, gap as int);
            assert(depth_gap(mdi, di + 1) == (gap - 1) as nat);
            vstd::arithmetic::power2::lemma_pow2_pos((gap - 1) as nat);
        }
        let quads = div_quad(start_at, area_size);
        let q0 = quads[0];
        let q1 = quads[1];
        let q2 = quads[2];
        let q3 = quads[3];
        proof {
            assert(q0.0.0 as int == sxi && q0.0.1 as int == syi && q0.1.0 as int == wi / 2
                && q0.1.1 as int == hi / 2);
            assert(q1.0.0 as int == sxi + wi / 2 && q1.0.1 as int == syi && q1.1.0 as int == wi
                - wi / 2 && q1.1.1 as int == hi / 2);
            assert(q2.0.0 as int == sxi && q2.0.1 as int == syi + hi / 2 && q2.1.0 as int == wi / 2
                && q2.1.1 as int == hi - hi / 2);
            assert(q3.0.0 as int == sxi + wi / 2 && q3.0.1 as int == syi + hi / 2 && q3.1.0 as int
                == wi - wi / 2 && q3.1.1 as int == hi - hi / 2);
        }
        let ghost t0 = go_build(img.data@, img.width as int, c_in, sxi, syi, wi / 2, hi / 2, an_params, mdi, di + 1);
        let ghost t1 = go_build(
            img.data@,
            img.width as int,
            t0.0,
            sxi + wi / 2,
            syi,
            wi - wi / 2,
            hi / 2,
            an_params,
            mdi,
            di + 1,
        );
        let ghost t2 = go_build(
            img.data@,
            img.width as int,
            t1.0,
            sxi,
            syi + hi / 2,
            wi / 2,
            hi - hi / 2,
            an_params,
            mdi,
            di + 1,
        );
        let ghost t3 = go_build(
            img.data@,
            img.width as int,
            t2.0,
            sxi + wi / 2,
            syi + hi / 2,
            wi - wi / 2,
            hi - hi / 2,
            an_params,
            mdi,
            di + 1,
        );
        let r0 = go_depth(img, canvas, q0.0, q0.1, an_params, max_depth, now_depth + 1);
        proof {
            assert((canvas@, r0) == t0);
        }
        let r1 = go_depth(img, canvas, q1.0, q1.1, an_params, max_depth, now_depth + 1);
        proof {
            assert((canvas@, r1) == t1);
        }
        let r2 = go_depth(img, canvas, q2.0, q2.1, an_params, max_depth, now_depth + 1);
        proof {
            assert((canvas@, r2) == t2);
        }
        let r3 = go_depth(img, canvas, q3.0, q3.1, an_params, max_depth, now_depth + 1);
        proof {
            assert((canvas@, r3) == t3);
        }
        let ghost whole = go_build(img.data@, img.width as int, c_in, sxi, syi, wi, hi, an_params, mdi, di);
        proof {
            assert(whole == match (t0.1, t1.1, t2.1, t3.1) {
                (Some(c0), Some(c1), Some(c2), Some(c3)) => {
                    if is_fluctuated_spec(c0, c1, c2, c3, an_params) {
                        (t3.0, None::<Sample>)
                    } else {
                        let color = mean4(c0, c1, c2, c3);
                        (
                            t3.0.update(
                                pos_spec(img.width as int, sxi, syi),
                                CanvasPixel { depth: di as u8, color },
                            ),
                            Some(color),
                        )
                    }
                },
                _ => (t3.0, None::<Sample>),
            });
        }
        match (r0, r1, r2, r3) {
            (Some(c0), Some(c1), Some(c2), Some(c3)) => {
                if MergeMethod::is_fluctuated([c0, c1, c2, c3], an_params) {
                    proof {
                        assert(whole == (canvas@, None::<Sample>));
                    }
                    None
                } else {
                    let color = mean4_px(c0, c1, c2, c3);
                    let cap = canvas.len();
                    proof {
                        lemma_pos_in_bounds(img.width as int, img.height as int, sxi, syi);
                        assert(cap == canvas@.len());
                    }
                    let idx = pos(img_w, sx, sy);
                    canvas.set(idx, CanvasPixel { depth: now_depth, color });
                    proof {
                        assert(whole == (canvas@, Some(color)));
                    }
                    Some(color)
                }
            },
            _ => {
                proof {
                    assert(whole == (canvas@, None::<Sample>));
                }
                None
            },
        }
    } else {
        let color = region_mean_px(img, sx, sy, w, h);
        let cap = canvas.len();
        proof {
            lemma_pos_in_bounds(img.width as int, img.height as int, sxi, syi);
            assert(cap == canvas@.len());
        }
        let idx = pos(img_w, sx, sy);
        canvas.set(idx, CanvasPixel { depth: now_depth, color });
        Some(color)
    }
}

/// Performs quadtree analysis of an image and stores the result in a canvas.
///
/// Fails with [`AnalyzeError::ImageTooLarge`], leaving the canvas untouched,
/// exactly when the image has more pixels than the canvas has cells;
/// otherwise the canvas afterwards is [`analyze_spec`] of its old contents.
pub fn analyze(
    img: &Image,
    canvas: &mut Vec<CanvasPixel>,
    ge_params: GenericParams,
    an_params: AnalyzeParams,
) -> (r: Result<(), AnalyzeError>)
    requires
        img.wf(),
        ge_params.slicing_ratio.0 >= 1,
        ge_params.slicing_ratio.1 >= 1,
    ensures
        r is Ok <==> img.width as int * img.height as int <= old(canvas)@.len(),
        final(canvas)@.len() == old(canvas)@.len(),
        r is Err ==> final(canvas)@ == old(canvas)@ && r == Err::<(), AnalyzeError>(
            AnalyzeError::ImageTooLarge,
        ),
        r is Ok ==> final(canvas)@ == analyze_spec(img.data@, img.width, img.height, old(canvas)@, ge_params, an_params),
{
    let img_w = img.width;
    let img_h = img.height;
    proof {
        assert(0 <= img_w as int * img_h as int <= 0xffffffff * 0xffffffff) by (nonlinear_arith)
            requires
                0 <= img_w as int <= 0xffffffff,
                0 <= img_h as int <= 0xffffffff,
        ;
    }
    let cap = canvas.len();
    if (img_w as u64) * (img_h as u64) > (cap as u64) {
        return Err(AnalyzeError::ImageTooLarge);
    }

    let tiles = div_grid((img_w, img_h), ge_params.slicing_ratio, ge_params.max_depth);
    proof {
        lemma_grid_tiles_wf((img_w, img_h), ge_params.slicing_ratio, ge_params.max_depth);
    }
    let ghost gts = grid_tiles((img_w, img_h), ge_params.slicing_ratio, ge_params.max_depth);
    proof {
        assert(gts.skip(0) =~= gts);
    }

    let mut k: usize = 0;
    while k < tiles.len()
        invariant
            img.wf(),
            img_w == img.width,
            img_h == img.height,
            canvas@.len() == old(canvas)@.len(),
            old(canvas)@.len() >= img.width as int * img.height as int,
            tiles@ == gts,
            gts == grid_tiles((img.width, img.height), ge_params.slicing_ratio, ge_params.max_depth),
            forall|j: int|
                0 <= j < gts.len() ==> tile_wf(
                    (img.width, img.height),
                    ge_params.max_depth,
                    #[trigger] gts[j],
                ),
            k <= gts.len(),
            build_tiles(img.data@, img.width as int, canvas@, gts.skip(k as int), an_params)
                == build_tiles(img.data@, img.width as int, old(canvas)@, gts, an_params),
        decreases gts.len() - k,
    {
        let t = tiles[k];
        let ghost before = canvas@;
        proof {
            assert(tile_wf((img.width, img.height), ge_params.max_depth, gts[k as int]));
            assert(depth_gap(t.real_max_depth as int, 1) == t.real_max_depth as nat);
        }
        let _ = go_depth(img, canvas, t.start_at, t.area_size, an_params, t.real_max_depth, 1);
        proof {
            assert(gts.skip(k as int)[0] == gts[k as int]);
            assert(gts.skip(k as int).drop_first() =~= gts.skip(k as int + 1));
        }
        k = k + 1;
    }
    proof {
        assert(gts.skip(gts.len() as int) =~= Seq::<Tile>::empty());
    }
    Ok(())
}

/// Helper for [`lemma_analyze_never_writes_depth_zero`], one region at one
/// cell index.
proof fn lemma_go_build_cells(
    data: Seq<Sample>,
    img_w: int,
    img_h: int,
    canvas: Seq<CanvasPixel>,
    sx: int,
    sy: int,
    w: int,
    h: int,
    an_params: AnalyzeParams,
    max_depth: int,
    depth: int,
    i: int,
)
    requires
        canvas.len() >= img_w * img_h,
        1 <= depth <= 255,
        max_depth <= 255,
        0 <= sx < img_w,
        0 <= sy < img_h,
        0 <= w,
        0 <= h,
        sx + w <= img_w,
        sy + h <= img_h,
    ensures
        ({
            let out = go_build(data, img_w, canvas, sx, sy, w, h, an_params, max_depth, depth).0;
            &&& out.len() == canvas.len()
            &&& (0 <= i < canvas.len() ==> (out[i] == canvas[i] || out[i].depth >= 1))
        }),
    decreases max_depth - depth,
{
    lemma_pos_in_bounds(img_w, img_h, sx, sy);
    if depth < max_depth {
        let w0 = w / 2;
        let h0 = h / 2;
        let c0 = go_build(data, img_w, canvas, sx, sy, w0, h0, an_params, max_depth, depth + 1).0;
        lemma_go_build_cells(data, img_w, img_h, canvas, sx, sy, w0, h0, an_params, max_depth, depth + 1, i);
        let c1 = go_build(data, img_w, c0, sx + w0, sy, w - w0, h0, an_params, max_depth, depth + 1).0;
        lemma_go_build_cells(data, img_w, img_h, c0, sx + w0, sy, w - w0, h0, an_params, max_depth, depth + 1, i);
        let c2 = go_build(data, img_w, c1, sx, sy + h0, w0, h - h0, an_params, max_depth, depth + 1).0;
        lemma_go_build_cells(data, img_w, img_h, c1, sx, sy + h0, w0, h - h0, an_params, max_depth, depth + 1, i);
        let c3 = go_build(data, img_w, c2, sx + w0, sy + h0, w - w0, h - h0, an_params, max_depth, depth + 1).0;
        lemma_go_build_cells(data, img_w, img_h, c2, sx + w0, sy + h0, w - w0, h - h0, an_params, max_depth, depth + 1, i);
    }
}

/// Helper for [`lemma_analyze_never_writes_depth_zero`], one tile list at
/// one cell index.
proof fn lemma_build_tiles_cells(
    data: Seq<Sample>,
    img_w: int,
    img_h: int,
    canvas: Seq<CanvasPixel>,
    tiles: Seq<Tile>,
    an_params: AnalyzeParams,
    max_depth: u8,
    i: int,
)
    requires
        canvas.len() >= img_w * img_h,
        forall|k: int|
            0 <= k < tiles.len() ==> tile_wf(
                (img_w as u32, img_h as u32),
                max_depth,
                #[trigger] tiles[k],
            ),
        0 <= img_w <= 0xffffffff,
        0 <= img_h <= 0xffffffff,
    ensures
        ({
            let out = build_tiles(data, img_w, canvas, tiles, an_params);
            &&& out.len() == canvas.len()
            &&& (0 <= i < canvas.len() ==> (out[i] == canvas[i] || out[i].depth >= 1))
        }),
    decreases tiles.len(),
{
    if tiles.len() > 0 {
        let t = tiles[0];
        assert(tile_wf((img_w as u32, img_h as u32), max_depth, t));
        let c1 = go_build(
            data,
            img_w,
            canvas,
            t.start_at.0 as int,
            t.start_at.1 as int,
            t.area_size.0 as int,
            t.area_size.1 as int,
            an_params,
            t.real_max_depth as int,
            1,
        ).0;
        lemma_go_build_cells(
            data,
            img_w,
            img_h,
            canvas,
            t.start_at.0 as int,
            t.start_at.1 as int,
            t.area_size.0 as int,
            t.area_size.1 as int,
            an_params,
            t.real_max_depth as int,
            1,
            i,
        );
        let rest = tiles.drop_first();
        assert(forall|k: int| 0 <= k < rest.len() ==> #[trigger] rest[k] == tiles[k + 1]);
        lemma_build_tiles_cells(data, img_w, img_h, c1, rest, an_params, max_depth, i);
    }
}

/// The builder never produces depth zero: after a build, every canvas cell
/// either still holds exactly what it held before, or records a depth of at
/// least one. Depth zero therefore reliably marks a cell no build has
/// covered.
pub proof fn lemma_analyze_never_writes_depth_zero(
    data: Seq<Sample>,
    img_w: u32,
    img_h: u32,
    canvas: Seq<CanvasPixel>,
    ge_params: GenericParams,
    an_params: AnalyzeParams,
    i: int,
)
    requires
        ge_params.slicing_ratio.0 >= 1,
        ge_params.slicing_ratio.1 >= 1,
        canvas.len() >= img_w as int * img_h as int,
    ensures
        ({
            let out = analyze_spec(data, img_w, img_h, canvas, ge_params, an_params);
            &&& out.len() == canvas.len()
            &&& (0 <= i < canvas.len() ==> (out[i] == canvas[i] || out[i].depth >= 1))
        }),
{
    lemma_grid_tiles_wf((img_w, img_h), ge_params.slicing_ratio, ge_params.max_depth);
    lemma_build_tiles_cells(
        data,
        img_w as int,
        img_h as int,
        canvas,
        grid_tiles((img_w, img_h), ge_params.slicing_ratio, ge_params.max_depth),
        an_params,
        ge_params.max_depth,
        i,
    );
}

/// Four equal values never exceed a variance threshold.
proof fn lemma_var_identical(v: int, t: int)
    requires
        t >= 0,
    ensures
        !var_exceeds(v, v, v, v, t),
{
    assert(4 * (v * v + v * v + v * v + v * v) - (v + v + v + v) * (v + v + v + v) == 0)
        by (nonlinear_arith);
    assert(16 * (t * t) >= 0) by (nonlinear_arith)
        requires
            t >= 0,
    ;
}

/// Four identical colors never count as fluctuated, under either merge
/// method, whatever the thresholds.
pub proof fn lemma_identical_colors_never_fluctuate(c: Sample, params: AnalyzeParams)
    ensures
        !is_fluctuated_spec(c, c, c, c, params),
{
    lemma_var_identical(conv_a(c), params.thres_ay as int);
    lemma_var_identical(conv_y(c), params.thres_ay as int);
    lemma_var_identical(conv_cb(c), params.thres_cbcr as int);
    lemma_var_identical(conv_cr(c), params.thres_cbcr as int);
}

/// On four identical colors the range test and the standard-deviation test
/// agree: both say not fluctuated, whatever the thresholds.
pub proof fn lemma_merge_methods_agree_on_identical(c: Sample, thres_ay: u32, thres_cbcr: u32)
    ensures
        ({
            let by_range = AnalyzeParams { thres_ay, thres_cbcr, merge_method: MergeMethod::Range };
            let by_stdev = AnalyzeParams { thres_ay, thres_cbcr, merge_method: MergeMethod::StDev };
            &&& !is_fluctuated_spec(c, c, c, c, by_range)
            &&& !is_fluctuated_spec(c, c, c, c, by_stdev)
            &&& is_fluctuated_spec(c, c, c, c, by_range) == is_fluctuated_spec(c, c, c, c, by_stdev)
        }),
{
    let by_range = AnalyzeParams { thres_ay, thres_cbcr, merge_method: MergeMethod::Range };
    let by_stdev = AnalyzeParams { thres_ay, thres_cbcr, merge_method: MergeMethod::StDev };
    lemma_identical_colors_never_fluctuate(c, by_range);
    lemma_identical_colors_never_fluctuate(c, by_stdev);
}

} // verus!
