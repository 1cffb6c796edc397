//! Top-down reconstruction: the renderer walks the canvas left by the
//! builder and paints every leaf with a pluggable brush.

use vstd::prelude::*;
use vstd::arithmetic::div_mod::lemma_multiply_divide_lt;
use crate::{CanvasPixel, GenericParams, Sample};
use crate::raster::{fill_masked, fill_masked_spec, Image, Mask};
use crate::util::{
    div_grid, div_quad, grid_tiles, imin, lemma_grid_tiles_cover, lemma_grid_tiles_wf,
    lemma_pos_decompose, lemma_pos_in_bounds, pos, pos_spec,
    region_contains, tile_contains, tile_wf, Tile,
};

verus! {

/// Parameters required by [`render`].
#[derive(Debug, Clone, Copy, PartialEq, Eq, Structural)]
pub struct RenderParams {
    /// The background color of the whole-image pre-fill, used when the
    /// brush's shape does not cover its full bounding box.
    pub bg_color: Sample,
    /// The color of the stroke.
    pub stroke_color: Sample,
    /// The width of the stroke; zero means no stroke.
    pub stroke_width: u32,
    /// Random seed for custom brushes. (reserved)
    pub seed: u64,
}

/// Why [`render`] could fail. No failure exists today: [`render`] always
/// returns `Ok`, and the one variant is reserved for forward compatibility.
#[non_exhaustive]
#[derive(Debug, Clone, Copy, PartialEq, Eq, Structural)]
pub enum RenderError {
    /// Reserved; never produced.
    Reserved,
}

/// Interface for brushes: the pluggable painter the renderer invokes once
/// per quadtree leaf.
pub trait Brush: Sized {
    /// Whether the whole image must be filled with the background color
    /// before any leaf is painted: true when the brush's shape does not
    /// cover its full bounding box.
    spec fn needs_background(&self) -> bool;

    /// The image data this brush leaves behind after painting one leaf.
    spec fn paint_spec(
        &self,
        data: Seq<Sample>,
        img_w: int,
        img_h: int,
        params: RenderParams,
        sx: int,
        sy: int,
        w: int,
        h: int,
        time_ms: int,
        now_depth: u8,
        color: Sample,
    ) -> Seq<Sample>;

    /// Painting never changes the buffer length.
    proof fn paint_spec_len(
        &self,
        data: Seq<Sample>,
        img_w: int,
        img_h: int,
        params: RenderParams,
        sx: int,
        sy: int,
        w: int,
        h: int,
        time_ms: int,
        now_depth: u8,
        color: Sample,
    )
        ensures
            self.paint_spec(data, img_w, img_h, params, sx, sy, w, h, time_ms, now_depth, color).len()
                == data.len(),
    ;

    /// A brush that declares no background need covers its leaf: inside the
    /// leaf the painted result at buffer index `i` does not depend on the
    /// prior pixels, and outside the leaf it changes nothing.
    proof fn paint_determined(
        &self,
        d1: Seq<Sample>,
        d2: Seq<Sample>,
        img_w: int,
        img_h: int,
        params: RenderParams,
        sx: int,
        sy: int,
        w: int,
        h: int,
        time_ms: int,
        now_depth: u8,
        color: Sample,
        i: int,
    )
        requires
            !self.needs_background(),
            img_w >= 1,
            d1.len() == img_w * img_h,
            d2.len() == img_w * img_h,
            0 <= sx,
            0 <= sy,
            sx + w <= img_w,
            sy + h <= img_h,
            0 <= i < d1.len(),
        ensures
            ({
                let x = i % img_w;
                let y = i / img_w;
                let r1 = self.paint_spec(
                    d1, img_w, img_h, params, sx, sy, w, h, time_ms, now_depth, color,
                );
                let r2 = self.paint_spec(
                    d2, img_w, img_h, params, sx, sy, w, h, time_ms, now_depth, color,
                );
                if sx <= x < sx + w && sy <= y < sy + h {
                    r1[i] == r2[i]
                } else {
                    r1[i] == d1[i] && r2[i] == d2[i]
                }
            }),
    ;

    /// Whether the renderer must pre-fill the image with the background.
    fn need_background(&self) -> (b: bool)
        ensures
            b == self.needs_background(),
    ;

    /// Paints one leaf: the region at `start_at` of `area_size` pixels, with
    /// the leaf's representative color, its depth, and the elapsed animation
    /// time in milliseconds.
    fn paint(
        &self,
        img: &mut Image,
        params: RenderParams,
        start_at: (u32, u32),
        area_size: (u32, u32),
        time_ms: u64,
        now_depth: u8,
        color: Sample,
    )
        requires
            old(img).wf(),
            start_at.0 as int + area_size.0 as int <= old(img).width as int,
            start_at.1 as int + area_size.1 as int <= old(img).height as int,
        ensures
            final(img).wf(),
            final(img).width == old(img).width,
            final(img).height == old(img).height,
            final(img).data@ == self.paint_spec(
                old(img).data@,
                old(img).width as int,
                old(img).height as int,
                params,
                start_at.0 as int,
                start_at.1 as int,
                area_size.0 as int,
                area_size.1 as int,
                time_ms as int,
                now_depth,
                color,
            ),
    ;
}

/// The image data after drawing a rectangle's inner stroke of the given
/// width: the four edge bands, or the whole rectangle when the stroke is at
/// least as wide as one of its sides.
pub open spec fn rect_stroke_spec(
    data: Seq<Sample>,
    img_w: int,
    sx: int,
    sy: int,
    w: int,
    h: int,
    sw: int,
    c: Sample,
) -> Seq<Sample> {
    if sw >= imin(w, h) {
        fill_masked_spec(data, img_w, sx, sy, w, h, Mask::Full, c)
    } else {
        let se = sw / 2;
        let ss = sw - se;
        let d1 = fill_masked_spec(data, img_w, sx, sy, w, ss, Mask::Full, c);
        let d2 = fill_masked_spec(d1, img_w, sx, sy, ss, h, Mask::Full, c);
        if se > 0 {
            let d3 = fill_masked_spec(d2, img_w, sx, sy + h - se, w, se, Mask::Full, c);
            fill_masked_spec(d3, img_w, sx + w - se, sy, se, h, Mask::Full, c)
        } else {
            d2
        }
    }
}

/// Draws a rectangle's inner stroke.
fn draw_rect_inner_stroke(img: &mut Image, sx: u32, sy: u32, w: u32, h: u32, sw: u32, c: Sample)
    requires
        old(img).wf(),
        sx as int + w as int <= old(img).width as int,
        sy as int + h as int <= old(img).height as int,
    ensures
        final(img).wf(),
        final(img).width == old(img).width,
        final(img).height == old(img).height,
        final(img).data@ == rect_stroke_spec(
            old(img).data@,
            old(img).width as int,
            sx as int,
            sy as int,
            w as int,
            h as int,
            sw as int,
            c,
        ),
{
    let smaller = if w < h {
        w
    } else {
        h
    };
    if sw >= smaller {
        fill_masked(img, sx, sy, w, h, Mask::Full, c);
        return ;
    }
    let se = sw / 2;
    let ss = sw - se;
    fill_masked(img, sx, sy, w, ss, Mask::Full, c);
    fill_masked(img, sx, sy, ss, h, Mask::Full, c);
    if se > 0 {
        fill_masked(img, sx, sy + h - se, w, se, Mask::Full, c);
        fill_masked(img, sx + w - se, sy, se, h, Mask::Full, c);
    }
}

/// Hue scaled to thousandths of a degree in `[0, 360000)`.
pub open spec fn hue_wf(h_md: int) -> bool {
    0 <= h_md < 360000
}

/// The library's hue mapping for the hue-shifting brushes: hue in
/// thousandths of a degree, saturation and lightness in thousandths, turned
/// into an opaque RGBA sample by the standard hue-sextant construction,
/// rounded down and clamped.
pub open spec fn hsl_color(h_md: int, s_pm: int, l_pm: int) -> Sample {
    let c = (1000 - abs_i(2 * l_pm - 1000)) * s_pm / 1000;
    let x = c * (60000 - abs_i(h_md % 120000 - 60000)) / 60000;
    let m = l_pm - c / 2;
    let sector = h_md / 60000;
    let rgb: (int, int, int) = if sector == 0 {
        (c, x, 0)
    } else if sector == 1 {
        (x, c, 0)
    } else if sector == 2 {
        (0, c, x)
    } else if sector == 3 {
        (0, x, c)
    } else if sector == 4 {
        (x, 0, c)
    } else {
        (c, 0, x)
    };
    Sample {
        r: clamp_byte((rgb.0 + m) * 255 / 1000) as u8,
        g: clamp_byte((rgb.1 + m) * 255 / 1000) as u8,
        b: clamp_byte((rgb.2 + m) * 255 / 1000) as u8,
        a: 255,
    }
}

/// Absolute value.
pub open spec fn abs_i(v: int) -> int {
    if v >= 0 {
        v
    } else {
        -v
    }
}

/// Clamps an integer into the byte range.
pub open spec fn clamp_byte(v: int) -> int {
    if v < 0 {
        0
    } else if v > 255 {
        255
    } else {
        v
    }
}

/// Exact fixed-point form of the hue mapping.
fn hsl_to_sample(h_md: u32, s_pm: u32, l_pm: u32) -> (s: Sample)
    requires
        h_md < 360000,
        s_pm <= 1000,
        l_pm <= 1000,
    ensures
        s == hsl_color(h_md as int, s_pm as int, l_pm as int),
{
    let two_l = 2 * (l_pm as i64);
    let dev = if two_l >= 1000 {
        two_l - 1000
    } else {
        1000 - two_l
    };
    proof {
        assert(0 <= (1000 - dev as int) * (s_pm as int) <= 1000 * 1000) by (nonlinear_arith)
            requires
                0 <= 1000 - dev as int <= 1000,
                0 <= s_pm as int <= 1000,
        ;
    }
    let c = (1000 - dev) * (s_pm as i64) / 1000;
    let hm = (h_md as i64) % 120000;
    let hdev = if hm >= 60000 {
        hm - 60000
    } else {
        60000 - hm
    };
    proof {
        assert(0 <= c as int * (60000 - hdev as int) <= 1000 * 60000) by (nonlinear_arith)
            requires
                0 <= c as int <= 1000,
                0 <= 60000 - hdev as int <= 60000,
        ;
    }
    let x = c * (60000 - hdev) / 60000;
    let m = (l_pm as i64) - c / 2;
    let sector = h_md / 60000;
    let (r0, g0, b0) = if sector == 0 {
        (c, x, 0i64)
    } else if sector == 1 {
        (x, c, 0i64)
    } else if sector == 2 {
        (0i64, c, x)
    } else if sector == 3 {
        (0i64, x, c)
    } else if sector == 4 {
        (x, 0i64, c)
    } else {
        (c, 0i64, x)
    };
    Sample {
        r: clamp_byte_px((r0 + m) * 255 / 1000),
        g: clamp_byte_px((g0 + m) * 255 / 1000),
        b: clamp_byte_px((b0 + m) * 255 / 1000),
        a: 255,
    }
}

/// Clamps into the byte range.
fn clamp_byte_px(v: i64) -> (r: u8)
    ensures
        r as int == clamp_byte(v as int),
{
    if v < 0 {
        0
    } else if v > 255 {
        255
    } else {
        v as u8
    }
}

/// The additive hue brush's leaf color: hue drifts with the leaf position
/// and the elapsed time, lightness with the depth.
pub open spec fn yr_add_color(sx: int, sy: int, time_ms: int, now_depth: u8) -> Sample {
    let hue = ((sx + sy) * 125 + 360 * (time_ms % 1000)) % 360000;
    let k: int = if 1 <= now_depth <= 4 {
        now_depth - 1
    } else {
        6
    };
    hsl_color(hue, 800, 100 + 130 * k)
}

/// The multiplicative hue brush's leaf color: hue drifts with the product of
/// the leaf coordinates (saturating) and the elapsed time, lightness with
/// the depth, clamped to full lightness.
pub open spec fn yr_mul_color(sx: int, sy: int, time_ms: int, now_depth: u8) -> Sample {
    let prod: int = if sx * sy > 0xffffffff {
        0xffffffff
    } else {
        sx * sy
    };
    let hue = (prod * 50 + 360 * (time_ms % 1000)) % 360000;
    let k: int = if now_depth == 3 {
        2
    } else {
        now_depth as int
    };
    let lit: int = if 100 + 120 * k > 1000 {
        1000
    } else {
        100 + 120 * k
    };
    hsl_color(hue, 700, lit)
}

/// The additive hue brush's leaf color.
fn yr_add_color_px(sx: u32, sy: u32, time_ms: u64, now_depth: u8) -> (s: Sample)
    ensures
        s == yr_add_color(sx as int, sy as int, time_ms as int, now_depth),
{
    let hue = (((sx as u64 + sy as u64) * 125 + 360 * (time_ms % 1000)) % 360000) as u32;
    let k: u32 = if 1 <= now_depth && now_depth <= 4 {
        now_depth as u32 - 1
    } else {
        6
    };
    hsl_to_sample(hue, 800, 100 + 130 * k)
}

/// The multiplicative hue brush's leaf color.
fn yr_mul_color_px(sx: u32, sy: u32, time_ms: u64, now_depth: u8) -> (s: Sample)
    ensures
        s == yr_mul_color(sx as int, sy as int, time_ms as int, now_depth),
{
    proof {
        assert(0 <= sx as int * sy as int <= 0xffffffff * 0xffffffff) by (nonlinear_arith)
            requires
                0 <= sx as int <= 0xffffffff,
                0 <= sy as int <= 0xffffffff,
        ;
    }
    let wide = (sx as u64) * (sy as u64);
    let prod: u64 = if wide > 0xffffffff {
        0xffffffff
    } else {
        wide
    };
    let hue = ((prod * 50 + 360 * (time_ms % 1000)) % 360000) as u32;
    let k: u32 = if now_depth == 3 {
        2
    } else {
        now_depth as u32
    };
    let lit: u32 = if 100 + 120 * k > 1000 {
        1000
    } else {
        100 + 120 * k
    };
    hsl_to_sample(hue, 700, lit)
}

/// Built-in brush kinds.
#[non_exhaustive]
#[derive(Debug, Clone, Copy, PartialEq, Eq, Structural)]
pub enum ClassicBrush {
    /// Filled rectangle, with an optional inner stroke.
    Rect,
    /// Filled ellipse, with an optional hollow stroke ellipse.
    Circle,
    /// Centered cross of the stroke width.
    Cross,
    /// Hue-shifting rectangle stroke, additive drift.
    YrAdd,
    /// Hue-shifting filled rectangle, multiplicative drift.
    YrMul,
}

impl Brush for ClassicBrush {
    open spec fn needs_background(&self) -> bool {
        match *self {
            ClassicBrush::Rect => false,
            ClassicBrush::Circle => true,
            ClassicBrush::Cross => true,
            ClassicBrush::YrAdd => true,
            ClassicBrush::YrMul => false,
        }
    }

    open spec fn paint_spec(
        &self,
        data: Seq<Sample>,
        img_w: int,
        img_h: int,
        params: RenderParams,
        sx: int,
        sy: int,
        w: int,
        h: int,
        time_ms: int,
        now_depth: u8,
        color: Sample,
    ) -> Seq<Sample> {
        match *self {
            ClassicBrush::Rect => {
                let base = fill_masked_spec(data, img_w, sx, sy, w, h, Mask::Full, color);
                if params.stroke_width > 0 {
                    rect_stroke_spec(
                        base,
                        img_w,
                        sx,
                        sy,
                        w,
                        h,
                        params.stroke_width as int,
                        params.stroke_color,
                    )
                } else {
                    base
                }
            },
            ClassicBrush::Circle => {
                let rw = w / 2;
                let rh = h / 2;
                let e = Mask::Ellipse {
                    cx: (sx + rw) as u32,
                    cy: (sy + rh) as u32,
                    rw: rw as u32,
                    rh: rh as u32,
                };
                let base = fill_masked_spec(data, img_w, sx, sy, w, h, e, color);
                if params.stroke_width > 0 {
                    let ring = Mask::Ring {
                        cx: (sx + rw) as u32,
                        cy: (sy + rh) as u32,
                        rw: rw as u32,
                        rh: rh as u32,
                    };
                    fill_masked_spec(base, img_w, sx, sy, w, h, ring, params.stroke_color)
                } else {
                    base
                }
            },
            ClassicBrush::Cross => {
                let sw: int = if params.stroke_width >= 1 {
                    params.stroke_width as int
                } else {
                    1
                };
                let cy = sy + (if h > sw {
                    (h - sw) / 2
                } else {
                    0
                });
                let cx = sx + (if w > sw {
                    (w - sw) / 2
                } else {
                    0
                });
                let d1 = fill_masked_spec(data, img_w, sx, cy, w, sw, Mask::Full, color);
                fill_masked_spec(d1, img_w, cx, sy, sw, h, Mask::Full, color)
            },
            ClassicBrush::YrAdd => {
                let sw: int = if params.stroke_width >= 1 {
                    params.stroke_width as int
                } else {
                    1
                };
                rect_stroke_spec(
                    data,
                    img_w,
                    sx,
                    sy,
                    w,
                    h,
                    sw,
                    yr_add_color(sx, sy, time_ms, now_depth),
                )
            },
            ClassicBrush::YrMul => {
                if 1 <= now_depth <= 2 {
                    fill_masked_spec(data, img_w, sx, sy, w, h, Mask::Full, color)
                } else {
                    fill_masked_spec(
                        data,
                        img_w,
                        sx,
                        sy,
                        w,
                        h,
                        Mask::Full,
                        yr_mul_color(sx, sy, time_ms, now_depth),
                    )
                }
            },
        }
    }

    proof fn paint_spec_len(
        &self,
        data: Seq<Sample>,
        img_w: int,
        img_h: int,
        params: RenderParams,
        sx: int,
        sy: int,
        w: int,
        h: int,
        time_ms: int,
        now_depth: u8,
        color: Sample,
    ) {
    }

    proof fn paint_determined(
        &self,
        d1: Seq<Sample>,
        d2: Seq<Sample>,
        img_w: int,
        img_h: int,
        params: RenderParams,
        sx: int,
        sy: int,
        w: int,
        h: int,
        time_ms: int,
        now_depth: u8,
        color: Sample,
        i: int,
    ) {
        lemma_pos_decompose(img_w, i);
    }

    fn need_background(&self) -> (b: bool) {
        match *self {
            ClassicBrush::Rect => false,
            ClassicBrush::Circle => true,
            ClassicBrush::Cross => true,
            ClassicBrush::YrAdd => true,
            ClassicBrush::YrMul => false,
        }
    }

    fn paint(
        &self,
        img: &mut Image,
        params: RenderParams,
        start_at: (u32, u32),
        area_size: (u32, u32),
        time_ms: u64,
        now_depth: u8,
        color: Sample,
    ) {
        let (sx, sy) = start_at;
        let (w, h) = area_size;
        match *self {
            ClassicBrush::Rect => {
                fill_masked(img, sx, sy, w, h, Mask::Full, color);
                if params.stroke_width > 0 {
                    draw_rect_inner_stroke(
                        img,
                        sx,
                        sy,
                        w,
                        h,
                        params.stroke_width,
                        params.stroke_color,
                    );
                }
            },
            ClassicBrush::Circle => {
                let rw = w / 2;
                let rh = h / 2;
                let e = Mask::Ellipse { cx: sx + rw, cy: sy + rh, rw, rh };
                fill_masked(img, sx, sy, w, h, e, color);
                if params.stroke_width > 0 {
                    let ring = Mask::Ring { cx: sx + rw, cy: sy + rh, rw, rh };
                    fill_masked(img, sx, sy, w, h, ring, params.stroke_color);
                }
            },
            ClassicBrush::Cross => {
                let sw = if params.stroke_width >= 1 {
                    params.stroke_width
                } else {
                    1
                };
                let cy = sy + (if h > sw {
                    (h - sw) / 2
                } else {
                    0
                });
                let cx = sx + (if w > sw {
                    (w - sw) / 2
                } else {
                    0
                });
                fill_masked(img, sx, cy, w, sw, Mask::Full, color);
                fill_masked(img, cx, sy, sw, h, Mask::Full, color);
            },
            ClassicBrush::YrAdd => {
                let sw = if params.stroke_width >= 1 {
                    params.stroke_width
                } else {
                    1
                };
                let c = yr_add_color_px(sx, sy, time_ms, now_depth);
                draw_rect_inner_stroke(img, sx, sy, w, h, sw, c);
            },
            ClassicBrush::YrMul => {
                if 1 <= now_depth && now_depth <= 2 {
                    fill_masked(img, sx, sy, w, h, Mask::Full, color);
                } else {
                    let c = yr_mul_color_px(sx, sy, time_ms, now_depth);
                    fill_masked(img, sx, sy, w, h, Mask::Full, c);
                }
            },
        }
    }
}

/// The image data after the renderer has processed one region: read the
/// canvas cell at the region's top-left pixel; while the current depth is
/// shallower than the stored depth the region was subdivided during
/// building, so descend into the four quadrants; otherwise the region is a
/// leaf and the brush paints it with the stored color.
pub open spec fn go_render<B: Brush>(
    brush: B,
    data: Seq<Sample>,
    img_w: int,
    img_h: int,
    canvas: Seq<CanvasPixel>,
    sx: int,
    sy: int,
    w: int,
    h: int,
    re_params: RenderParams,
    time_ms: int,
    depth: int,
) -> Seq<Sample>
    decreases 256 - depth,
{
    let cell = canvas[pos_spec(img_w, sx, sy)];
    if depth < cell.depth {
        let w0 = w / 2;
        let h0 = h / 2;
        let d0 = go_render(
            brush, data, img_w, img_h, canvas, sx, sy, w0, h0, re_params, time_ms, depth + 1,
        );
        let d1 = go_render(
            brush, d0, img_w, img_h, canvas, sx + w0, sy, w - w0, h0, re_params, time_ms, depth + 1,
        );
        let d2 = go_render(
            brush, d1, img_w, img_h, canvas, sx, sy + h0, w0, h - h0, re_params, time_ms, depth + 1,
        );
        go_render(
            brush,
            d2,
            img_w,
            img_h,
            canvas,
            sx + w0,
            sy + h0,
            w - w0,
            h - h0,
            re_params,
            time_ms,
            depth + 1,
        )
    } else {
        brush.paint_spec(
            data, img_w, img_h, re_params, sx, sy, w, h, time_ms, depth as u8, cell.color,
        )
    }
}

/// The image data after the renderer has processed the given tiles in
/// order, each from depth one.
pub open spec fn render_tiles<B: Brush>(
    brush: B,
    data: Seq<Sample>,
    img_w: int,
    img_h: int,
    canvas: Seq<CanvasPixel>,
    tiles: Seq<Tile>,
    re_params: RenderParams,
    time_ms: int,
) -> Seq<Sample>
    decreases tiles.len(),
{
    if tiles.len() == 0 {
        data
    } else {
        let t = tiles[0];
        let d1 = go_render(
            brush,
            data,
            img_w,
            img_h,
            canvas,
            t.start_at.0 as int,
            t.start_at.1 as int,
            t.area_size.0 as int,
            t.area_size.1 as int,
            re_params,
            time_ms,
            1,
        );
        render_tiles(brush, d1, img_w, img_h, canvas, tiles.drop_first(), re_params, time_ms)
    }
}

/// The image a [`render`] call leaves behind: the whole image filled with
/// the background color first if the brush asks for it, then every tile
/// traversed against the canvas.
pub open spec fn render_spec<B: Brush>(
    brush: B,
    data: Seq<Sample>,
    img_w: u32,
    img_h: u32,
    canvas: Seq<CanvasPixel>,
    ge_params: GenericParams,
    re_params: RenderParams,
    time_ms: int,
) -> Seq<Sample> {
    let base = if brush.needs_background() {
        Seq::new(data.len(), |i: int| re_params.bg_color)
    } else {
        data
    };
    render_tiles(
        brush,
        base,
        img_w as int,
        img_h as int,
        canvas,
        grid_tiles((img_w, img_h), ge_params.slicing_ratio, ge_params.max_depth),
        re_params,
        time_ms,
    )
}

/// One region of the renderer recursion.
#[verifier::rlimit(100)]
fn go_depth<B: Brush>(
    img: &mut Image,
    canvas: &Vec<CanvasPixel>,
    start_at: (u32, u32),
    area_size: (u32, u32),
    re_params: RenderParams,
    time_ms: u64,
    now_depth: u8,
    brush: &B,
)
    requires
        old(img).wf(),
        canvas@.len() >= old(img).width as int * old(img).height as int,
        1 <= now_depth,
        (start_at.0 as int) < old(img).width as int,
        (start_at.1 as int) < old(img).height as int,
        start_at.0 as int + area_size.0 as int <= old(img).width as int,
        start_at.1 as int + area_size.1 as int <= old(img).height as int,
    ensures
        final(img).wf(),
        final(img).width == old(img).width,
        final(img).height == old(img).height,
        final(img).data@ == go_render(
            *brush,
            old(img).data@,
            old(img).width as int,
            old(img).height as int,
            canvas@,
            start_at.0 as int,
            start_at.1 as int,
            area_size.0 as int,
            area_size.1 as int,
            re_params,
            time_ms as int,
            now_depth as int,
        ),
    decreases 256 - now_depth as int,
{
    let (sx, sy) = start_at;
    let (w, h) = area_size;
    let img_w = img.width;
    let ghost d_in = img.data@;
    let ghost wi2 = img.width as int;
    let ghost hi2 = img.height as int;
    let ghost cv = canvas@;
    let ghost sxi = sx as int;
    let ghost syi = sy as int;
    let ghost wi = w as int;
    let ghost hi = h as int;
    let ghost ti = time_ms as int;
    let ghost di = now_depth as int;

    let cap = canvas.len();
    proof {
        lemma_pos_in_bounds(wi2, hi2, sxi, syi);
        assert(cap == canvas@.len());
    }
    let idx = pos(img_w, sx, sy);
    let cell = canvas[idx];
    if now_depth < cell.depth {
        let quads = div_quad(start_at, area_size);
        let q0 = quads[0];
        let q1 = quads[1];
        let q2 = quads[2];
        let q3 = quads[3];
        proof {
            assert(q0.0.0 as int == sxi && q0.0.1 as int == syi && q0.1.0 as int == wi / 2
                && q0.1.1 as int == hi / 2);
            assert(q1.0.0 as int == sxi + wi / 2 && q1.0.1 as int == syi && q1.1.0 as int == wi
                - wi / 2 && q1.1.1 as int == hi / 2);
            assert(q2.0.0 as int == sxi && q2.0.1 as int == syi + hi / 2 && q2.1.0 as int == wi / 2
                && q2.1.1 as int == hi - hi / 2);
            assert(q3.0.0 as int == sxi + wi / 2 && q3.0.1 as int == syi + hi / 2 && q3.1.0 as int
                == wi - wi / 2 && q3.1.1 as int == hi - hi / 2);
        }
        let ghost t0 = go_render(*brush, d_in, wi2, hi2, cv, sxi, syi, wi / 2, hi / 2, re_params, ti, di + 1);
        let ghost t1 = go_render(
            *brush, t0, wi2, hi2, cv, sxi + wi / 2, syi, wi - wi / 2, hi / 2, re_params, ti, di + 1,
        );
        let ghost t2 = go_render(
            *brush, t1, wi2, hi2, cv, sxi, syi + hi / 2, wi / 2, hi - hi / 2, re_params, ti, di + 1,
        );
        let ghost t3 = go_render(
            *brush,
            t2,
            wi2,
            hi2,
            cv,
            sxi + wi / 2,
            syi + hi / 2,
            wi - wi / 2,
            hi - hi / 2,
            re_params,
            ti,
            di + 1,
        );
        go_depth(img, canvas, q0.0, q0.1, re_params, time_ms, now_depth + 1, brush);
        proof {
            assert(img.data@ == t0);
        }
        go_depth(img, canvas, q1.0, q1.1, re_params, time_ms, now_depth + 1, brush);
        proof {
            assert(img.data@ == t1);
        }
        go_depth(img, canvas, q2.0, q2.1, re_params, time_ms, now_depth + 1, brush);
        proof {
            assert(img.data@ == t2);
        }
        go_depth(img, canvas, q3.0, q3.1, re_params, time_ms, now_depth + 1, brush);
        proof {
            assert(img.data@ == t3);
        }
    } else {
        brush.paint(img, re_params, start_at, area_size, time_ms, now_depth, cell.color);
    }
}

/// Reconstructs the styled image in place from the canvas that [`analyze`]
/// filled.
///
/// The canvas must come from a build against an image of identical
/// dimensions and identical [`GenericParams`]; the canvas is only required
/// to be large enough, so a mismatched reuse yields well-defined but
/// meaningless leaf geometry rather than an error.
pub fn render<B: Brush>(
    img: &mut Image,
    canvas: &Vec<CanvasPixel>,
    brush: &B,
    ge_params: GenericParams,
    re_params: RenderParams,
    time_ms: u64,
) -> (r: Result<(), RenderError>)
    requires
        old(img).wf(),
        canvas@.len() >= old(img).width as int * old(img).height as int,
        ge_params.slicing_ratio.0 >= 1,
        ge_params.slicing_ratio.1 >= 1,
    ensures
        r is Ok,
        final(img).wf(),
        final(img).width == old(img).width,
        final(img).height == old(img).height,
        final(img).data@ == render_spec(
            *brush,
            old(img).data@,
            old(img).width,
            old(img).height,
            canvas@,
            ge_params,
            re_params,
            time_ms as int,
        ),
{
    let img_w = img.width;
    let img_h = img.height;
    let ghost base = if brush.needs_background() {
        Seq::new(old(img).data@.len(), |i: int| re_params.bg_color)
    } else {
        old(img).data@
    };
    if brush.need_background() {
        fill_masked(img, 0, 0, img_w, img_h, Mask::Full, re_params.bg_color);
        proof {
            assert(img.data@ =~= base) by {
                assert forall|i: int| 0 <= i < img.data@.len() implies img.data@[i] == base[i] by {
                    if img_w as int >= 1 {
                        lemma_pos_decompose(img_w as int, i);
                        lemma_multiply_divide_lt(i, img_w as int, img_h as int);
                    } else {
                        assert(old(img).data@.len() == img_w as int * (img_h as int));
                        assert(img_w as int * (img_h as int) == 0) by (nonlinear_arith)
                            requires img_w as int == 0;
                    }
                }
            }
        }
    }

    let tiles = div_grid((img_w, img_h), ge_params.slicing_ratio, ge_params.max_depth);
    proof {
        lemma_grid_tiles_wf((img_w, img_h), ge_params.slicing_ratio, ge_params.max_depth);
    }
    let ghost gts = grid_tiles((img_w, img_h), ge_params.slicing_ratio, ge_params.max_depth);
    proof {
        assert(gts.skip(0) =~= gts);
    }

    let mut k: usize = 0;
    while k < tiles.len()
        invariant
            img.wf(),
            img_w == img.width,
            img_h == img.height,
            img_w == old(img).width,
            img_h == old(img).height,
            canvas@.len() >= img.width as int * img.height as int,
            tiles@ == gts,
            gts == grid_tiles((img.width, img.height), ge_params.slicing_ratio, ge_params.max_depth),
            forall|j: int|
                0 <= j < gts.len() ==> tile_wf(
                    (img.width, img.height),
                    ge_params.max_depth,
                    #[trigger] gts[j],
                ),
            k <= gts.len(),
            render_tiles(
                *brush,
                img.data@,
                img.width as int,
                img.height as int,
                canvas@,
                gts.skip(k as int),
                re_params,
                time_ms as int,
            ) == render_tiles(
                *brush,
                base,
                img.width as int,
                img.height as int,
                canvas@,
                gts,
                re_params,
                time_ms as int,
            ),
        decreases gts.len() - k,
    {
        let t = tiles[k];
        proof {
            assert(tile_wf((img.width, img.height), ge_params.max_depth, gts[k as int]));
        }
        go_depth(img, canvas, t.start_at, t.area_size, re_params, time_ms, 1, brush);
        proof {
            assert(gts.skip(k as int)[0] == gts[k as int]);
            assert(gts.skip(k as int).drop_first() =~= gts.skip(k as int + 1));
        }
        k = k + 1;
    }
    proof {
        assert(gts.skip(gts.len() as int) =~= Seq::<Tile>::empty());
    }
    Ok(())
}

/// The renderer never changes the buffer length.
proof fn lemma_go_render_len<B: Brush>(
    brush: B,
    data: Seq<Sample>,
    img_w: int,
    img_h: int,
    canvas: Seq<CanvasPixel>,
    sx: int,
    sy: int,
    w: int,
    h: int,
    re_params: RenderParams,
    time_ms: int,
    depth: int,
)
    ensures
        go_render(brush, data, img_w, img_h, canvas, sx, sy, w, h, re_params, time_ms, depth).len()
            == data.len(),
    decreases 256 - depth,
{
    let cell = canvas[pos_spec(img_w, sx, sy)];
    if depth < cell.depth {
        let w0 = w / 2;
        let h0 = h / 2;
        lemma_go_render_len(brush, data, img_w, img_h, canvas, sx, sy, w0, h0, re_params, time_ms, depth + 1);
        let d0 = go_render(brush, data, img_w, img_h, canvas, sx, sy, w0, h0, re_params, time_ms, depth + 1);
        lemma_go_render_len(brush, d0, img_w, img_h, canvas, sx + w0, sy, w - w0, h0, re_params, time_ms, depth + 1);
        let d1 = go_render(brush, d0, img_w, img_h, canvas, sx + w0, sy, w - w0, h0, re_params, time_ms, depth + 1);
        lemma_go_render_len(brush, d1, img_w, img_h, canvas, sx, sy + h0, w0, h - h0, re_params, time_ms, depth + 1);
        let d2 = go_render(brush, d1, img_w, img_h, canvas, sx, sy + h0, w0, h - h0, re_params, time_ms, depth + 1);
        lemma_go_render_len(brush, d2, img_w, img_h, canvas, sx + w0, sy + h0, w - w0, h - h0, re_params, time_ms, depth + 1);
    } else {
        brush.paint_spec_len(data, img_w, img_h, re_params, sx, sy, w, h, time_ms, depth as u8, cell.color);
    }
}

/// Traversing any tile list never changes the buffer length.
proof fn lemma_render_tiles_len<B: Brush>(
    brush: B,
    data: Seq<Sample>,
    img_w: int,
    img_h: int,
    canvas: Seq<CanvasPixel>,
    tiles: Seq<Tile>,
    re_params: RenderParams,
    time_ms: int,
)
    ensures
        render_tiles(brush, data, img_w, img_h, canvas, tiles, re_params, time_ms).len()
            == data.len(),
    decreases tiles.len(),
{
    if tiles.len() > 0 {
        let t = tiles[0];
        lemma_go_render_len(
            brush, data, img_w, img_h, canvas, t.start_at.0 as int, t.start_at.1 as int,
            t.area_size.0 as int, t.area_size.1 as int, re_params, time_ms, 1,
        );
        let d1 = go_render(
            brush, data, img_w, img_h, canvas, t.start_at.0 as int, t.start_at.1 as int,
            t.area_size.0 as int, t.area_size.1 as int, re_params, time_ms, 1,
        );
        lemma_render_tiles_len(brush, d1, img_w, img_h, canvas, tiles.drop_first(), re_params, time_ms);
    }
}

/// Without a background pre-fill, one region's traversal is determined: at a
/// buffer index inside the region the result does not depend on the prior
/// pixels, and outside the region nothing changes.
#[verifier::rlimit(100)]
proof fn lemma_go_render_determined_at<B: Brush>(
    brush: B,
    d1: Seq<Sample>,
    d2: Seq<Sample>,
    img_w: int,
    img_h: int,
    canvas: Seq<CanvasPixel>,
    sx: int,
    sy: int,
    w: int,
    h: int,
    re_params: RenderParams,
    time_ms: int,
    depth: int,
    i: int,
)
    requires
        !brush.needs_background(),
        img_w >= 1,
        d1.len() == img_w * img_h,
        d2.len() == img_w * img_h,
        0 <= sx,
        0 <= sy,
        0 <= w,
        0 <= h,
        sx + w <= img_w,
        sy + h <= img_h,
        0 <= i < d1.len(),
    ensures
        ({
            let r1 = go_render(brush, d1, img_w, img_h, canvas, sx, sy, w, h, re_params, time_ms, depth);
            let r2 = go_render(brush, d2, img_w, img_h, canvas, sx, sy, w, h, re_params, time_ms, depth);
            let x = i % img_w;
            let y = i / img_w;
            if region_contains((sx, sy, w, h), x, y) {
                r1[i] == r2[i]
            } else {
                r1[i] == d1[i] && r2[i] == d2[i]
            }
        }),
    decreases 256 - depth,
{
    lemma_pos_decompose(img_w, i);
    let x = i % img_w;
    let y = i / img_w;
    let r1 = go_render(brush, d1, img_w, img_h, canvas, sx, sy, w, h, re_params, time_ms, depth);
    let r2 = go_render(brush, d2, img_w, img_h, canvas, sx, sy, w, h, re_params, time_ms, depth);
    let cell = canvas[pos_spec(img_w, sx, sy)];
    if depth < cell.depth {
        let w0 = w / 2;
        let h0 = h / 2;

        let e1_0 = go_render(brush, d1, img_w, img_h, canvas, sx, sy, w0, h0, re_params, time_ms, depth + 1);
        let e2_0 = go_render(brush, d2, img_w, img_h, canvas, sx, sy, w0, h0, re_params, time_ms, depth + 1);
        let e1_1 = go_render(brush, e1_0, img_w, img_h, canvas, sx + w0, sy, w - w0, h0, re_params, time_ms, depth + 1);
        let e2_1 = go_render(brush, e2_0, img_w, img_h, canvas, sx + w0, sy, w - w0, h0, re_params, time_ms, depth + 1);
        let e1_2 = go_render(brush, e1_1, img_w, img_h, canvas, sx, sy + h0, w0, h - h0, re_params, time_ms, depth + 1);
        let e2_2 = go_render(brush, e2_1, img_w, img_h, canvas, sx, sy + h0, w0, h - h0, re_params, time_ms, depth + 1);
        let e1_3 = go_render(brush, e1_2, img_w, img_h, canvas, sx + w0, sy + h0, w - w0, h - h0, re_params, time_ms, depth + 1);
        let e2_3 = go_render(brush, e2_2, img_w, img_h, canvas, sx + w0, sy + h0, w - w0, h - h0, re_params, time_ms, depth + 1);
        assert(r1 == e1_3);
        assert(r2 == e2_3);

        lemma_go_render_len(brush, d1, img_w, img_h, canvas, sx, sy, w0, h0, re_params, time_ms, depth + 1);
        lemma_go_render_len(brush, d2, img_w, img_h, canvas, sx, sy, w0, h0, re_params, time_ms, depth + 1);
        lemma_go_render_len(brush, e1_0, img_w, img_h, canvas, sx + w0, sy, w - w0, h0, re_params, time_ms, depth + 1);
        lemma_go_render_len(brush, e2_0, img_w, img_h, canvas, sx + w0, sy, w - w0, h0, re_params, time_ms, depth + 1);
        lemma_go_render_len(brush, e1_1, img_w, img_h, canvas, sx, sy + h0, w0, h - h0, re_params, time_ms, depth + 1);
        lemma_go_render_len(brush, e2_1, img_w, img_h, canvas, sx, sy + h0, w0, h - h0, re_params, time_ms, depth + 1);

        lemma_go_render_determined_at(brush, d1, d2, img_w, img_h, canvas, sx, sy, w0, h0, re_params, time_ms, depth + 1, i);
        lemma_go_render_determined_at(brush, e1_0, e2_0, img_w, img_h, canvas, sx + w0, sy, w - w0, h0, re_params, time_ms, depth + 1, i);
        lemma_go_render_determined_at(brush, e1_1, e2_1, img_w, img_h, canvas, sx, sy + h0, w0, h - h0, re_params, time_ms, depth + 1, i);
        lemma_go_render_determined_at(brush, e1_2, e2_2, img_w, img_h, canvas, sx + w0, sy + h0, w - w0, h - h0, re_params, time_ms, depth + 1, i);

        if region_contains((sx, sy, w, h), x, y) {
            if x < sx + w0 && y < sy + h0 {
                // In the top-left quadrant; the other three leave it alone.
                assert(region_contains((sx, sy, w0, h0), x, y));
                assert(e1_0[i] == e2_0[i]);
                assert(!region_contains((sx + w0, sy, w - w0, h0), x, y));
                assert(!region_contains((sx, sy + h0, w0, h - h0), x, y));
                assert(!region_contains((sx + w0, sy + h0, w - w0, h - h0), x, y));
                assert(r1[i] == r2[i]);
            } else if x >= sx + w0 && y < sy + h0 {
                assert(region_contains((sx + w0, sy, w - w0, h0), x, y));
                assert(!region_contains((sx, sy, w0, h0), x, y));
                assert(e1_0[i] == d1[i] && e2_0[i] == d2[i]);
                assert(e1_1[i] == e2_1[i]);
                assert(!region_contains((sx, sy + h0, w0, h - h0), x, y));
                assert(!region_contains((sx + w0, sy + h0, w - w0, h - h0), x, y));
                assert(r1[i] == r2[i]);
            } else if x < sx + w0 {
                assert(region_contains((sx, sy + h0, w0, h - h0), x, y));
                assert(!region_contains((sx, sy, w0, h0), x, y));
                assert(!region_contains((sx + w0, sy, w - w0, h0), x, y));
                assert(e1_2[i] == e2_2[i]);
                assert(!region_contains((sx + w0, sy + h0, w - w0, h - h0), x, y));
                assert(r1[i] == r2[i]);
            } else {
                assert(region_contains((sx + w0, sy + h0, w - w0, h - h0), x, y));
                assert(!region_contains((sx, sy, w0, h0), x, y));
                assert(!region_contains((sx + w0, sy, w - w0, h0), x, y));
                assert(!region_contains((sx, sy + h0, w0, h - h0), x, y));
                assert(e1_3[i] == e2_3[i]);
                assert(r1[i] == r2[i]);
            }
        } else {
            // Outside the region, hence outside all four quadrants.
            assert(!region_contains((sx, sy, w0, h0), x, y));
            assert(!region_contains((sx + w0, sy, w - w0, h0), x, y));
            assert(!region_contains((sx, sy + h0, w0, h - h0), x, y));
            assert(!region_contains((sx + w0, sy + h0, w - w0, h - h0), x, y));
            assert(r1[i] == d1[i] && r2[i] == d2[i]);
        }
    } else {
        brush.paint_determined(d1, d2, img_w, img_h, re_params, sx, sy, w, h, time_ms, depth as u8, cell.color, i);
        assert(r1 == brush.paint_spec(d1, img_w, img_h, re_params, sx, sy, w, h, time_ms, depth as u8, cell.color));
        assert(r2 == brush.paint_spec(d2, img_w, img_h, re_params, sx, sy, w, h, time_ms, depth as u8, cell.color));
        if region_contains((sx, sy, w, h), x, y) {
            assert(r1[i] == r2[i]);
        } else {
            assert(r1[i] == d1[i] && r2[i] == d2[i]);
        }
    }
}

/// Without a background pre-fill, a tile traversal is determined: at a
/// buffer index covered by some tile the result does not depend on the prior
/// pixels, and at an uncovered index nothing changes.
proof fn lemma_render_tiles_determined_at<B: Brush>(
    brush: B,
    d1: Seq<Sample>,
    d2: Seq<Sample>,
    img_w: int,
    img_h: int,
    canvas: Seq<CanvasPixel>,
    tiles: Seq<Tile>,
    re_params: RenderParams,
    time_ms: int,
    i: int,
)
    requires
        !brush.needs_background(),
        img_w >= 1,
        d1.len() == img_w * img_h,
        d2.len() == img_w * img_h,
        forall|k: int|
            0 <= k < tiles.len() ==> (#[trigger] tiles[k]).start_at.0 as int
                + tiles[k].area_size.0 as int <= img_w && tiles[k].start_at.1 as int
                + tiles[k].area_size.1 as int <= img_h,
        0 <= i < d1.len(),
    ensures
        ({
            let r1 = render_tiles(brush, d1, img_w, img_h, canvas, tiles, re_params, time_ms);
            let r2 = render_tiles(brush, d2, img_w, img_h, canvas, tiles, re_params, time_ms);
            let x = i % img_w;
            let y = i / img_w;
            if exists|k: int| 0 <= k < tiles.len() && tile_contains(#[trigger] tiles[k], x, y) {
                r1[i] == r2[i]
            } else {
                r1[i] == d1[i] && r2[i] == d2[i]
            }
        }),
    decreases tiles.len(),
{
    lemma_pos_decompose(img_w, i);
    let x = i % img_w;
    let y = i / img_w;
    if tiles.len() > 0 {
        let t = tiles[0];
        let e1 = go_render(
            brush, d1, img_w, img_h, canvas, t.start_at.0 as int, t.start_at.1 as int,
            t.area_size.0 as int, t.area_size.1 as int, re_params, time_ms, 1,
        );
        let e2 = go_render(
            brush, d2, img_w, img_h, canvas, t.start_at.0 as int, t.start_at.1 as int,
            t.area_size.0 as int, t.area_size.1 as int, re_params, time_ms, 1,
        );
        lemma_go_render_len(
            brush, d1, img_w, img_h, canvas, t.start_at.0 as int, t.start_at.1 as int,
            t.area_size.0 as int, t.area_size.1 as int, re_params, time_ms, 1,
        );
        lemma_go_render_len(
            brush, d2, img_w, img_h, canvas, t.start_at.0 as int, t.start_at.1 as int,
            t.area_size.0 as int, t.area_size.1 as int, re_params, time_ms, 1,
        );
        lemma_go_render_determined_at(
            brush, d1, d2, img_w, img_h, canvas, t.start_at.0 as int, t.start_at.1 as int,
            t.area_size.0 as int, t.area_size.1 as int, re_params, time_ms, 1, i,
        );
        let rest = tiles.drop_first();
        assert(forall|k: int|
            0 <= k < rest.len() ==> #[trigger] rest[k] == tiles[k + 1]);
        lemma_render_tiles_determined_at(
            brush, e1, e2, img_w, img_h, canvas, rest, re_params, time_ms, i,
        );
        if exists|k: int| 0 <= k < tiles.len() && tile_contains(#[trigger] tiles[k], x, y) {
            let k = choose|k: int| 0 <= k < tiles.len() && tile_contains(#[trigger] tiles[k], x, y);
            if k >= 1 {
                assert(rest[k - 1] == tiles[k]);
                assert(exists|k2: int|
                    0 <= k2 < rest.len() && tile_contains(#[trigger] rest[k2], x, y));
            } else {
                if exists|k2: int| 0 <= k2 < rest.len() && tile_contains(#[trigger] rest[k2], x, y) {
                } else {
                }
            }
        } else {
            assert(!tile_contains(tiles[0], x, y));
            assert forall|k2: int| 0 <= k2 < rest.len()
                implies !tile_contains(#[trigger] rest[k2], x, y) by {
                assert(rest[k2] == tiles[k2 + 1]);
            }
        }
    }
}

/// What [`render`] produces does not depend on the pixels already in the
/// image: a brush that needs no background pre-fill covers every leaf, the
/// leaves of the canvas traversal tile every grid tile, and the grid tiles
/// the whole image; a brush that needs the pre-fill starts from the
/// background alone.
pub proof fn lemma_render_ignores_prior_pixels<B: Brush>(
    brush: B,
    d1: Seq<Sample>,
    d2: Seq<Sample>,
    img_w: u32,
    img_h: u32,
    canvas: Seq<CanvasPixel>,
    ge_params: GenericParams,
    re_params: RenderParams,
    time_ms: int,
)
    requires
        ge_params.slicing_ratio.0 >= 1,
        ge_params.slicing_ratio.1 >= 1,
        d1.len() == img_w as int * img_h as int,
        d2.len() == img_w as int * img_h as int,
    ensures
        render_spec(brush, d1, img_w, img_h, canvas, ge_params, re_params, time_ms)
            == render_spec(brush, d2, img_w, img_h, canvas, ge_params, re_params, time_ms),
{
    let gts = grid_tiles((img_w, img_h), ge_params.slicing_ratio, ge_params.max_depth);
    let r1 = render_spec(brush, d1, img_w, img_h, canvas, ge_params, re_params, time_ms);
    let r2 = render_spec(brush, d2, img_w, img_h, canvas, ge_params, re_params, time_ms);
    if brush.needs_background() {
        let b1 = Seq::new(d1.len(), |i: int| re_params.bg_color);
        let b2 = Seq::new(d2.len(), |i: int| re_params.bg_color);
        assert(b1 =~= b2);
    } else {
        lemma_grid_tiles_wf((img_w, img_h), ge_params.slicing_ratio, ge_params.max_depth);
        lemma_render_tiles_len(brush, d1, img_w as int, img_h as int, canvas, gts, re_params, time_ms);
        lemma_render_tiles_len(brush, d2, img_w as int, img_h as int, canvas, gts, re_params, time_ms);
        if img_w as int * img_h as int == 0 {
            assert(r1 =~= r2);
        } else {
            assert(img_w >= 1) by {
                if img_w == 0 {
                    assert(img_w as int * img_h as int == 0) by (nonlinear_arith)
                        requires img_w as int == 0;
                }
            }
            assert forall|i: int| 0 <= i < r1.len() implies r1[i] == r2[i] by {
                lemma_pos_decompose(img_w as int, i);
                vstd::arithmetic::div_mod::lemma_multiply_divide_lt(i, img_w as int, img_h as int);
                let x = i % img_w as int;
                let y = i / img_w as int;
                lemma_grid_tiles_cover((img_w, img_h), ge_params.slicing_ratio, ge_params.max_depth, x, y);
                lemma_render_tiles_determined_at(
                    brush, d1, d2, img_w as int, img_h as int, canvas, gts, re_params, time_ms, i,
                );
            }
            assert(r1 =~= r2);
        }
    }
}

/// Rendering is idempotent: rendering the same canvas again, over the image
/// a first rendering produced, leaves the pixels unchanged.
pub proof fn lemma_render_idempotent<B: Brush>(
    brush: B,
    data: Seq<Sample>,
    img_w: u32,
    img_h: u32,
    canvas: Seq<CanvasPixel>,
    ge_params: GenericParams,
    re_params: RenderParams,
    time_ms: int,
)
    requires
        ge_params.slicing_ratio.0 >= 1,
        ge_params.slicing_ratio.1 >= 1,
        data.len() == img_w as int * img_h as int,
    ensures
        ({
            let once = render_spec(brush, data, img_w, img_h, canvas, ge_params, re_params, time_ms);
            render_spec(brush, once, img_w, img_h, canvas, ge_params, re_params, time_ms) == once
        }),
{
    let gts = grid_tiles((img_w, img_h), ge_params.slicing_ratio, ge_params.max_depth);
    let once = render_spec(brush, data, img_w, img_h, canvas, ge_params, re_params, time_ms);
    let base = if brush.needs_background() {
        Seq::new(data.len(), |i: int| re_params.bg_color)
    } else {
        data
    };
    lemma_render_tiles_len(brush, base, img_w as int, img_h as int, canvas, gts, re_params, time_ms);
    assert(once.len() == img_w as int * img_h as int);
    lemma_render_ignores_prior_pixels(
        brush, once, data, img_w, img_h, canvas, ge_params, re_params, time_ms,
    );
}

} // verus!
