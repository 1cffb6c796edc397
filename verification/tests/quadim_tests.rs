use quadim::{
    analyze, div_grid, div_quad, process_rgba_u8, render, AnalyzeError, AnalyzeParams,
    CanvasPixel, ClassicBrush, GenericParams, Image, MergeMethod, RenderParams, Sample,
};

fn sample(r: u8, g: u8, b: u8, a: u8) -> Sample {
    Sample { r, g, b, a }
}

fn uniform_image(w: u32, h: u32, c: Sample) -> Image {
    Image { width: w, height: h, data: vec![c; (w * h) as usize] }
}

fn zeroed_canvas(n: usize) -> Vec<CanvasPixel> {
    vec![CanvasPixel { depth: 0, color: sample(0, 0, 0, 0) }; n]
}

fn ge(rw: u8, rh: u8, max_depth: u8) -> GenericParams {
    GenericParams { slicing_ratio: (rw, rh), max_depth }
}

fn an(thres_ay: u32, thres_cbcr: u32, merge_method: MergeMethod) -> AnalyzeParams {
    AnalyzeParams { thres_ay, thres_cbcr, merge_method }
}

fn re_plain() -> RenderParams {
    RenderParams {
        bg_color: sample(255, 255, 255, 255),
        stroke_color: sample(0, 0, 0, 255),
        stroke_width: 0,
        seed: 0,
    }
}

/// The left half (x < 4) black, the right half white, 8x8, opaque.
fn two_tone_image() -> Image {
    let mut data = Vec::new();
    for _y in 0..8 {
        for x in 0..8 {
            if x < 4 {
                data.push(sample(0, 0, 0, 255));
            } else {
                data.push(sample(255, 255, 255, 255));
            }
        }
    }
    Image { width: 8, height: 8, data }
}

#[test]
fn grid_tiles_cover_without_overlap() {
    // A 10 x 10 image cut 3 by 2: column widths 3, 3, 4 and row heights 5, 5.
    let tiles = div_grid((10, 10), (3, 2), 8);
    assert_eq!(tiles.len(), 6);
    assert_eq!(tiles[0].start_at, (0, 0));
    assert_eq!(tiles[0].area_size, (3, 5));
    assert_eq!(tiles[2].start_at, (6, 0));
    assert_eq!(tiles[2].area_size, (4, 5));
    assert_eq!(tiles[3].start_at, (0, 5));
    // Every pixel is covered exactly once.
    let mut hits = [[0u32; 10]; 10];
    for t in &tiles {
        for y in t.start_at.1..t.start_at.1 + t.area_size.1 {
            for x in t.start_at.0..t.start_at.0 + t.area_size.0 {
                hits[y as usize][x as usize] += 1;
            }
        }
    }
    for row in &hits {
        for &c in row {
            assert_eq!(c, 1);
        }
    }
}

#[test]
fn grid_skips_degenerate_tiles_and_caps_depth() {
    // A ratio larger than the dimension skips the zero-width columns.
    let tiles = div_grid((2, 1), (3, 2), 8);
    let mut area = 0u32;
    for t in &tiles {
        assert!(t.area_size.0 >= 1 && t.area_size.1 >= 1);
        area += t.area_size.0 * t.area_size.1;
        // No tile may allow subdividing below one pixel.
        assert!(1u32 << t.real_max_depth <= t.area_size.0);
        assert!(1u32 << t.real_max_depth <= t.area_size.1);
    }
    assert_eq!(area, 2);
    // An 8 x 8 single tile caps the requested depth at log2 of the sides.
    let tiles = div_grid((8, 8), (1, 1), 200);
    assert_eq!(tiles.len(), 1);
    assert_eq!(tiles[0].real_max_depth, 3);
}

#[test]
fn quad_split_odd_region() {
    // The documented example: a 5 x 3 region yields areas 2, 3, 4 and 6
    // summing to 15, remainder on the right and bottom.
    let quads = div_quad((0, 0), (5, 3));
    assert_eq!(quads[0], ((0, 0), (2, 1)));
    assert_eq!(quads[1], ((2, 0), (3, 1)));
    assert_eq!(quads[2], ((0, 1), (2, 2)));
    assert_eq!(quads[3], ((2, 1), (3, 2)));
    let total: u32 = quads.iter().map(|q| q.1 .0 * q.1 .1).sum();
    assert_eq!(total, 15);
}

#[test]
fn quad_split_even_region() {
    let quads = div_quad((4, 6), (8, 4));
    assert_eq!(quads[0], ((4, 6), (4, 2)));
    assert_eq!(quads[1], ((8, 6), (4, 2)));
    assert_eq!(quads[2], ((4, 8), (4, 2)));
    assert_eq!(quads[3], ((8, 8), (4, 2)));
}

#[test]
fn identical_colors_never_fluctuate() {
    let c = sample(13, 200, 77, 255);
    for thres in [0u32, 1, 20, 200000, u32::MAX] {
        for method in [MergeMethod::Range, MergeMethod::StDev] {
            assert!(!MergeMethod::is_fluctuated([c; 4], an(thres, thres, method)));
        }
    }
}

#[test]
fn forced_spread_fluctuates() {
    // One fully transparent corner forces the alpha range to 255 * 10000.
    let opaque = sample(10, 10, 10, 255);
    let clear = sample(10, 10, 10, 0);
    let colors = [opaque, opaque, opaque, clear];
    assert!(MergeMethod::is_fluctuated(colors, an(0, 0, MergeMethod::Range)));
    assert!(MergeMethod::is_fluctuated(colors, an(0, 0, MergeMethod::StDev)));
    // A generous threshold absorbs the spread: 255 * 10000 is the exact range.
    assert!(!MergeMethod::is_fluctuated(colors, an(2550000, 0, MergeMethod::Range)));
    assert!(MergeMethod::is_fluctuated(colors, an(2549999, 0, MergeMethod::Range)));
}

#[test]
fn merge_methods_agree_on_identical() {
    let c = sample(1, 2, 3, 4);
    for thres in [0u32, 5, 10000] {
        let by_range = MergeMethod::is_fluctuated([c; 4], an(thres, thres, MergeMethod::Range));
        let by_stdev = MergeMethod::is_fluctuated([c; 4], an(thres, thres, MergeMethod::StDev));
        assert!(!by_range);
        assert_eq!(by_range, by_stdev);
    }
}

#[test]
fn build_rejects_small_canvas_untouched() {
    let img = uniform_image(2, 2, sample(9, 9, 9, 9));
    // A sentinel-filled canvas shorter than the pixel count stays untouched.
    let sentinel = CanvasPixel { depth: 77, color: sample(1, 2, 3, 4) };
    let mut canvas = vec![sentinel; 3];
    let r = analyze(&img, &mut canvas, ge(1, 1, 8), an(0, 0, MergeMethod::Range));
    assert_eq!(r, Err(AnalyzeError::ImageTooLarge));
    assert_eq!(canvas.len(), 3);
    for cell in &canvas {
        assert_eq!(*cell, sentinel);
    }
}

#[test]
fn uniform_image_collapses_to_one_leaf() {
    let color = sample(120, 33, 7, 255);
    let img = uniform_image(8, 8, color);
    let mut canvas = zeroed_canvas(64);
    for thres in [0u32, 20] {
        let r = analyze(&img, &mut canvas, ge(1, 1, 3), an(thres, thres, MergeMethod::StDev));
        assert!(r.is_ok());
        // One leaf at depth 1 covering the whole image, with the source color.
        assert_eq!(canvas[0], CanvasPixel { depth: 1, color });
        // Rendering it with the rectangle brush reproduces the source image.
        let mut out = uniform_image(8, 8, sample(0, 0, 0, 0));
        let r = render(&mut out, &canvas, &ClassicBrush::Rect, ge(1, 1, 3), re_plain(), 0);
        assert!(r.is_ok());
        assert_eq!(out.data, img.data);
    }
}

#[test]
fn two_tone_image_keeps_uniform_leaves_exact() {
    // Black and white halves with zero thresholds: the mixed root does not
    // merge, while each uniform quadrant merges as deep as it is uniform, and
    // every stored color equals its region's (uniform) source pixels.
    let img = two_tone_image();
    let mut canvas = zeroed_canvas(64);
    let r = analyze(&img, &mut canvas, ge(1, 1, 3), an(0, 0, MergeMethod::Range));
    assert!(r.is_ok());
    // The root did not merge: its cell keeps the deeper record.
    assert_ne!(canvas[0].depth, 1);
    // The four 4 x 4 quadrants are uniform, so each merged at depth 2.
    for (sx, sy, c) in [
        (0u32, 0u32, sample(0, 0, 0, 255)),
        (4, 0, sample(255, 255, 255, 255)),
        (0, 4, sample(0, 0, 0, 255)),
        (4, 4, sample(255, 255, 255, 255)),
    ] {
        let cell = canvas[(sy * 8 + sx) as usize];
        assert_eq!(cell.depth, 2);
        assert_eq!(cell.color, c);
    }
    // Rendering with the rectangle brush reproduces the source exactly.
    let mut out = uniform_image(8, 8, sample(9, 9, 9, 9));
    let r = render(&mut out, &canvas, &ClassicBrush::Rect, ge(1, 1, 3), re_plain(), 0);
    assert!(r.is_ok());
    assert_eq!(out.data, img.data);
}

#[test]
fn rerendering_is_idempotent() {
    let img = two_tone_image();
    let mut canvas = zeroed_canvas(64);
    let params = ge(2, 2, 3);
    let r = analyze(&img, &mut canvas, params, an(1000, 1000, MergeMethod::StDev));
    assert!(r.is_ok());
    let mut re = re_plain();
    re.stroke_width = 1;
    for brush in [
        ClassicBrush::Rect,
        ClassicBrush::Circle,
        ClassicBrush::Cross,
        ClassicBrush::YrAdd,
        ClassicBrush::YrMul,
    ] {
        let mut first = two_tone_image();
        let r = render(&mut first, &canvas, &brush, params, re, 500);
        assert!(r.is_ok());
        let mut second = Image { width: 8, height: 8, data: first.data.clone() };
        let r = render(&mut second, &canvas, &brush, params, re, 500);
        assert!(r.is_ok());
        assert_eq!(second.data, first.data);
    }
}

#[test]
fn circle_brush_fills_background_outside_ellipse() {
    let color = sample(10, 20, 30, 255);
    let img = uniform_image(8, 8, color);
    let mut canvas = zeroed_canvas(64);
    let r = analyze(&img, &mut canvas, ge(1, 1, 3), an(20, 20, MergeMethod::StDev));
    assert!(r.is_ok());
    let mut out = uniform_image(8, 8, sample(0, 0, 0, 0));
    let bg = sample(200, 100, 50, 255);
    let re = RenderParams { bg_color: bg, stroke_color: sample(0, 0, 0, 255), stroke_width: 0, seed: 0 };
    let r = render(&mut out, &canvas, &ClassicBrush::Circle, ge(1, 1, 3), re, 0);
    assert!(r.is_ok());
    // The extreme corner lies outside the ellipse and keeps the background.
    assert_eq!(out.data[7], bg);
    // The ellipse center carries the leaf color.
    assert_eq!(out.data[(4 * 8 + 4) as usize], color);
}

#[test]
fn rect_stroke_paints_inner_border() {
    let color = sample(50, 60, 70, 255);
    let img = uniform_image(8, 8, color);
    let mut canvas = zeroed_canvas(64);
    let r = analyze(&img, &mut canvas, ge(1, 1, 3), an(20, 20, MergeMethod::StDev));
    assert!(r.is_ok());
    let stroke = sample(1, 1, 1, 255);
    let re = RenderParams {
        bg_color: sample(0, 0, 0, 0),
        stroke_color: stroke,
        stroke_width: 2,
        seed: 0,
    };
    let mut out = uniform_image(8, 8, sample(0, 0, 0, 0));
    let r = render(&mut out, &canvas, &ClassicBrush::Rect, ge(1, 1, 3), re, 0);
    assert!(r.is_ok());
    // Border pixels take the stroke color, interior pixels the leaf color.
    assert_eq!(out.data[0], stroke);
    assert_eq!(out.data[7], stroke);
    assert_eq!(out.data[(3 * 8 + 3) as usize], color);
}

#[test]
fn mean_color_rounds_down() {
    // A 2 x 1 image whose pixels average to a fractional channel value.
    let img = Image {
        width: 2,
        height: 1,
        data: vec![sample(0, 0, 0, 255), sample(255, 1, 3, 255)],
    };
    let mut canvas = zeroed_canvas(2);
    // One tile of 2 x 1 allows no subdivision, so depth one takes the mean.
    let r = analyze(&img, &mut canvas, ge(1, 1, 5), an(0, 0, MergeMethod::Range));
    assert!(r.is_ok());
    assert_eq!(canvas[0], CanvasPixel { depth: 1, color: sample(127, 0, 1, 255) });
}

#[test]
fn process_rejects_small_buffer() {
    let mut data = vec![7u8; 4 * 4];
    let before = data.clone();
    let status = process_rgba_u8(
        &mut data,
        2,
        2,
        3,
        ge(1, 1, 3),
        an(0, 0, MergeMethod::Range),
        re_plain(),
        ClassicBrush::Rect,
    );
    assert_eq!(status, -1);
    assert_eq!(data, before);
}

#[test]
fn process_renders_uniform_buffer_in_place() {
    let mut data = Vec::new();
    for _ in 0..16 {
        data.extend_from_slice(&[10, 20, 30, 255]);
    }
    let before = data.clone();
    let status = process_rgba_u8(
        &mut data,
        4,
        4,
        16,
        ge(1, 1, 2),
        an(100, 100, MergeMethod::StDev),
        re_plain(),
        ClassicBrush::Rect,
    );
    assert_eq!(status, 0);
    // A uniform image collapses to one leaf of its own color, so the
    // rectangle brush reproduces the input bytes.
    assert_eq!(data, before);
}

#[test]
fn build_accepts_exactly_fitting_canvas() {
    let img = uniform_image(2, 2, sample(5, 6, 7, 8));
    let mut canvas = zeroed_canvas(4);
    let r = analyze(&img, &mut canvas, ge(1, 1, 8), an(0, 0, MergeMethod::Range));
    assert!(r.is_ok());
    assert_eq!(canvas[0].depth, 1);
}

#[test]
fn zero_max_depth_takes_tile_mean_at_depth_one() {
    // With no room to recurse the whole tile is summarized at depth one.
    let img = Image {
        width: 2,
        height: 2,
        data: vec![
            sample(0, 0, 0, 255),
            sample(100, 0, 0, 255),
            sample(0, 100, 0, 255),
            sample(0, 0, 100, 255),
        ],
    };
    let mut canvas = zeroed_canvas(4);
    let r = analyze(&img, &mut canvas, ge(1, 1, 0), an(0, 0, MergeMethod::Range));
    assert!(r.is_ok());
    assert_eq!(canvas[0], CanvasPixel { depth: 1, color: sample(25, 25, 25, 255) });
    // Cells other than the tile's top-left stay untouched.
    assert_eq!(canvas[1].depth, 0);
    assert_eq!(canvas[2].depth, 0);
    assert_eq!(canvas[3].depth, 0);
}

#[test]
fn cross_brush_marks_bars_over_background() {
    let color = sample(40, 80, 120, 255);
    let img = uniform_image(8, 8, color);
    let mut canvas = zeroed_canvas(64);
    let r = analyze(&img, &mut canvas, ge(1, 1, 3), an(20, 20, MergeMethod::StDev));
    assert!(r.is_ok());
    let bg = sample(1, 2, 3, 4);
    let re = RenderParams { bg_color: bg, stroke_color: sample(0, 0, 0, 255), stroke_width: 2, seed: 0 };
    let mut out = uniform_image(8, 8, sample(0, 0, 0, 0));
    let r = render(&mut out, &canvas, &ClassicBrush::Cross, ge(1, 1, 3), re, 0);
    assert!(r.is_ok());
    // The centered bars carry the leaf color; the extreme corner shows the
    // background.
    assert_eq!(out.data[(3 * 8 + 0) as usize], color);
    assert_eq!(out.data[(0 * 8 + 3) as usize], color);
    assert_eq!(out.data[(7 * 8 + 7) as usize], bg);
}
