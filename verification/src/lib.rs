//! Quadtree image stylization.
//!
//! The library reduces a raster image to a quadtree approximation in two
//! phases that share one flat `(depth, color)` buffer, the canvas:
//!
//! * `analyze` builds the quadtree bottom-up, merging sibling regions whose
//!   colors pass a homogeneity test, and records `(depth, representative
//!   color)` at each surviving region's top-left pixel;
//! * `render` walks the canvas top-down and paints every leaf with a
//!   pluggable brush.
//!
//! All color statistics run in exact fixed-point arithmetic: converted
//! channel values and thresholds are scaled by ten thousand, which represents
//! the ITU-R BT.709 matrix coefficients exactly.

use vstd::prelude::*;

mod analyze;
mod process;
mod raster;
mod render;
mod util;

pub use analyze::{
    analyze, analyze_spec, build_tiles, go_build, is_fluctuated_spec,
    lemma_analyze_never_writes_depth_zero, lemma_identical_colors_never_fluctuate,
    lemma_merge_methods_agree_on_identical, mean4,
    region_mean, AnalyzeError, AnalyzeParams, MergeMethod,
};
pub use process::{
    bytes_to_samples, process_accepts, process_rgba_u8, samples_to_bytes, zero_canvas,
};
pub use raster::{fill_masked, fill_masked_spec, in_ellipse, mask_hit, mask_wf, pix_at, Image, Mask};
pub use render::{
    go_render, hsl_color, lemma_render_idempotent, lemma_render_ignores_prior_pixels,
    rect_stroke_spec, render, render_spec, render_tiles, yr_add_color, yr_mul_color, Brush,
    ClassicBrush, RenderError, RenderParams,
};
pub use util::{
    div_grid, div_quad, floor_log2, pos, pos_spec, Tile,
    grid_tiles, lancet_len, lancet_start, log2_floor, quad_split, region_contains,
    tile_contains, tile_wf,
    lemma_grid_tiles_cover, lemma_grid_tiles_disjoint, lemma_grid_tiles_wf,
    lemma_quad_split_tiles,
};

verus! {

/// One RGBA sample: four 8-bit channels in storage order red, green, blue,
/// alpha.
#[derive(Clone, Copy, PartialEq, Eq, Structural, Debug)]
pub struct Sample {
    pub r: u8,
    pub g: u8,
    pub b: u8,
    pub a: u8,
}

/// One canvas cell: the quadtree depth at which the region rooted here
/// survived, and its representative color.
///
/// Depth 0 is never written by the builder and marks a cell that no build
/// has covered.
#[derive(Clone, Copy, PartialEq, Eq, Structural, Debug)]
pub struct CanvasPixel {
    pub depth: u8,
    pub color: Sample,
}

/// Parameters required by both the builder and the renderer.
#[derive(Clone, Copy, PartialEq, Eq, Debug)]
pub struct GenericParams {
    /// Specifies how to slice the image into sub-blocks: a grid of
    /// `slicing_ratio.0` columns by `slicing_ratio.1` rows.
    pub slicing_ratio: (u8, u8),
    /// The maximum depth of the quadtree.
    pub max_depth: u8,
}

} // verus!
