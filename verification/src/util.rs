//! Grid partitioning and quadrant splitting: the subdivision geometry that
//! the builder and the renderer share.

use vstd::prelude::*;
use vstd::arithmetic::power2::{pow2, lemma_pow2_unfold, lemma_pow2_strictly_increases, lemma2_to64};
use vstd::arithmetic::div_mod::{lemma_div_is_ordered, lemma_div_multiples_vanish, lemma_div_pos_is_pos};
use vstd::arithmetic::mul::lemma_mul_inequality;

verus! {

/// Flat index of the pixel at `(sx, sy)` in a row-major buffer whose rows
/// are `img_w` pixels wide.
pub open spec fn pos_spec(img_w: int, sx: int, sy: int) -> int {
    img_w * sy + sx
}

/// Flat buffer index of the pixel at `(sx, sy)`, row-major with row width
/// `img_w`.
pub fn pos(img_w: u32, sx: u32, sy: u32) -> (r: usize)
    requires
        pos_spec(img_w as int, sx as int, sy as int) <= usize::MAX,
    ensures
        r == pos_spec(img_w as int, sx as int, sy as int),
{
    (img_w as usize) * (sy as usize) + (sx as usize)
}

/// A pixel inside the image maps to a buffer index inside the buffer.
pub proof fn lemma_pos_in_bounds(img_w: int, img_h: int, x: int, y: int)
    requires
        0 <= x < img_w,
        0 <= y < img_h,
    ensures
        0 <= pos_spec(img_w, x, y) < img_w * img_h,
{
    assert(0 <= img_w * y + x < img_w * img_h) by (nonlinear_arith)
        requires
            0 <= x < img_w,
            0 <= y < img_h,
    ;
}

/// Every buffer index is the position of exactly the pixel
/// `(i % img_w, i / img_w)`.
pub proof fn lemma_pos_decompose(img_w: int, i: int)
    requires
        img_w >= 1,
        0 <= i,
    ensures
        pos_spec(img_w, i % img_w, i / img_w) == i,
        0 <= i % img_w < img_w,
        0 <= i / img_w,
{
    vstd::arithmetic::div_mod::lemma_fundamental_div_mod(i, img_w);
    vstd::arithmetic::div_mod::lemma_mod_division_less_than_divisor(i, img_w);
    lemma_div_pos_is_pos(i, img_w);
}

/// One independent quadtree root, produced by [`div_grid`].
#[derive(Clone, Copy, PartialEq, Eq, Debug)]
pub struct Tile {
    /// Top-left pixel of the tile.
    pub start_at: (u32, u32),
    /// Width and height of the tile in pixels.
    pub area_size: (u32, u32),
    /// The deepest level recursion may reach inside this tile: the requested
    /// maximum depth, capped so that no subdivision goes below one pixel.
    pub real_max_depth: u8,
}

/// A region as the subdivision specs speak of it: `(start x, start y, width,
/// height)`.
pub type RegionS = (int, int, int, int);

/// Whether pixel `(x, y)` lies inside region `r`.
pub open spec fn region_contains(r: RegionS, x: int, y: int) -> bool {
    &&& r.0 <= x < r.0 + r.2
    &&& r.1 <= y < r.1 + r.3
}

/// The four sub-regions of a region, in fixed order: top-left, top-right,
/// bottom-left, bottom-right. Halving rounds down; the remainder row and
/// column always go to the bottom and right quadrants.
pub open spec fn quad_split(sx: int, sy: int, w: int, h: int) -> Seq<RegionS> {
    let w0 = w / 2;
    let h0 = h / 2;
    seq![
        (sx, sy, w0, h0),
        (sx + w0, sy, w - w0, h0),
        (sx, sy + h0, w0, h - h0),
        (sx + w0, sy + h0, w - w0, h - h0),
    ]
}

/// Splits a region into exactly 4 sub-regions, in "Z" order: top-left,
/// top-right, bottom-left, bottom-right.
pub fn div_quad(start_at: (u32, u32), area_size: (u32, u32)) -> (quads: [((u32, u32), (u32, u32)); 4])
    requires
        start_at.0 + area_size.0 <= u32::MAX,
        start_at.1 + area_size.1 <= u32::MAX,
    ensures
        forall|i: int| 0 <= i < 4 ==> {
            let q = #[trigger] quads[i];
            let s = quad_split(start_at.0 as int, start_at.1 as int, area_size.0 as int, area_size.1 as int)[i];
            q.0.0 == s.0 && q.0.1 == s.1 && q.1.0 == s.2 && q.1.1 == s.3
        },
{
    let (sx, sy) = start_at;
    let (aw, ah) = area_size;

    let w0 = aw / 2;
    let h0 = ah / 2;
    let w1 = aw - w0;
    let h1 = ah - h0;

    let x0 = sx;
    let x1 = sx + w0;
    let y0 = sy;
    let y1 = sy + h0;

    [
        ((x0, y0), (w0, h0)),
        ((x1, y0), (w1, h0)),
        ((x0, y1), (w0, h1)),
        ((x1, y1), (w1, h1)),
    ]
}

/// Floor of the base-two logarithm. Zero for inputs below two.
pub open spec fn log2_floor(n: int) -> int
    decreases n,
{
    if n < 2 {
        0
    } else {
        1 + log2_floor(n / 2)
    }
}

/// `2^(log2_floor(n)) <= n` for positive `n`: recursing `log2_floor(n)` times
/// from an `n`-pixel-wide region never subdivides below one pixel.
pub proof fn lemma_log2_floor_pow2(n: int)
    requires
        n >= 1,
    ensures
        log2_floor(n) >= 0,
        pow2(log2_floor(n) as nat) <= n,
    decreases n,
{
    if n < 2 {
        assert(pow2(0) == 1) by {
            lemma2_to64();
        }
    } else {
        lemma_log2_floor_pow2(n / 2);
        let l = log2_floor(n / 2);
        assert(pow2((l + 1) as nat) == 2 * pow2(l as nat)) by {
            lemma_pow2_unfold((l + 1) as nat);
        }
        assert(2 * pow2(l as nat) <= 2 * (n / 2));
        assert(2 * (n / 2) <= n);
    }
}

/// Floor of the base-two logarithm of a positive integer.
pub fn floor_log2(n: u32) -> (r: u32)
    requires
        n >= 1,
    ensures
        r == log2_floor(n as int),
        pow2(r as nat) <= n,
    decreases n,
{
    if n < 2 {
        proof {
            lemma2_to64();
        }
        0
    } else {
        let rec = floor_log2(n / 2);
        proof {
            lemma2_to64();
            if rec >= 31 {
                if rec > 31 {
                    lemma_pow2_strictly_increases(31, rec as nat);
                }
                assert(pow2(31) <= pow2(rec as nat));
                assert(false);
            }
            lemma_pow2_unfold((rec + 1) as nat);
        }
        rec + 1
    }
}

/// `log2_floor` is never negative.
pub proof fn lemma_log2_floor_nonneg(n: int)
    ensures
        log2_floor(n) >= 0,
    decreases n,
{
    if n >= 2 {
        lemma_log2_floor_nonneg(n / 2);
    }
}

/// Smaller of two integers.
pub open spec fn imin(a: int, b: int) -> int {
    if a <= b {
        a
    } else {
        b
    }
}

/// Start of axis interval `step` when `full` units are cut into `denom`
/// proportional parts: `floor(full * step / denom)`.
pub open spec fn lancet_start(full: int, step: int, denom: int) -> int {
    (full * step) / denom
}

/// Length of axis interval `step`: the next start minus this one.
pub open spec fn lancet_len(full: int, step: int, denom: int) -> int {
    lancet_start(full, step + 1, denom) - lancet_start(full, step, denom)
}

/// Interval starts never decrease along the axis.
proof fn lemma_lancet_monotone(full: int, denom: int, i: int, j: int)
    requires
        full >= 0,
        denom >= 1,
        i <= j,
    ensures
        lancet_start(full, i, denom) <= lancet_start(full, j, denom),
{
    lemma_mul_inequality(i, j, full);
    lemma_div_is_ordered(full * i, full * j, denom);
}

/// The first interval starts at zero and the last ends at `full`.
proof fn lemma_lancet_ends(full: int, denom: int)
    requires
        full >= 0,
        denom >= 1,
    ensures
        lancet_start(full, 0, denom) == 0,
        lancet_start(full, denom, denom) == full,
{
    assert(full * 0 == 0);
    vstd::arithmetic::div_mod::lemma_div_of0(denom);
    lemma_div_multiples_vanish(full, denom);
    assert(full * denom == denom * full);
}

/// Every interval start lies between zero and `full`.
proof fn lemma_lancet_in_range(full: int, denom: int, i: int)
    requires
        full >= 0,
        denom >= 1,
        0 <= i <= denom,
    ensures
        0 <= lancet_start(full, i, denom) <= full,
{
    lemma_lancet_ends(full, denom);
    lemma_lancet_monotone(full, denom, 0, i);
    lemma_lancet_monotone(full, denom, i, denom);
}

/// Every axis point below the start of interval `n` lies in some earlier
/// interval.
proof fn lemma_lancet_covers(full: int, denom: int, x: int, n: int)
    requires
        full >= 0,
        denom >= 1,
        1 <= n <= denom,
        0 <= x,
        x < lancet_start(full, n, denom),
    ensures
        exists|i: int|
            0 <= i < n && #[trigger] lancet_start(full, i, denom) <= x
                < lancet_start(full, i + 1, denom),
    decreases n,
{
    if lancet_start(full, n - 1, denom) <= x {
        assert(0 <= n - 1 < n
            && lancet_start(full, n - 1, denom) <= x < lancet_start(full, n - 1 + 1, denom));
    } else if n == 1 {
        lemma_lancet_ends(full, denom);
        assert(false);
    } else {
        lemma_lancet_covers(full, denom, x, n - 1);
    }
}

/// The grid tile in column `ix`, row `iy`, including the degenerate tiles of
/// zero width or height that [`div_grid`] skips.
pub open spec fn tile_of(img_size: (u32, u32), ratio: (u8, u8), max_depth: u8, ix: int, iy: int) -> Tile {
    let sx = lancet_start(img_size.0 as int, ix, ratio.0 as int);
    let sy = lancet_start(img_size.1 as int, iy, ratio.1 as int);
    let w = lancet_len(img_size.0 as int, ix, ratio.0 as int);
    let h = lancet_len(img_size.1 as int, iy, ratio.1 as int);
    Tile {
        start_at: (sx as u32, sy as u32),
        area_size: (w as u32, h as u32),
        real_max_depth: imin(imin(max_depth as int, log2_floor(w)), log2_floor(h)) as u8,
    }
}

/// The nonempty tiles of row `iy`, from column `ix` rightward.
pub open spec fn grid_row(img_size: (u32, u32), ratio: (u8, u8), max_depth: u8, iy: int, ix: int) -> Seq<Tile>
    decreases ratio.0 as int - ix,
{
    if ix < 0 || ix >= ratio.0 as int {
        Seq::empty()
    } else {
        let rest = grid_row(img_size, ratio, max_depth, iy, ix + 1);
        if lancet_len(img_size.0 as int, ix, ratio.0 as int) > 0 {
            seq![tile_of(img_size, ratio, max_depth, ix, iy)] + rest
        } else {
            rest
        }
    }
}

/// The tiles of all nonempty rows from `iy` downward.
pub open spec fn grid_rows(img_size: (u32, u32), ratio: (u8, u8), max_depth: u8, iy: int) -> Seq<Tile>
    decreases ratio.1 as int - iy,
{
    if iy < 0 || iy >= ratio.1 as int {
        Seq::empty()
    } else {
        let rest = grid_rows(img_size, ratio, max_depth, iy + 1);
        if lancet_len(img_size.1 as int, iy, ratio.1 as int) > 0 {
            grid_row(img_size, ratio, max_depth, iy, 0) + rest
        } else {
            rest
        }
    }
}

/// All tiles of the grid, in row-major ("И") order.
pub open spec fn grid_tiles(img_size: (u32, u32), ratio: (u8, u8), max_depth: u8) -> Seq<Tile> {
    grid_rows(img_size, ratio, max_depth, 0)
}

/// Whether pixel `(x, y)` lies inside tile `t`.
pub open spec fn tile_contains(t: Tile, x: int, y: int) -> bool {
    region_contains(
        (t.start_at.0 as int, t.start_at.1 as int, t.area_size.0 as int, t.area_size.1 as int),
        x,
        y,
    )
}

/// What [`div_grid`] guarantees of every tile it emits: a positive area that
/// lies inside the image, and a recursion cap no deeper than requested and
/// shallow enough that `real_max_depth - 1` halvings keep both dimensions at
/// one pixel or more.
pub open spec fn tile_wf(img_size: (u32, u32), max_depth: u8, t: Tile) -> bool {
    &&& 1 <= t.area_size.0
    &&& 1 <= t.area_size.1
    &&& t.start_at.0 + t.area_size.0 <= img_size.0
    &&& t.start_at.1 + t.area_size.1 <= img_size.1
    &&& t.real_max_depth <= max_depth
    &&& pow2(t.real_max_depth as nat) <= t.area_size.0
    &&& pow2(t.real_max_depth as nat) <= t.area_size.1
}

/// Start and length of axis interval `now_step` out of `denom`.
fn lancet(full_length: u32, now_step: u8, denom: u8) -> (r: (u32, u32))
    requires
        denom >= 1,
        now_step < denom,
    ensures
        r.0 == lancet_start(full_length as int, now_step as int, denom as int),
        r.1 == lancet_len(full_length as int, now_step as int, denom as int),
{
    proof {
        lemma_lancet_in_range(full_length as int, denom as int, now_step as int);
        lemma_lancet_in_range(full_length as int, denom as int, now_step as int + 1);
        lemma_lancet_monotone(full_length as int, denom as int, now_step as int, now_step as int + 1);
        assert(full_length as int * (now_step as int + 1) <= 0x100000000 * 256
            && 0 <= full_length as int * now_step as int <= 0x100000000 * 256) by (nonlinear_arith)
            requires
                0 <= full_length as int <= 0xffffffff,
                0 <= now_step as int <= 255,
        ;
    }
    let start = ((full_length as u64 * now_step as u64) / denom as u64) as u32;
    let end = ((full_length as u64 * (now_step as u64 + 1)) / denom as u64) as u32;
    (start, end - start)
}

/// Splits the image into a grid of `ratio.0` columns by `ratio.1` rows of
/// independent quadtree roots, in row-major ("И") order. Column and row
/// boundaries are axis-proportional; a tile whose computed width or height is
/// zero (the ratio exceeds the dimension) is skipped.
pub fn div_grid(img_size: (u32, u32), ratio: (u8, u8), max_depth: u8) -> (tiles: Vec<Tile>)
    requires
        ratio.0 >= 1,
        ratio.1 >= 1,
    ensures
        tiles@ == grid_tiles(img_size, ratio, max_depth),
{
    let (img_w, img_h) = img_size;
    let (ratio_w, ratio_h) = ratio;
    let mut tiles: Vec<Tile> = Vec::new();

    let mut step_y: u8 = 0;
    while step_y < ratio_h
        invariant
            ratio_w >= 1,
            step_y <= ratio_h,
            img_w == img_size.0,
            img_h == img_size.1,
            ratio_w == ratio.0,
            ratio_h == ratio.1,
            grid_tiles(img_size, ratio, max_depth)
                =~= tiles@ + grid_rows(img_size, ratio, max_depth, step_y as int),
        decreases ratio_h - step_y,
    {
        let (sy, h) = lancet(img_h, step_y, ratio_h);
        if h > 0 {
            let mut step_x: u8 = 0;
            while step_x < ratio_w
                invariant
                    ratio_w >= 1,
                    step_x <= ratio_w,
                    step_y < ratio_h,
                    img_w == img_size.0,
                    img_h == img_size.1,
                    ratio_w == ratio.0,
                    ratio_h == ratio.1,
                    sy == lancet_start(img_h as int, step_y as int, ratio_h as int),
                    h == lancet_len(img_h as int, step_y as int, ratio_h as int),
                    h > 0,
                    grid_tiles(img_size, ratio, max_depth) =~= tiles@
                        + grid_row(img_size, ratio, max_depth, step_y as int, step_x as int)
                        + grid_rows(img_size, ratio, max_depth, step_y as int + 1),
                decreases ratio_w - step_x,
            {
                let ghost prev = tiles@;
                let (sx, w) = lancet(img_w, step_x, ratio_w);
                if w > 0 {
                    let lw = floor_log2(w);
                    let lh = floor_log2(h);
                    let md = max_depth as u32;
                    let m1 = if md <= lw {
                        md
                    } else {
                        lw
                    };
                    let m2 = if m1 <= lh {
                        m1
                    } else {
                        lh
                    };
                    let t = Tile { start_at: (sx, sy), area_size: (w, h), real_max_depth: m2 as u8 };
                    proof {
                        lemma_log2_floor_nonneg(w as int);
                        lemma_log2_floor_nonneg(h as int);
                        assert(t == tile_of(img_size, ratio, max_depth, step_x as int, step_y as int));
                    }
                    tiles.push(t);
                    proof {
                        assert(tiles@ =~= prev + seq![t]);
                        assert(prev + (seq![t] + grid_row(img_size, ratio, max_depth, step_y as int, step_x as int + 1))
                            =~= (prev + seq![t]) + grid_row(img_size, ratio, max_depth, step_y as int, step_x as int + 1));
                    }
                }
                step_x = step_x + 1;
            }
            proof {
                assert(grid_row(img_size, ratio, max_depth, step_y as int, ratio_w as int) =~= Seq::<Tile>::empty());
                assert(grid_rows(img_size, ratio, max_depth, step_y as int)
                    == grid_row(img_size, ratio, max_depth, step_y as int, 0)
                        + grid_rows(img_size, ratio, max_depth, step_y as int + 1));
                assert(tiles@ + Seq::<Tile>::empty() + grid_rows(img_size, ratio, max_depth, step_y as int + 1)
                    =~= tiles@ + grid_rows(img_size, ratio, max_depth, step_y as int + 1));
            }
        } else {
            proof {
                assert(grid_rows(img_size, ratio, max_depth, step_y as int)
                    == grid_rows(img_size, ratio, max_depth, step_y as int + 1));
            }
        }
        step_y = step_y + 1;
    }
    proof {
        assert(grid_rows(img_size, ratio, max_depth, ratio_h as int) =~= Seq::<Tile>::empty());
        assert(tiles@ + Seq::<Tile>::empty() =~= tiles@);
    }
    tiles
}

/// Halving a dimension that holds `2^g` pixels leaves both halves at least
/// `2^(g-1)` pixels.
pub proof fn lemma_halve_keeps_pow2(w: int, g: int)
    requires
        g >= 1,
        w >= pow2(g as nat),
    ensures
        w / 2 >= pow2((g - 1) as nat),
        w - w / 2 >= pow2((g - 1) as nat),
{
    lemma_pow2_unfold(g as nat);
    lemma_div_is_ordered(pow2(g as nat) as int, w, 2);
    lemma_div_multiples_vanish(pow2((g - 1) as nat) as int, 2);
    assert(pow2(g as nat) as int / 2 == pow2((g - 1) as nat));
}

/// Every tile of one grid row is some nonempty column's tile of that row.
proof fn lemma_grid_row_members(img_size: (u32, u32), ratio: (u8, u8), maxd: u8, iy: int, ix0: int)
    requires
        ratio.0 >= 1,
        0 <= ix0,
    ensures
        forall|k: int|
            0 <= k < grid_row(img_size, ratio, maxd, iy, ix0).len()
                ==> exists|ix: int|
                ix0 <= ix < ratio.0 as int
                    && #[trigger] lancet_len(img_size.0 as int, ix, ratio.0 as int) > 0
                    && #[trigger] grid_row(img_size, ratio, maxd, iy, ix0)[k]
                    == tile_of(img_size, ratio, maxd, ix, iy),
    decreases ratio.0 as int - ix0,
{
    let rw = ratio.0 as int;
    let row = grid_row(img_size, ratio, maxd, iy, ix0);
    if ix0 < rw {
        lemma_grid_row_members(img_size, ratio, maxd, iy, ix0 + 1);
        let rest = grid_row(img_size, ratio, maxd, iy, ix0 + 1);
        if lancet_len(img_size.0 as int, ix0, rw) > 0 {
            let head = tile_of(img_size, ratio, maxd, ix0, iy);
            assert(row == seq![head] + rest);
            assert forall|k: int| #![trigger row[k]] 0 <= k < row.len() implies exists|ix: int|
                ix0 <= ix < rw
                    && #[trigger] lancet_len(img_size.0 as int, ix, rw) > 0
                    && row[k] == tile_of(img_size, ratio, maxd, ix, iy) by {
                if k == 0 {
                    assert(row[0] == head);
                    assert(ix0 <= ix0 < rw && lancet_len(img_size.0 as int, ix0, rw) > 0
                        && row[0] == tile_of(img_size, ratio, maxd, ix0, iy));
                } else {
                    assert(row[k] == rest[k - 1]);
                    let ix = choose|ix: int|
                        ix0 + 1 <= ix < rw
                            && #[trigger] lancet_len(img_size.0 as int, ix, rw) > 0
                            && rest[k - 1] == tile_of(img_size, ratio, maxd, ix, iy);
                    assert(ix0 <= ix < rw && lancet_len(img_size.0 as int, ix, rw) > 0
                        && row[k] == tile_of(img_size, ratio, maxd, ix, iy));
                }
            }
        } else {
            assert(row == rest);
            assert forall|k: int| #![trigger row[k]] 0 <= k < row.len() implies exists|ix: int|
                ix0 <= ix < rw
                    && #[trigger] lancet_len(img_size.0 as int, ix, rw) > 0
                    && row[k] == tile_of(img_size, ratio, maxd, ix, iy) by {
                let ix = choose|ix: int|
                    ix0 + 1 <= ix < rw
                        && #[trigger] lancet_len(img_size.0 as int, ix, rw) > 0
                        && rest[k] == tile_of(img_size, ratio, maxd, ix, iy);
                assert(ix0 <= ix < rw && lancet_len(img_size.0 as int, ix, rw) > 0
                    && row[k] == tile_of(img_size, ratio, maxd, ix, iy));
            }
        }
    }
}

/// Every tile of the grid is some nonempty column and row's tile.
proof fn lemma_grid_rows_members(img_size: (u32, u32), ratio: (u8, u8), maxd: u8, iy0: int)
    requires
        ratio.0 >= 1,
        ratio.1 >= 1,
        0 <= iy0,
    ensures
        forall|k: int|
            0 <= k < grid_rows(img_size, ratio, maxd, iy0).len()
                ==> exists|ix: int, iy: int|
                0 <= ix < ratio.0 as int && iy0 <= iy < ratio.1 as int
                    && lancet_len(img_size.0 as int, ix, ratio.0 as int) > 0
                    && lancet_len(img_size.1 as int, iy, ratio.1 as int) > 0
                    && #[trigger] grid_rows(img_size, ratio, maxd, iy0)[k]
                    == #[trigger] tile_of(img_size, ratio, maxd, ix, iy),
    decreases ratio.1 as int - iy0,
{
    let rw = ratio.0 as int;
    let rh = ratio.1 as int;
    let rows = grid_rows(img_size, ratio, maxd, iy0);
    if iy0 < rh {
        lemma_grid_rows_members(img_size, ratio, maxd, iy0 + 1);
        let rest = grid_rows(img_size, ratio, maxd, iy0 + 1);
        if lancet_len(img_size.1 as int, iy0, rh) > 0 {
            let row = grid_row(img_size, ratio, maxd, iy0, 0);
            lemma_grid_row_members(img_size, ratio, maxd, iy0, 0);
            assert(rows == row + rest);
            assert forall|k: int| #![trigger rows[k]] 0 <= k < rows.len() implies exists|ix: int, iy: int|
                0 <= ix < rw && iy0 <= iy < rh
                    && lancet_len(img_size.0 as int, ix, rw) > 0
                    && lancet_len(img_size.1 as int, iy, rh) > 0
                    && rows[k] == #[trigger] tile_of(img_size, ratio, maxd, ix, iy) by {
                if k < row.len() {
                    assert(rows[k] == row[k]);
                    let ix = choose|ix: int|
                        0 <= ix < rw
                            && #[trigger] lancet_len(img_size.0 as int, ix, rw) > 0
                            && row[k] == tile_of(img_size, ratio, maxd, ix, iy0);
                    assert(0 <= ix < rw && iy0 <= iy0 < rh
                        && lancet_len(img_size.0 as int, ix, rw) > 0
                        && lancet_len(img_size.1 as int, iy0, rh) > 0
                        && rows[k] == tile_of(img_size, ratio, maxd, ix, iy0));
                } else {
                    assert(rows[k] == rest[k - row.len()]);
                    let (ix, iy) = choose|ix: int, iy: int|
                        0 <= ix < rw && iy0 + 1 <= iy < rh
                            && lancet_len(img_size.0 as int, ix, rw) > 0
                            && lancet_len(img_size.1 as int, iy, rh) > 0
                            && rest[k - row.len()] == #[trigger] tile_of(img_size, ratio, maxd, ix, iy);
                    assert(0 <= ix < rw && iy0 <= iy < rh
                        && lancet_len(img_size.0 as int, ix, rw) > 0
                        && lancet_len(img_size.1 as int, iy, rh) > 0
                        && rows[k] == tile_of(img_size, ratio, maxd, ix, iy));
                }
            }
        } else {
            assert(rows == rest);
            assert forall|k: int| #![trigger rows[k]] 0 <= k < rows.len() implies exists|ix: int, iy: int|
                0 <= ix < rw && iy0 <= iy < rh
                    && lancet_len(img_size.0 as int, ix, rw) > 0
                    && lancet_len(img_size.1 as int, iy, rh) > 0
                    && rows[k] == #[trigger] tile_of(img_size, ratio, maxd, ix, iy) by {
                let (ix, iy) = choose|ix: int, iy: int|
                    0 <= ix < rw && iy0 + 1 <= iy < rh
                        && lancet_len(img_size.0 as int, ix, rw) > 0
                        && lancet_len(img_size.1 as int, iy, rh) > 0
                        && rest[k] == #[trigger] tile_of(img_size, ratio, maxd, ix, iy);
                assert(0 <= ix < rw && iy0 <= iy < rh
                    && lancet_len(img_size.0 as int, ix, rw) > 0
                    && lancet_len(img_size.1 as int, iy, rh) > 0
                    && rows[k] == tile_of(img_size, ratio, maxd, ix, iy));
            }
        }
    }
}

/// A nonempty grid tile is well formed, and its edges are the axis interval
/// boundaries.
proof fn lemma_tile_of_wf(img_size: (u32, u32), ratio: (u8, u8), maxd: u8, ix: int, iy: int)
    requires
        ratio.0 >= 1,
        ratio.1 >= 1,
        0 <= ix < ratio.0 as int,
        0 <= iy < ratio.1 as int,
        lancet_len(img_size.0 as int, ix, ratio.0 as int) > 0,
        lancet_len(img_size.1 as int, iy, ratio.1 as int) > 0,
    ensures
        tile_wf(img_size, maxd, tile_of(img_size, ratio, maxd, ix, iy)),
        tile_of(img_size, ratio, maxd, ix, iy).start_at.0 as int
            == lancet_start(img_size.0 as int, ix, ratio.0 as int),
        tile_of(img_size, ratio, maxd, ix, iy).start_at.1 as int
            == lancet_start(img_size.1 as int, iy, ratio.1 as int),
        tile_of(img_size, ratio, maxd, ix, iy).area_size.0 as int
            == lancet_len(img_size.0 as int, ix, ratio.0 as int),
        tile_of(img_size, ratio, maxd, ix, iy).area_size.1 as int
            == lancet_len(img_size.1 as int, iy, ratio.1 as int),
{
    let w = lancet_len(img_size.0 as int, ix, ratio.0 as int);
    let h = lancet_len(img_size.1 as int, iy, ratio.1 as int);
    lemma_lancet_in_range(img_size.0 as int, ratio.0 as int, ix);
    lemma_lancet_in_range(img_size.0 as int, ratio.0 as int, ix + 1);
    lemma_lancet_monotone(img_size.0 as int, ratio.0 as int, ix, ix + 1);
    lemma_lancet_in_range(img_size.1 as int, ratio.1 as int, iy);
    lemma_lancet_in_range(img_size.1 as int, ratio.1 as int, iy + 1);
    lemma_lancet_monotone(img_size.1 as int, ratio.1 as int, iy, iy + 1);
    lemma_log2_floor_pow2(w);
    lemma_log2_floor_pow2(h);
    let rmd = imin(imin(maxd as int, log2_floor(w)), log2_floor(h));
    if rmd < log2_floor(w) {
        lemma_pow2_strictly_increases(rmd as nat, log2_floor(w) as nat);
    }
    if rmd < log2_floor(h) {
        lemma_pow2_strictly_increases(rmd as nat, log2_floor(h) as nat);
    }
}

/// Every tile the grid emits is well formed: positive area, inside the
/// image, recursion capped at the requested depth and at each dimension's
/// floored base-two logarithm.
pub proof fn lemma_grid_tiles_wf(img_size: (u32, u32), ratio: (u8, u8), max_depth: u8)
    requires
        ratio.0 >= 1,
        ratio.1 >= 1,
    ensures
        forall|k: int|
            0 <= k < grid_tiles(img_size, ratio, max_depth).len()
                ==> tile_wf(img_size, max_depth, #[trigger] grid_tiles(img_size, ratio, max_depth)[k]),
{
    let ts = grid_tiles(img_size, ratio, max_depth);
    lemma_grid_rows_members(img_size, ratio, max_depth, 0);
    assert forall|k: int| 0 <= k < ts.len()
        implies tile_wf(img_size, max_depth, #[trigger] ts[k]) by {
        let (ix, iy) = choose|ix: int, iy: int|
            0 <= ix < ratio.0 as int && 0 <= iy < ratio.1 as int
                && lancet_len(img_size.0 as int, ix, ratio.0 as int) > 0
                && lancet_len(img_size.1 as int, iy, ratio.1 as int) > 0
                && ts[k] == #[trigger] tile_of(img_size, ratio, max_depth, ix, iy);
        lemma_tile_of_wf(img_size, ratio, max_depth, ix, iy);
    }
}

/// Every image pixel lies in some grid tile: the grid leaves no gap.
pub proof fn lemma_grid_tiles_cover(img_size: (u32, u32), ratio: (u8, u8), max_depth: u8, x: int, y: int)
    requires
        ratio.0 >= 1,
        ratio.1 >= 1,
        0 <= x < img_size.0,
        0 <= y < img_size.1,
    ensures
        exists|k: int|
            0 <= k < grid_tiles(img_size, ratio, max_depth).len()
                && tile_contains(#[trigger] grid_tiles(img_size, ratio, max_depth)[k], x, y),
{
    let rw = ratio.0 as int;
    let rh = ratio.1 as int;
    let ts = grid_tiles(img_size, ratio, max_depth);
    lemma_lancet_ends(img_size.0 as int, rw);
    lemma_lancet_ends(img_size.1 as int, rh);
    lemma_lancet_covers(img_size.0 as int, rw, x, rw);
    lemma_lancet_covers(img_size.1 as int, rh, y, rh);
    let ix = choose|i: int|
        0 <= i < rw && #[trigger] lancet_start(img_size.0 as int, i, rw) <= x
            < lancet_start(img_size.0 as int, i + 1, rw);
    let iy = choose|i: int|
        0 <= i < rh && #[trigger] lancet_start(img_size.1 as int, i, rh) <= y
            < lancet_start(img_size.1 as int, i + 1, rh);
    lemma_tile_of_wf(img_size, ratio, max_depth, ix, iy);
    lemma_grid_rows_covers(img_size, ratio, max_depth, 0, ix, iy);
    let k = choose|k: int|
        0 <= k < ts.len() && #[trigger] ts[k] == tile_of(img_size, ratio, max_depth, ix, iy);
    assert(tile_contains(ts[k], x, y));
}

/// Row `iy`'s tile for nonempty column `ix` occurs in the row sequence from
/// any column at or before `ix`.
proof fn lemma_grid_row_covers(img_size: (u32, u32), ratio: (u8, u8), maxd: u8, iy: int, ix0: int, ix: int)
    requires
        ratio.0 >= 1,
        0 <= ix0 <= ix < ratio.0 as int,
        lancet_len(img_size.0 as int, ix, ratio.0 as int) > 0,
    ensures
        exists|k: int|
            0 <= k < grid_row(img_size, ratio, maxd, iy, ix0).len()
                && #[trigger] grid_row(img_size, ratio, maxd, iy, ix0)[k]
                == tile_of(img_size, ratio, maxd, ix, iy),
    decreases ix - ix0,
{
    let rw = ratio.0 as int;
    let row = grid_row(img_size, ratio, maxd, iy, ix0);
    let rest = grid_row(img_size, ratio, maxd, iy, ix0 + 1);
    if ix == ix0 {
        assert(row[0] == tile_of(img_size, ratio, maxd, ix, iy));
    } else {
        lemma_grid_row_covers(img_size, ratio, maxd, iy, ix0 + 1, ix);
        let k = choose|k: int|
            0 <= k < rest.len() && #[trigger] rest[k] == tile_of(img_size, ratio, maxd, ix, iy);
        if lancet_len(img_size.0 as int, ix0, rw) > 0 {
            assert(row[k + 1] == tile_of(img_size, ratio, maxd, ix, iy));
        } else {
            assert(row[k] == tile_of(img_size, ratio, maxd, ix, iy));
        }
    }
}

/// The grid tile of nonempty column `ix`, row `iy` occurs among the tiles of
/// all rows at or after `iy0`.
proof fn lemma_grid_rows_covers(img_size: (u32, u32), ratio: (u8, u8), maxd: u8, iy0: int, ix: int, iy: int)
    requires
        ratio.0 >= 1,
        ratio.1 >= 1,
        0 <= ix < ratio.0 as int,
        0 <= iy0 <= iy < ratio.1 as int,
        lancet_len(img_size.0 as int, ix, ratio.0 as int) > 0,
        lancet_len(img_size.1 as int, iy, ratio.1 as int) > 0,
    ensures
        exists|k: int|
            0 <= k < grid_rows(img_size, ratio, maxd, iy0).len()
                && #[trigger] grid_rows(img_size, ratio, maxd, iy0)[k]
                == tile_of(img_size, ratio, maxd, ix, iy),
    decreases iy - iy0,
{
    let rh = ratio.1 as int;
    let rows = grid_rows(img_size, ratio, maxd, iy0);
    let rest = grid_rows(img_size, ratio, maxd, iy0 + 1);
    if iy == iy0 {
        lemma_grid_row_covers(img_size, ratio, maxd, iy, 0, ix);
        let row = grid_row(img_size, ratio, maxd, iy, 0);
        let k = choose|k: int|
            0 <= k < row.len() && #[trigger] row[k] == tile_of(img_size, ratio, maxd, ix, iy);
        assert(rows[k] == tile_of(img_size, ratio, maxd, ix, iy));
    } else {
        lemma_grid_rows_covers(img_size, ratio, maxd, iy0 + 1, ix, iy);
        let k = choose|k: int|
            0 <= k < rest.len() && #[trigger] rest[k] == tile_of(img_size, ratio, maxd, ix, iy);
        if lancet_len(img_size.1 as int, iy0, rh) > 0 {
            let row = grid_row(img_size, ratio, maxd, iy0, 0);
            assert(rows[row.len() + k] == tile_of(img_size, ratio, maxd, ix, iy));
        } else {
            assert(rows[k] == tile_of(img_size, ratio, maxd, ix, iy));
        }
    }
}

/// No image pixel lies in two distinct grid tiles: the grid never overlaps.
pub proof fn lemma_grid_tiles_disjoint(
    img_size: (u32, u32),
    ratio: (u8, u8),
    max_depth: u8,
    k1: int,
    k2: int,
    x: int,
    y: int,
)
    requires
        ratio.0 >= 1,
        ratio.1 >= 1,
        0 <= k1 < grid_tiles(img_size, ratio, max_depth).len(),
        0 <= k2 < grid_tiles(img_size, ratio, max_depth).len(),
        tile_contains(grid_tiles(img_size, ratio, max_depth)[k1], x, y),
        tile_contains(grid_tiles(img_size, ratio, max_depth)[k2], x, y),
    ensures
        k1 == k2,
{
    if k1 != k2 {
        let lo = if k1 < k2 {
            k1
        } else {
            k2
        };
        let hi = if k1 < k2 {
            k2
        } else {
            k1
        };
        lemma_grid_rows_disjoint(img_size, ratio, max_depth, 0, lo, hi, x, y);
    }
}

/// Helper for [`lemma_grid_tiles_disjoint`]: two distinct positions in one
/// row sequence never contain the same pixel.
proof fn lemma_grid_row_disjoint(
    img_size: (u32, u32),
    ratio: (u8, u8),
    maxd: u8,
    iy: int,
    ix0: int,
    k1: int,
    k2: int,
    x: int,
    y: int,
)
    requires
        ratio.0 >= 1,
        ratio.1 >= 1,
        0 <= iy < ratio.1 as int,
        lancet_len(img_size.1 as int, iy, ratio.1 as int) > 0,
        0 <= ix0,
        0 <= k1 < k2 < grid_row(img_size, ratio, maxd, iy, ix0).len(),
    ensures
        !(tile_contains(grid_row(img_size, ratio, maxd, iy, ix0)[k1], x, y)
            && tile_contains(grid_row(img_size, ratio, maxd, iy, ix0)[k2], x, y)),
    decreases ratio.0 as int - ix0,
{
    let rw = ratio.0 as int;
    let row = grid_row(img_size, ratio, maxd, iy, ix0);
    let rest = grid_row(img_size, ratio, maxd, iy, ix0 + 1);
    if !(tile_contains(row[k1], x, y) && tile_contains(row[k2], x, y)) {
        // nothing to show
    } else if lancet_len(img_size.0 as int, ix0, rw) > 0 {
        if k1 == 0 {
            // The head tile ends where interval `ix0 + 1` starts; every tile
            // in the rest starts at or after that boundary.
            lemma_tile_of_wf(img_size, ratio, maxd, ix0, iy);
            lemma_grid_row_members(img_size, ratio, maxd, iy, ix0 + 1);
            assert(row[k2] == rest[k2 - 1]);
            let ix = choose|ix: int|
                ix0 + 1 <= ix < rw
                    && #[trigger] lancet_len(img_size.0 as int, ix, rw) > 0
                    && rest[k2 - 1] == tile_of(img_size, ratio, maxd, ix, iy);
            lemma_tile_of_wf(img_size, ratio, maxd, ix, iy);
            lemma_lancet_monotone(img_size.0 as int, rw, ix0 + 1, ix);
            assert(x < lancet_start(img_size.0 as int, ix0 + 1, rw));
            assert(x >= lancet_start(img_size.0 as int, ix, rw));
            assert(false);
        } else {
            lemma_grid_row_disjoint(img_size, ratio, maxd, iy, ix0 + 1, k1 - 1, k2 - 1, x, y);
        }
    } else {
        lemma_grid_row_disjoint(img_size, ratio, maxd, iy, ix0 + 1, k1, k2, x, y);
    }
}

/// Helper for [`lemma_grid_tiles_disjoint`]: two distinct positions in the
/// row-major tile sequence never contain the same pixel.
proof fn lemma_grid_rows_disjoint(
    img_size: (u32, u32),
    ratio: (u8, u8),
    maxd: u8,
    iy0: int,
    k1: int,
    k2: int,
    x: int,
    y: int,
)
    requires
        ratio.0 >= 1,
        ratio.1 >= 1,
        0 <= iy0,
        0 <= k1 < k2 < grid_rows(img_size, ratio, maxd, iy0).len(),
    ensures
        !(tile_contains(grid_rows(img_size, ratio, maxd, iy0)[k1], x, y)
            && tile_contains(grid_rows(img_size, ratio, maxd, iy0)[k2], x, y)),
    decreases ratio.1 as int - iy0,
{
    let rw = ratio.0 as int;
    let rh = ratio.1 as int;
    let rows = grid_rows(img_size, ratio, maxd, iy0);
    let rest = grid_rows(img_size, ratio, maxd, iy0 + 1);
    if !(tile_contains(rows[k1], x, y) && tile_contains(rows[k2], x, y)) {
        // nothing to show
    } else if lancet_len(img_size.1 as int, iy0, rh) > 0 {
        let row = grid_row(img_size, ratio, maxd, iy0, 0);
        if k2 < row.len() {
            lemma_grid_row_disjoint(img_size, ratio, maxd, iy0, 0, k1, k2, x, y);
        } else if k1 >= row.len() {
            lemma_grid_rows_disjoint(img_size, ratio, maxd, iy0 + 1, k1 - row.len(), k2 - row.len(), x, y);
        } else {
            // `k1` is in row `iy0`, which ends where row interval `iy0 + 1`
            // starts; `k2` is in a later row, which starts at or after it.
            lemma_grid_row_members(img_size, ratio, maxd, iy0, 0);
            assert(rows[k1] == row[k1]);
            let ix1 = choose|ix: int|
                0 <= ix < rw
                    && #[trigger] lancet_len(img_size.0 as int, ix, rw) > 0
                    && row[k1] == tile_of(img_size, ratio, maxd, ix, iy0);
            lemma_tile_of_wf(img_size, ratio, maxd, ix1, iy0);
            lemma_grid_rows_members(img_size, ratio, maxd, iy0 + 1);
            assert(rows[k2] == rest[k2 - row.len()]);
            let (ix2, iy2) = choose|ix: int, iy: int|
                0 <= ix < rw && iy0 + 1 <= iy < rh
                    && lancet_len(img_size.0 as int, ix, rw) > 0
                    && lancet_len(img_size.1 as int, iy, rh) > 0
                    && rest[k2 - row.len()] == #[trigger] tile_of(img_size, ratio, maxd, ix, iy);
            lemma_tile_of_wf(img_size, ratio, maxd, ix2, iy2);
            lemma_lancet_monotone(img_size.1 as int, rh, iy0 + 1, iy2);
            assert(y < lancet_start(img_size.1 as int, iy0 + 1, rh));
            assert(y >= lancet_start(img_size.1 as int, iy2, rh));
            assert(false);
        }
    } else {
        lemma_grid_rows_disjoint(img_size, ratio, maxd, iy0 + 1, k1, k2, x, y);
    }
}

/// The four sub-regions of any region tile it exactly: their areas sum to
/// `w * h`, every point of the region lies in one of them, and no point lies
/// in two.
pub proof fn lemma_quad_split_tiles(sx: int, sy: int, w: int, h: int)
    requires
        w >= 0,
        h >= 0,
    ensures
        ({
            let q = quad_split(sx, sy, w, h);
            &&& q[0].2 * q[0].3 + q[1].2 * q[1].3 + q[2].2 * q[2].3 + q[3].2 * q[3].3 == w * h
            &&& forall|x: int, y: int| region_contains((sx, sy, w, h), x, y)
                ==> exists|i: int| 0 <= i < 4 && region_contains(#[trigger] q[i], x, y)
            &&& forall|i: int, j: int, x: int, y: int|
                0 <= i < 4 && 0 <= j < 4
                && #[trigger] region_contains(q[i], x, y) && #[trigger] region_contains(q[j], x, y)
                ==> i == j
        }),
{
    let q = quad_split(sx, sy, w, h);
    let w0 = w / 2;
    let h0 = h / 2;
    let w1 = w - w0;
    let h1 = h - h0;
    assert(w0 * h0 + w1 * h0 + w0 * h1 + w1 * h1 == (w0 + w1) * (h0 + h1)) by (nonlinear_arith);
    assert forall|x: int, y: int| region_contains((sx, sy, w, h), x, y)
        implies exists|i: int| 0 <= i < 4 && region_contains(#[trigger] q[i], x, y) by {
        if x < sx + w0 {
            if y < sy + h0 {
                assert(region_contains(q[0], x, y));
            } else {
                assert(region_contains(q[2], x, y));
            }
        } else {
            if y < sy + h0 {
                assert(region_contains(q[1], x, y));
            } else {
                assert(region_contains(q[3], x, y));
            }
        }
    }
}

} // verus!
