//! The library's raster image: a width by height grid of RGBA samples in one
//! flat, row-major buffer, together with the verified painting primitive the
//! brushes are built from.

use vstd::prelude::*;
use vstd::pervasive::VecAdditionalExecFns;
use crate::Sample;
use crate::util::{pos, pos_spec, lemma_pos_in_bounds, lemma_pos_decompose};
use vstd::arithmetic::div_mod::lemma_fundamental_div_mod_converse;

verus! {

/// A raster image: `width * height` RGBA samples, row-major. The buffer is
/// caller-owned; the builder borrows it read-only and the renderer mutates
/// it in place.
pub struct Image {
    /// Width in pixels.
    pub width: u32,
    /// Height in pixels.
    pub height: u32,
    /// Row-major samples; pixel `(x, y)` sits at index `width * y + x`.
    pub data: Vec<Sample>,
}

impl Image {
    /// The buffer holds exactly one sample per pixel.
    pub open spec fn wf(&self) -> bool {
        self.data@.len() == self.width as int * self.height as int
    }

    /// The sample of pixel `(x, y)`.
    pub open spec fn pix(&self, x: int, y: int) -> Sample {
        self.data@[pos_spec(self.width as int, x, y)]
    }

    /// An image of the given dimensions with every pixel set to `fill`;
    /// `None` when the pixel count does not fit the address space.
    pub fn new(width: u32, height: u32, fill: Sample) -> (r: Option<Image>)
        ensures
            match r {
                Some(img) => {
                    &&& img.wf()
                    &&& img.width == width
                    &&& img.height == height
                    &&& forall|i: int| 0 <= i < img.data@.len() ==> img.data@[i] == fill
                },
                None => width as int * height as int > usize::MAX,
            },
    {
        proof {
            assert(0 <= width as int * height as int <= 0xffffffff * 0xffffffff)
                by (nonlinear_arith)
                requires
                    0 <= width as int <= 0xffffffff,
                    0 <= height as int <= 0xffffffff,
            ;
        }
        let n_wide = (width as u64) * (height as u64);
        if n_wide > (usize::MAX as u64) {
            None
        } else {
            let n = n_wide as usize;
            let mut data: Vec<Sample> = Vec::new();
            while data.len() < n
                invariant
                    data@.len() <= n,
                    forall|i: int| 0 <= i < data@.len() ==> data@[i] == fill,
                decreases n - data.len(),
            {
                data.push(fill);
            }
            Some(Image { width, height, data })
        }
    }

    /// Wraps an existing buffer as an image of the given dimensions; `None`
    /// unless the buffer holds exactly one sample per pixel.
    pub fn from_raw(width: u32, height: u32, data: Vec<Sample>) -> (r: Option<Image>)
        ensures
            match r {
                Some(img) => {
                    &&& img.wf()
                    &&& img.width == width
                    &&& img.height == height
                    &&& img.data@ == data@
                },
                None => data@.len() != width as int * height as int,
            },
    {
        proof {
            assert(0 <= width as int * height as int <= 0xffffffff * 0xffffffff)
                by (nonlinear_arith)
                requires
                    0 <= width as int <= 0xffffffff,
                    0 <= height as int <= 0xffffffff,
            ;
        }
        let n_wide = (width as u64) * (height as u64);
        if (data.len() as u64) == n_wide {
            Some(Image { width, height, data })
        } else {
            None
        }
    }

    /// The sample at pixel `(x, y)`.
    pub fn at(&self, x: u32, y: u32) -> (s: Sample)
        requires
            self.wf(),
            x < self.width,
            y < self.height,
        ensures
            s == self.pix(x as int, y as int),
    {
        let n = self.data.len();
        proof {
            lemma_pos_in_bounds(self.width as int, self.height as int, x as int, y as int);
            assert(n == self.data@.len());
        }
        let idx = pos(self.width, x, y);
        self.data[idx]
    }

    /// Overwrites the sample at pixel `(x, y)`.
    pub fn put(&mut self, x: u32, y: u32, s: Sample)
        requires
            old(self).wf(),
            x < old(self).width,
            y < old(self).height,
        ensures
            final(self).wf(),
            final(self).width == old(self).width,
            final(self).height == old(self).height,
            final(self).data@ == old(self).data@.update(
                pos_spec(old(self).width as int, x as int, y as int),
                s,
            ),
    {
        let n = self.data.len();
        proof {
            lemma_pos_in_bounds(self.width as int, self.height as int, x as int, y as int);
            assert(n == self.data@.len());
        }
        let idx = pos(self.width, x, y);
        self.data.set(idx, s);
    }
}

/// The sample of pixel `(x, y)` in a flat row-major buffer of row width
/// `img_w`.
pub open spec fn pix_at(data: Seq<Sample>, img_w: int, x: int, y: int) -> Sample {
    data[pos_spec(img_w, x, y)]
}

/// The pixels a paint call covers inside its bounding box.
#[derive(Clone, Copy, PartialEq, Eq, Structural, Debug)]
pub enum Mask {
    /// Every pixel of the box.
    Full,
    /// A filled ellipse centered at `(cx, cy)` with half-axes `rw` and `rh`.
    Ellipse { cx: u32, cy: u32, rw: u32, rh: u32 },
    /// The rim of that ellipse: inside it but outside the ellipse whose
    /// half-axes are shorter by one.
    Ring { cx: u32, cy: u32, rw: u32, rh: u32 },
}

/// Whether `(x, y)` lies inside the axis-aligned ellipse centered at
/// `(cx, cy)` with half-axes `rw` and `rh`.
pub open spec fn in_ellipse(cx: int, cy: int, rw: int, rh: int, x: int, y: int) -> bool {
    (x - cx) * (x - cx) * rh * rh + (y - cy) * (y - cy) * rw * rw <= rw * rw * rh * rh
}

/// Whether the mask covers pixel `(x, y)`.
pub open spec fn mask_hit(m: Mask, x: int, y: int) -> bool {
    match m {
        Mask::Full => true,
        Mask::Ellipse { cx, cy, rw, rh } => in_ellipse(
            cx as int,
            cy as int,
            rw as int,
            rh as int,
            x,
            y,
        ),
        Mask::Ring { cx, cy, rw, rh } => in_ellipse(cx as int, cy as int, rw as int, rh as int, x, y)
            && !(rw >= 1 && rh >= 1 && in_ellipse(
                cx as int,
                cy as int,
                rw as int - 1,
                rh as int - 1,
                x,
                y,
            )),
    }
}

/// Half-axes small enough that the ellipse test cannot overflow.
pub open spec fn mask_wf(m: Mask) -> bool {
    match m {
        Mask::Full => true,
        Mask::Ellipse { cx, cy, rw, rh } => rw <= 0x7fffffff && rh <= 0x7fffffff,
        Mask::Ring { cx, cy, rw, rh } => rw <= 0x7fffffff && rh <= 0x7fffffff,
    }
}

/// The image data after painting `color` over every pixel of the box
/// `[sx, sx + w) x [sy, sy + h)` that the mask covers, clipped to the image.
pub open spec fn fill_masked_spec(
    data: Seq<Sample>,
    img_w: int,
    sx: int,
    sy: int,
    w: int,
    h: int,
    m: Mask,
    color: Sample,
) -> Seq<Sample> {
    Seq::new(
        data.len(),
        |i: int|
            {
                let x = i % img_w;
                let y = i / img_w;
                if sx <= x < sx + w && sy <= y < sy + h && mask_hit(m, x, y) {
                    color
                } else {
                    data[i]
                }
            },
    )
}

/// Exact ellipse membership test.
fn in_ellipse_px(cx: u32, cy: u32, rw: u32, rh: u32, x: u32, y: u32) -> (r: bool)
    requires
        rw <= 0x7fffffff,
        rh <= 0x7fffffff,
    ensures
        r == in_ellipse(cx as int, cy as int, rw as int, rh as int, x as int, y as int),
{
    let dx = if x >= cx {
        x - cx
    } else {
        cx - x
    };
    let dy = if y >= cy {
        y - cy
    } else {
        cy - y
    };
    proof {
        assert((x as int - cx as int) * (x as int - cx as int) == dx as int * dx as int
            && (y as int - cy as int) * (y as int - cy as int) == dy as int * dy as int)
            by (nonlinear_arith)
            requires
                dx as int == if x as int >= cx as int {
                    x as int - cx as int
                } else {
                    cx as int - x as int
                },
                dy as int == if y as int >= cy as int {
                    y as int - cy as int
                } else {
                    cy as int - y as int
                },
        ;
    }
    if dx > rw {
        if rh == 0 {
            // The right side is zero, so only a zero left side passes.
            let r = dy == 0 || rw == 0;
            proof {
                assert(((x as int - cx as int) * (x as int - cx as int) * (rh as int) * (rh as int)
                    + (y as int - cy as int) * (y as int - cy as int) * (rw as int) * (rw as int)
                    <= (rw as int) * (rw as int) * (rh as int) * (rh as int)) == (dy as int == 0
                    || rw as int == 0)) by (nonlinear_arith)
                    requires
                        (y as int - cy as int) * (y as int - cy as int) == dy as int * dy as int,
                        rh as int == 0,
                        dy as int >= 0,
                        rw as int >= 0,
                ;
            }
            r
        } else {
            proof {
                assert(!((x as int - cx as int) * (x as int - cx as int) * (rh as int) * (rh as int)
                    + (y as int - cy as int) * (y as int - cy as int) * (rw as int) * (rw as int)
                    <= (rw as int) * (rw as int) * (rh as int) * (rh as int))) by (nonlinear_arith)
                    requires
                        (x as int - cx as int) * (x as int - cx as int) == dx as int * dx as int,
                        (y as int - cy as int) * (y as int - cy as int) == dy as int * dy as int,
                        dx as int > rw as int >= 0,
                        rh as int >= 1,
                ;
            }
            false
        }
    } else if dy > rh {
        if rw == 0 {
            // `dx <= rw` forces `dx == 0`, so the left side is zero.
            proof {
                assert((x as int - cx as int) * (x as int - cx as int) * (rh as int) * (rh as int)
                    + (y as int - cy as int) * (y as int - cy as int) * (rw as int) * (rw as int)
                    <= (rw as int) * (rw as int) * (rh as int) * (rh as int)) by (nonlinear_arith)
                    requires
                        (x as int - cx as int) * (x as int - cx as int) == dx as int * dx as int,
                        dx as int == 0,
                        rw as int == 0,
                ;
            }
            true
        } else {
            proof {
                assert(!((x as int - cx as int) * (x as int - cx as int) * (rh as int) * (rh as int)
                    + (y as int - cy as int) * (y as int - cy as int) * (rw as int) * (rw as int)
                    <= (rw as int) * (rw as int) * (rh as int) * (rh as int))) by (nonlinear_arith)
                    requires
                        (x as int - cx as int) * (x as int - cx as int) == dx as int * dx as int,
                        (y as int - cy as int) * (y as int - cy as int) == dy as int * dy as int,
                        dy as int > rh as int >= 0,
                        rw as int >= 1,
                ;
            }
            false
        }
    } else {
        let dxw = dx as u128;
        let dyw = dy as u128;
        let rww = rw as u128;
        let rhw = rh as u128;
        proof {
            assert(0 <= dxw as int * dxw as int <= 0x7fffffff * 0x7fffffff) by (nonlinear_arith)
                requires 0 <= dxw as int <= 0x7fffffff;
            assert(0 <= dyw as int * dyw as int <= 0x7fffffff * 0x7fffffff) by (nonlinear_arith)
                requires 0 <= dyw as int <= 0x7fffffff;
            assert(0 <= rww as int * rww as int <= 0x7fffffff * 0x7fffffff) by (nonlinear_arith)
                requires 0 <= rww as int <= 0x7fffffff;
            assert(0 <= rhw as int * rhw as int <= 0x7fffffff * 0x7fffffff) by (nonlinear_arith)
                requires 0 <= rhw as int <= 0x7fffffff;
            assert(0 <= dxw as int * dxw as int * (rhw as int * rhw as int) <= (0x7fffffff
                * 0x7fffffff) * (0x7fffffff * 0x7fffffff)) by (nonlinear_arith)
                requires
                    0 <= dxw as int * dxw as int <= 0x7fffffff * 0x7fffffff,
                    0 <= rhw as int * rhw as int <= 0x7fffffff * 0x7fffffff,
            ;
            assert(0 <= dyw as int * dyw as int * (rww as int * rww as int) <= (0x7fffffff
                * 0x7fffffff) * (0x7fffffff * 0x7fffffff)) by (nonlinear_arith)
                requires
                    0 <= dyw as int * dyw as int <= 0x7fffffff * 0x7fffffff,
                    0 <= rww as int * rww as int <= 0x7fffffff * 0x7fffffff,
            ;
            assert(0 <= rww as int * rww as int * (rhw as int * rhw as int) <= (0x7fffffff
                * 0x7fffffff) * (0x7fffffff * 0x7fffffff)) by (nonlinear_arith)
                requires
                    0 <= rww as int * rww as int <= 0x7fffffff * 0x7fffffff,
                    0 <= rhw as int * rhw as int <= 0x7fffffff * 0x7fffffff,
            ;
            assert((dxw as int * dxw as int * (rhw as int * rhw as int) + dyw as int * dyw as int
                * (rww as int * rww as int) <= rww as int * rww as int * (rhw as int * rhw as int))
                == ((x as int - cx as int) * (x as int - cx as int) * (rh as int) * (rh as int)
                    + (y as int - cy as int) * (y as int - cy as int) * (rw as int) * (rw as int)
                    <= (rw as int) * (rw as int) * (rh as int) * (rh as int))) by (nonlinear_arith)
                requires
                    (x as int - cx as int) * (x as int - cx as int) == dx as int * dx as int,
                    (y as int - cy as int) * (y as int - cy as int) == dy as int * dy as int,
                    dxw as int == dx as int,
                    dyw as int == dy as int,
                    rww as int == rw as int,
                    rhw as int == rh as int,
            ;
        }
        dxw * dxw * (rhw * rhw) + dyw * dyw * (rww * rww) <= rww * rww * (rhw * rhw)
    }
}

/// Whether the mask covers pixel `(x, y)`.
fn mask_hit_px(m: Mask, x: u32, y: u32) -> (r: bool)
    requires
        mask_wf(m),
    ensures
        r == mask_hit(m, x as int, y as int),
{
    match m {
        Mask::Full => true,
        Mask::Ellipse { cx, cy, rw, rh } => in_ellipse_px(cx, cy, rw, rh, x, y),
        Mask::Ring { cx, cy, rw, rh } => {
            let outer = in_ellipse_px(cx, cy, rw, rh, x, y);
            if !outer {
                false
            } else if rw >= 1 && rh >= 1 {
                !in_ellipse_px(cx, cy, rw - 1, rh - 1, x, y)
            } else {
                true
            }
        },
    }
}

/// The partial paint after all rows below `yy` are done.
spec fn painted_rows(
    data: Seq<Sample>,
    img_w: int,
    sx: int,
    sy: int,
    w: int,
    h: int,
    m: Mask,
    color: Sample,
    yy: int,
) -> Seq<Sample> {
    Seq::new(
        data.len(),
        |i: int|
            {
                let x = i % img_w;
                let y = i / img_w;
                if sx <= x < sx + w && sy <= y < sy + h && mask_hit(m, x, y) && y < yy {
                    color
                } else {
                    data[i]
                }
            },
    )
}

/// The partial paint after all rows below `yy` and, in row `yy`, all columns
/// left of `xx` are done.
spec fn painted_cols(
    data: Seq<Sample>,
    img_w: int,
    sx: int,
    sy: int,
    w: int,
    h: int,
    m: Mask,
    color: Sample,
    yy: int,
    xx: int,
) -> Seq<Sample> {
    Seq::new(
        data.len(),
        |i: int|
            {
                let x = i % img_w;
                let y = i / img_w;
                if sx <= x < sx + w && sy <= y < sy + h && mask_hit(m, x, y) && (y < yy || (y == yy
                    && x < xx)) {
                    color
                } else {
                    data[i]
                }
            },
    )
}

/// Paints `color` over every pixel of the box `[sx, sx + w) x [sy, sy + h)`
/// that the mask covers, clipped to the image. Never reads or writes outside
/// the image.
pub fn fill_masked(img: &mut Image, sx: u32, sy: u32, w: u32, h: u32, mask: Mask, color: Sample)
    requires
        old(img).wf(),
        mask_wf(mask),
    ensures
        final(img).wf(),
        final(img).width == old(img).width,
        final(img).height == old(img).height,
        final(img).data@ == fill_masked_spec(
            old(img).data@,
            old(img).width as int,
            sx as int,
            sy as int,
            w as int,
            h as int,
            mask,
            color,
        ),
{
    let img_w = img.width;
    let img_h = img.height;
    let ghost orig = img.data@;
    let ghost wi = img_w as int;
    let xe: u32 = if (sx as u64) + (w as u64) >= (img_w as u64) {
        img_w
    } else {
        sx + w
    };
    let ye: u32 = if (sy as u64) + (h as u64) >= (img_h as u64) {
        img_h
    } else {
        sy + h
    };

    let mut y = sy;
    proof {
        assert(painted_rows(orig, wi, sx as int, sy as int, w as int, h as int, mask, color, sy as int)
            =~= orig) by {
            assert forall|i: int| 0 <= i < orig.len() implies painted_rows(
                orig, wi, sx as int, sy as int, w as int, h as int, mask, color, sy as int,
            )[i] == orig[i] by {
                if wi >= 1 {
                    lemma_pos_decompose(wi, i);
                } else {
                    assert(orig.len() == wi * (img_h as int));
                    assert(wi * (img_h as int) == 0) by (nonlinear_arith)
                        requires wi == 0;
                }
            }
        }
    }
    while y < ye
        invariant
            img.wf(),
            img.width == img_w,
            img.height == img_h,
            img_w == old(img).width,
            img_h == old(img).height,
            orig == old(img).data@,
            wi == img_w as int,
            orig.len() == wi * (img_h as int),
            mask_wf(mask),
            xe as int == if sx as int + w as int >= img_w as int {
                img_w as int
            } else {
                sx as int + w as int
            },
            ye as int == if sy as int + h as int >= img_h as int {
                img_h as int
            } else {
                sy as int + h as int
            },
            sy <= y,
            y <= ye || y == sy,
            img.data@ == painted_rows(orig, wi, sx as int, sy as int, w as int, h as int, mask, color, y as int),
        decreases ye - y,
    {
        let mut x = sx;
        proof {
            assert(painted_cols(orig, wi, sx as int, sy as int, w as int, h as int, mask, color, y as int, sx as int)
                =~= painted_rows(orig, wi, sx as int, sy as int, w as int, h as int, mask, color, y as int)) by {
                assert forall|i: int| 0 <= i < orig.len() implies painted_cols(
                    orig, wi, sx as int, sy as int, w as int, h as int, mask, color, y as int, sx as int,
                )[i] == painted_rows(
                    orig, wi, sx as int, sy as int, w as int, h as int, mask, color, y as int,
                )[i] by {
                    if wi >= 1 {
                        lemma_pos_decompose(wi, i);
                    } else {
                        assert(orig.len() == wi * (img_h as int));
                        assert(wi * (img_h as int) == 0) by (nonlinear_arith)
                            requires wi == 0;
                    }
                }
            }
        }
        while x < xe
            invariant
                img.wf(),
                img.width == img_w,
                img.height == img_h,
                img_w == old(img).width,
                img_h == old(img).height,
                orig == old(img).data@,
                wi == img_w as int,
                orig.len() == wi * (img_h as int),
                mask_wf(mask),
                xe as int == if sx as int + w as int >= img_w as int {
                    img_w as int
                } else {
                    sx as int + w as int
                },
                sy <= y < img_h,
                y < ye,
                ye <= img_h,
                (y as int) < (sy as int) + (h as int),
                sx <= x,
                x <= xe || x == sx,
                img.data@ == painted_cols(orig, wi, sx as int, sy as int, w as int, h as int, mask, color, y as int, x as int),
            decreases xe - x,
        {
            let ghost before = img.data@;
            if mask_hit_px(mask, x, y) {
                img.put(x, y, color);
            }
            proof {
                lemma_pos_in_bounds(wi, img_h as int, x as int, y as int);
                let next = painted_cols(
                    orig, wi, sx as int, sy as int, w as int, h as int, mask, color, y as int,
                    x as int + 1,
                );
                assert(img.data@ =~= next) by {
                    assert forall|i: int| 0 <= i < orig.len() implies img.data@[i] == next[i] by {
                        if wi >= 1 {
                            lemma_pos_decompose(wi, i);
                            if i == pos_spec(wi, x as int, y as int) {
                                lemma_fundamental_div_mod_converse(i, wi, y as int, x as int);
                            }
                        } else {
                            assert(orig.len() == wi * (img_h as int));
                            assert(wi * (img_h as int) == 0) by (nonlinear_arith)
                                requires wi == 0;
                        }
                    }
                }
            }
            x = x + 1;
        }
        proof {
            let after_row = painted_rows(
                orig, wi, sx as int, sy as int, w as int, h as int, mask, color, y as int + 1,
            );
            assert(img.data@ =~= after_row) by {
                assert forall|i: int| 0 <= i < orig.len() implies img.data@[i] == after_row[i] by {
                    if wi >= 1 {
                        lemma_pos_decompose(wi, i);
                    } else {
                        assert(orig.len() == wi * (img_h as int));
                        assert(wi * (img_h as int) == 0) by (nonlinear_arith)
                            requires wi == 0;
                    }
                }
            }
        }
        y = y + 1;
    }
    proof {
        let target = fill_masked_spec(
            orig, wi, sx as int, sy as int, w as int, h as int, mask, color,
        );
        assert(img.data@ =~= target) by {
            assert forall|i: int| 0 <= i < orig.len() implies img.data@[i] == target[i] by {
                if wi >= 1 {
                    lemma_pos_decompose(wi, i);
                    vstd::arithmetic::div_mod::lemma_multiply_divide_lt(i, wi, img_h as int);
                } else {
                    assert(orig.len() == wi * (img_h as int));
                    assert(wi * (img_h as int) == 0) by (nonlinear_arith)
                        requires wi == 0;
                }
            }
        }
    }
}

} // verus!
