//! The embeddable entry point: one build-and-render pass over a raw RGBA
//! byte buffer, in place, reporting status as an integer.

use vstd::prelude::*;
use vstd::pervasive::VecAdditionalExecFns;
use crate::{analyze, AnalyzeParams, CanvasPixel, GenericParams, Sample};
use crate::raster::Image;
use crate::render::{render, ClassicBrush, RenderParams, render_spec};
use crate::analyze::analyze_spec;

verus! {

/// The samples encoded by a raw RGBA byte buffer: four bytes per pixel, in
/// order red, green, blue, alpha.
pub open spec fn bytes_to_samples(b: Seq<u8>) -> Seq<Sample> {
    Seq::new(
        b.len() / 4,
        |i: int| Sample { r: b[4 * i], g: b[4 * i + 1], b: b[4 * i + 2], a: b[4 * i + 3] },
    )
}

/// The raw RGBA byte buffer encoding the given samples.
pub open spec fn samples_to_bytes(s: Seq<Sample>) -> Seq<u8> {
    Seq::new(
        4 * s.len(),
        |i: int|
            {
                let p = s[i / 4];
                if i % 4 == 0 {
                    p.r
                } else if i % 4 == 1 {
                    p.g
                } else if i % 4 == 2 {
                    p.b
                } else {
                    p.a
                }
            },
    )
}

/// A canvas of `n` untouched cells: depth zero, transparent black.
pub open spec fn zero_canvas(n: nat) -> Seq<CanvasPixel> {
    Seq::new(n, |i: int| CanvasPixel { depth: 0, color: Sample { r: 0, g: 0, b: 0, a: 0 } })
}

/// Whether one in-place pass can run at all: the scratch canvas holds every
/// pixel, there is at least one pixel, and the slicing ratio is positive.
pub open spec fn process_accepts(
    width: u32,
    height: u32,
    buffer_size: usize,
    ge_params: GenericParams,
) -> bool {
    &&& width as int * height as int <= buffer_size
    &&& width as int * height as int > 0
    &&& ge_params.slicing_ratio.0 >= 1
    &&& ge_params.slicing_ratio.1 >= 1
}

/// One build-and-render pass over a raw RGBA byte buffer, in place.
///
/// Returns 0 on success, with the buffer holding the rendered image: the
/// build of the decoded samples into a fresh canvas of `buffer_size` cells,
/// rendered with the given brush at time zero. Returns -1, leaving the
/// buffer untouched, when the canvas buffer would be too small, the image is
/// empty, or the slicing ratio has a zero component.
pub fn process_rgba_u8(
    data: &mut Vec<u8>,
    width: u32,
    height: u32,
    buffer_size: usize,
    ge_params: GenericParams,
    an_params: AnalyzeParams,
    re_params: RenderParams,
    brush: ClassicBrush,
) -> (status: i32)
    requires
        old(data)@.len() == 4 * (width as int * height as int),
    ensures
        status == 0 || status == -1,
        (status == 0) == process_accepts(width, height, buffer_size, ge_params),
        status == -1 ==> final(data)@ == old(data)@,
        status == 0 ==> final(data)@ == samples_to_bytes(
            render_spec(
                brush,
                bytes_to_samples(old(data)@),
                width,
                height,
                analyze_spec(
                    bytes_to_samples(old(data)@),
                    width,
                    height,
                    zero_canvas(buffer_size as nat),
                    ge_params,
                    an_params,
                ),
                ge_params,
                re_params,
                0,
            ),
        ),
{
    proof {
        assert(0 <= width as int * height as int <= 0xffffffff * 0xffffffff) by (nonlinear_arith)
            requires
                0 <= width as int <= 0xffffffff,
                0 <= height as int <= 0xffffffff,
        ;
    }
    let pixel_count_wide = (width as u64) * (height as u64);
    if (buffer_size as u64) < pixel_count_wide || pixel_count_wide == 0 {
        return -1;
    }
    if ge_params.slicing_ratio.0 == 0 || ge_params.slicing_ratio.1 == 0 {
        return -1;
    }
    let pixel_count = pixel_count_wide as usize;

    let ghost bytes_in = data@;
    let ghost samples_in = bytes_to_samples(data@);

    let mut samples: Vec<Sample> = Vec::new();
    let mut i: usize = 0;
    while i < pixel_count
        invariant
            data@ == bytes_in,
            bytes_in.len() == 4 * (width as int * height as int),
            pixel_count == width as int * height as int,
            samples_in == bytes_to_samples(bytes_in),
            i <= pixel_count,
            samples@.len() == i,
            forall|j: int| 0 <= j < i ==> samples@[j] == samples_in[j],
        decreases pixel_count - i,
    {
        let dn = data.len();
        proof {
            assert(dn == data@.len());
        }
        let p = Sample {
            r: data[4 * i],
            g: data[4 * i + 1],
            b: data[4 * i + 2],
            a: data[4 * i + 3],
        };
        samples.push(p);
        i = i + 1;
    }
    proof {
        assert(samples@ =~= samples_in);
    }

    let img_opt = Image::from_raw(width, height, samples);
    let mut img = match img_opt {
        Some(im) => im,
        None => {
            proof {
                assert(false);
            }
            return -1;
        },
    };

    let mut canvas: Vec<CanvasPixel> = Vec::new();
    while canvas.len() < buffer_size
        invariant
            canvas@.len() <= buffer_size,
            forall|j: int|
                0 <= j < canvas@.len() ==> canvas@[j] == (CanvasPixel {
                    depth: 0,
                    color: Sample { r: 0, g: 0, b: 0, a: 0 },
                }),
        decreases buffer_size - canvas.len(),
    {
        canvas.push(CanvasPixel { depth: 0, color: Sample { r: 0, g: 0, b: 0, a: 0 } });
    }
    proof {
        assert(canvas@ =~= zero_canvas(buffer_size as nat));
    }

    if analyze(&img, &mut canvas, ge_params, an_params).is_err() {
        return -2;
    }

    if render(&mut img, &canvas, &brush, ge_params, re_params, 0).is_err() {
        return -3;
    }

    let ghost out_samples = img.data@;
    let mut k: usize = 0;
    while k < pixel_count
        invariant
            img.wf(),
            img.width == width,
            img.height == height,
            out_samples == img.data@,
            pixel_count == width as int * height as int,
            data@.len() == 4 * (width as int * height as int),
            bytes_in.len() == data@.len(),
            k <= pixel_count,
            forall|j: int|
                0 <= j < 4 * k ==> data@[j] == samples_to_bytes(out_samples)[j],
            forall|j: int|
                4 * k <= j < data@.len() ==> data@[j] == bytes_in[j],
        decreases pixel_count - k,
    {
        let n = img.data.len();
        let dn = data.len();
        let p = img.data[k];
        proof {
            assert(n == img.data@.len());
            assert(dn == data@.len());
            assert(samples_to_bytes(out_samples)[4 * k as int] == p.r);
            assert(samples_to_bytes(out_samples)[4 * k as int + 1] == p.g);
            assert(samples_to_bytes(out_samples)[4 * k as int + 2] == p.b);
            assert(samples_to_bytes(out_samples)[4 * k as int + 3] == p.a);
        }
        data.set(4 * k, p.r);
        data.set(4 * k + 1, p.g);
        data.set(4 * k + 2, p.b);
        data.set(4 * k + 3, p.a);
        k = k + 1;
    }
    proof {
        assert(data@ =~= samples_to_bytes(out_samples));
    }
    0
}

} // verus!
