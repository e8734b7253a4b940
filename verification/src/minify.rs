use vstd::prelude::*;

use crate::raster::{Image, pix_idx, lemma_pix_idx_bounds};
use crate::dithering::l1_diff;
use crate::sorting::{sort_u8, sorted_u8};
use crate::diffusion::{fs_done, apply_floyd_steinberg_dithering};
use crate::median::{Color, spec_median_mapped, quantize_image_with_median};

verus! {

/// What can go wrong inside the minification core and its byte-level entry
/// points. The core itself performs no I/O.
#[derive(Debug, Clone, Copy, PartialEq, Eq, Structural)]
pub enum MinifyError {
    /// The automatic mode reached the pixel-transform stage unresolved;
    /// this indicates a caller bug and is never silently defaulted.
    UnresolvedAuto,
    /// The input bytes could not be decoded as an image.
    Decode,
    /// The transformed image could not be encoded.
    Encode,
    /// The lossless optimizer rejected the encoded bytes.
    Optimize,
    /// The bytes do not start with the PNG signature.
    InvalidSignature,
    /// No image-end chunk was found while walking the container.
    MissingImageEnd,
    /// A chunk declared an implausibly large length.
    OversizedChunk,
}

impl MinifyError {
    /// A short description of the error.
    pub fn message(&self) -> (r: &'static str)
    {
        match self {
            MinifyError::UnresolvedAuto => "auto dithering mode must be resolved before quantization",
            MinifyError::Decode => "failed to decode image",
            MinifyError::Encode => "failed to encode image",
            MinifyError::Optimize => "failed to optimize image",
            MinifyError::InvalidSignature => "invalid PNG signature",
            MinifyError::MissingImageEnd => "image end chunk not found",
            MinifyError::OversizedChunk => "invalid chunk length",
        }
    }
}

/// Dithering mode for lossy minification.
#[derive(Debug, Clone, Copy, PartialEq, Eq, Structural)]
pub enum DitheringMode {
    /// Flat rounding without dithering - clean gradients but may show banding.
    Flat,
    /// Floyd-Steinberg dithering - distributes error to neighbors, good for photos.
    FloydSteinberg,
    /// Ordered (Bayer) dithering - regular pattern, balanced approach.
    Ordered,
    /// Median-cut palette quantization - picks a small representative color set.
    MedianCut,
    /// Auto-detect optimal mode based on image characteristics.
    Auto,
}

/// Results of processing a PNG file.
#[derive(Debug)]
pub struct ProcessingResult {
    /// The original file size in bytes.
    pub original_size: u64,
    /// The new file size in bytes.
    pub new_size: u64,
}

/// Clamp an integer to the 8-bit channel range.
pub open spec fn spec_clamp_255(v: int) -> int {
    if v < 0 {
        0
    } else if v > 255 {
        255
    } else {
        v
    }
}

/// Round a channel value to the nearest multiple of `factor`, clamped to [0, 255].
pub open spec fn spec_quantize(v: int, factor: int) -> int {
    spec_clamp_255(((spec_clamp_255(v) + factor / 2) / factor) * factor)
}

/// Quantize a single color channel with rounding: the value is clamped to
/// [0, 255], rounded to the nearest multiple of `factor`, and clamped again.
pub fn quantize_channel(value: i16, factor: u8) -> (r: u8)
    requires
        1 <= factor,
    ensures
        r as int == spec_quantize(value as int, factor as int),
{
    let clamped: i16 = if value < 0 {
        0
    } else if value > 255 {
        255
    } else {
        value
    };
    let f: i16 = factor as i16;
    assert(0 <= ((clamped as int + f as int / 2) / f as int) * f as int <= clamped as int + f as int
        / 2) by (nonlinear_arith)
        requires
            1 <= f as int,
            0 <= clamped as int,
    ;
    let quantized: i16 = ((clamped + f / 2) / f) * f;
    if quantized > 255 {
        255
    } else {
        quantized as u8
    }
}

/// The quantization step that a quality level selects: coarser steps for
/// lower quality, finer steps for higher quality.
pub open spec fn spec_downsampling_factor(quality: int) -> int {
    if quality <= 40 {
        32
    } else if quality <= 55 {
        16
    } else if quality <= 70 {
        12
    } else {
        8
    }
}

/// Map a quality level (1-100) to the channel quantization step.
pub fn downsampling_factor(quality: u8) -> (f: u8)
    ensures
        f as int == spec_downsampling_factor(quality as int),
        8 <= f <= 32,
        f % 4 == 0,
{
    if quality <= 40 {
        32
    } else if quality <= 55 {
        16
    } else if quality <= 70 {
        12
    } else {
        8
    }
}

/// Selective pre-quantization darkening of one channel value: deep shadows
/// are scaled to 8/10, lighter shadows to 9/10, everything else kept.
pub open spec fn spec_darken(v: int) -> int {
    if v < 16 {
        (v * 8) / 10
    } else if v < 32 {
        (v * 9) / 10
    } else {
        v
    }
}

fn darken_channel(v: u8) -> (r: u8)
    ensures
        r as int == spec_darken(v as int),
{
    if v < 16 {
        (v * 8) / 10
    } else if v < 32 {
        ((v as u16 * 9) / 10) as u8
    } else {
        v
    }
}

/// What one byte of the sample buffer becomes under darkening: alpha bytes
/// are kept, color bytes are darkened.
pub open spec fn spec_darken_byte(i: int, v: int) -> int {
    if i % 4 == 3 {
        v
    } else {
        spec_darken(v)
    }
}

/// Apply selective darkening to the image before quantization: every red,
/// green and blue sample is darkened; alpha is untouched.
pub fn apply_darkening(img: &mut Image)
    requires
        old(img).wf(),
    ensures
        final(img).wf(),
        final(img).width == old(img).width,
        final(img).height == old(img).height,
        final(img).data@.len() == old(img).data@.len(),
        forall|i: int|
            0 <= i < old(img).data@.len() ==> final(img).data@[i] as int == spec_darken_byte(
                i,
                old(img).data@[i] as int,
            ),
{
    let n: usize = img.data.len();
    let mut i: usize = 0;
    while i < n
        invariant
            img.wf(),
            img.width == old(img).width,
            img.height == old(img).height,
            img.data@.len() == old(img).data@.len(),
            n == img.data@.len(),
            i <= n,
            forall|j: int|
                0 <= j < i ==> img.data@[j] as int == spec_darken_byte(j, old(img).data@[j] as int),
            forall|j: int| i <= j < n ==> img.data@[j] == old(img).data@[j],
        decreases n - i,
    {
        if i % 4 != 3 {
            let v: u8 = img.data[i];
            img.data[i] = darken_channel(v);
        }
        i = i + 1;
    }
}

/// Integer division that rounds toward zero, as machine division does.
pub open spec fn spec_div_trunc(a: int, d: int) -> int {
    if a >= 0 {
        a / d
    } else {
        -((-a) / d)
    }
}

/// The 4x4 ordered-dithering threshold matrix, tiled over the image by
/// `(x mod 4, y mod 4)`. Its values are centered near zero to avoid a
/// brightness bias; the asymmetric layout is deliberate.
pub open spec fn spec_bayer_at(x: int, y: int) -> int {
    let col = x % 4;
    let row = y % 4;
    if row == 0 {
        if col == 0 { -8 } else if col == 1 { 0 } else if col == 2 { -6 } else { 2 }
    } else if row == 1 {
        if col == 0 { 4 } else if col == 1 { -4 } else if col == 2 { 6 } else { -2 }
    } else if row == 2 {
        if col == 0 { -5 } else if col == 1 { 3 } else if col == 2 { -7 } else { 1 }
    } else {
        if col == 0 { 7 } else if col == 1 { -1 } else if col == 2 { 5 } else { -3 }
    }
}

fn bayer_threshold(x: u32, y: u32) -> (t: i16)
    ensures
        t as int == spec_bayer_at(x as int, y as int),
        -8 <= t <= 7,
{
    let col: u32 = x % 4;
    let row: u32 = y % 4;
    if row == 0 {
        if col == 0 { -8 } else if col == 1 { 0 } else if col == 2 { -6 } else { 2 }
    } else if row == 1 {
        if col == 0 { 4 } else if col == 1 { -4 } else if col == 2 { 6 } else { -2 }
    } else if row == 2 {
        if col == 0 { -5 } else if col == 1 { 3 } else if col == 2 { -7 } else { 1 }
    } else {
        if col == 0 { 7 } else if col == 1 { -1 } else if col == 2 { 5 } else { -3 }
    }
}

/// What one color sample becomes under ordered dithering: the tiled
/// threshold, scaled by `factor / 32`, is added before quantization.
pub open spec fn spec_ordered_px(v: int, x: int, y: int, factor: int) -> int {
    spec_quantize(v + spec_div_trunc(spec_bayer_at(x, y) * factor, 32), factor)
}

/// Apply ordered (Bayer) dithering: each pixel's red, green and blue samples
/// are offset by the tiled threshold and quantized; alpha passes through.
pub fn apply_ordered_dithering(img: &Image, factor: u8) -> (out: Image)
    requires
        img.wf(),
        1 <= factor,
    ensures
        out.wf(),
        out.same_dims(img),
        forall|x: int, y: int, c: int|
            0 <= x < img.width && 0 <= y < img.height && 0 <= c < 3 ==> out.pix(x, y, c) as int
                == spec_ordered_px(img.pix(x, y, c) as int, x, y, factor as int),
        forall|x: int, y: int|
            0 <= x < img.width && 0 <= y < img.height ==> out.pix(x, y, 3) == img.pix(x, y, 3),
{
    let w: u32 = img.width;
    let h: u32 = img.height;
    let mut data: Vec<u8> = Vec::new();
    let mut y: u32 = 0;
    while y < h
        invariant
            img.wf(),
            w == img.width,
            h == img.height,
            y <= h,
            1 <= factor,
            data@.len() == 4 * (y * w),
            forall|xp: int, yp: int, c: int|
                0 <= xp < w && 0 <= yp < y && 0 <= c < 4 ==> #[trigger] data@[pix_idx(
                    w as int,
                    xp,
                    yp,
                    c,
                )] as int == (if c == 3 {
                    img.pix(xp, yp, 3) as int
                } else {
                    spec_ordered_px(img.pix(xp, yp, c) as int, xp, yp, factor as int)
                }),
        decreases h - y,
    {
        let mut x: u32 = 0;
        while x < w
            invariant
                img.wf(),
                w == img.width,
                h == img.height,
                y < h,
                x <= w,
                1 <= factor,
                data@.len() == 4 * (y * w + x),
                forall|xp: int, yp: int, c: int|
                    0 <= xp < w && 0 <= yp < y && 0 <= c < 4 ==> #[trigger] data@[pix_idx(
                        w as int,
                        xp,
                        yp,
                        c,
                    )] as int == (if c == 3 {
                        img.pix(xp, yp, 3) as int
                    } else {
                        spec_ordered_px(img.pix(xp, yp, c) as int, xp, yp, factor as int)
                    }),
                forall|xp: int, c: int|
                    0 <= xp < x && 0 <= c < 4 ==> #[trigger] data@[pix_idx(
                        w as int,
                        xp,
                        y as int,
                        c,
                    )] as int == (if c == 3 {
                        img.pix(xp, y as int, 3) as int
                    } else {
                        spec_ordered_px(img.pix(xp, y as int, c) as int, xp, y as int, factor as int)
                    }),
            decreases w - x,
        {
            proof {
                lemma_pix_idx_bounds(w as int, h as int, x as int, y as int, 0);
            }
            let ghost data0 = data@;
            let t: i16 = bayer_threshold(x, y);
            assert(-2040 <= t as int * factor as int <= 2040) by (nonlinear_arith)
                requires
                    -8 <= t as int <= 7,
                    0 <= factor as int <= 255,
            ;
            let p: i16 = t * (factor as i16);
            let s: i16 = if p >= 0 {
                p / 32
            } else {
                -((-p) / 32)
            };
            assert(s as int == spec_div_trunc(spec_bayer_at(x as int, y as int) * factor as int, 32));
            let r = quantize_channel(img.get(x, y, 0) as i16 + s, factor);
            let g = quantize_channel(img.get(x, y, 1) as i16 + s, factor);
            let b = quantize_channel(img.get(x, y, 2) as i16 + s, factor);
            let a = img.get(x, y, 3);
            data.push(r);
            data.push(g);
            data.push(b);
            data.push(a);
            proof {
                assert(data@ =~= data0 + seq![r, g, b, a]);
                assert forall|xp: int, yp: int, c: int|
                    0 <= xp < w && 0 <= yp < y && 0 <= c < 4 implies #[trigger] data@[pix_idx(
                    w as int,
                    xp,
                    yp,
                    c,
                )] == data0[pix_idx(w as int, xp, yp, c)] by {
                    lemma_pix_idx_bounds(w as int, y as int, xp, yp, c);
                    assert(4 * w * y <= 4 * (y * w + x)) by (nonlinear_arith)
                        requires
                            0 <= x,
                            0 <= y,
                            0 <= w,
                    ;
                }
                assert forall|xp: int, c: int|
                    0 <= xp < x && 0 <= c < 4 implies #[trigger] data@[pix_idx(w as int, xp, y as int, c)]
                    == data0[pix_idx(w as int, xp, y as int, c)] by {
                    lemma_pix_idx_bounds(w as int, h as int, xp, y as int, c);
                }
                assert forall|c: int| 0 <= c < 4 implies #[trigger] data@[pix_idx(
                    w as int,
                    x as int,
                    y as int,
                    c,
                )] == (seq![r, g, b, a])[c] by {
                    assert(pix_idx(w as int, x as int, y as int, c) == data0.len() + c);
                }
            }
            x = x + 1;
        }
        y = y + 1;
        assert(4 * ((y - 1) * w + w) == 4 * (y * w)) by (nonlinear_arith);
    }
    assert(4 * (h * w) == 4 * w * h) by (nonlinear_arith);
    let out = Image { width: w, height: h, data };
    proof {
        assert forall|x: int, yp: int, c: int|
            0 <= x < w && 0 <= yp < h && 0 <= c < 4 implies out.pix(x, yp, c) == out.data@[pix_idx(
            w as int,
            x,
            yp,
            c,
        )] by {
            lemma_pix_idx_bounds(w as int, h as int, x, yp, c);
        }
    }
    out
}

/// Apply simple quantization without dithering: each pixel's red, green and
/// blue samples are quantized independently; alpha passes through.
pub fn apply_no_dithering(img: &Image, factor: u8) -> (out: Image)
    requires
        img.wf(),
        1 <= factor,
    ensures
        out.wf(),
        out.same_dims(img),
        forall|x: int, y: int, c: int|
            0 <= x < img.width && 0 <= y < img.height && 0 <= c < 3 ==> out.pix(x, y, c) as int
                == spec_quantize(img.pix(x, y, c) as int, factor as int),
        forall|x: int, y: int|
            0 <= x < img.width && 0 <= y < img.height ==> out.pix(x, y, 3) == img.pix(x, y, 3),
{
    let w: u32 = img.width;
    let h: u32 = img.height;
    let mut data: Vec<u8> = Vec::new();
    let mut y: u32 = 0;
    while y < h
        invariant
            img.wf(),
            w == img.width,
            h == img.height,
            y <= h,
            1 <= factor,
            data@.len() == 4 * (y * w),
            forall|xp: int, yp: int, c: int|
                0 <= xp < w && 0 <= yp < y && 0 <= c < 4 ==> #[trigger] data@[pix_idx(
                    w as int,
                    xp,
                    yp,
                    c,
                )] as int == (if c == 3 {
                    img.pix(xp, yp, 3) as int
                } else {
                    spec_quantize(img.pix(xp, yp, c) as int, factor as int)
                }),
        decreases h - y,
    {
        let mut x: u32 = 0;
        while x < w
            invariant
                img.wf(),
                w == img.width,
                h == img.height,
                y < h,
                x <= w,
                1 <= factor,
                data@.len() == 4 * (y * w + x),
                forall|xp: int, yp: int, c: int|
                    0 <= xp < w && 0 <= yp < y && 0 <= c < 4 ==> #[trigger] data@[pix_idx(
                        w as int,
                        xp,
                        yp,
                        c,
                    )] as int == (if c == 3 {
                        img.pix(xp, yp, 3) as int
                    } else {
                        spec_quantize(img.pix(xp, yp, c) as int, factor as int)
                    }),
                forall|xp: int, c: int|
                    0 <= xp < x && 0 <= c < 4 ==> #[trigger] data@[pix_idx(
                        w as int,
                        xp,
                        y as int,
                        c,
                    )] as int == (if c == 3 {
                        img.pix(xp, y as int, 3) as int
                    } else {
                        spec_quantize(img.pix(xp, y as int, c) as int, factor as int)
                    }),
            decreases w - x,
        {
            proof {
                lemma_pix_idx_bounds(w as int, h as int, x as int, y as int, 0);
            }
            let ghost data0 = data@;
            let r = quantize_channel(img.get(x, y, 0) as i16, factor);
            let g = quantize_channel(img.get(x, y, 1) as i16, factor);
            let b = quantize_channel(img.get(x, y, 2) as i16, factor);
            let a = img.get(x, y, 3);
            data.push(r);
            data.push(g);
            data.push(b);
            data.push(a);
            proof {
                assert(data@ =~= data0 + seq![r, g, b, a]);
                assert forall|xp: int, yp: int, c: int|
                    0 <= xp < w && 0 <= yp < y && 0 <= c < 4 implies #[trigger] data@[pix_idx(
                    w as int,
                    xp,
                    yp,
                    c,
                )] == data0[pix_idx(w as int, xp, yp, c)] by {
                    lemma_pix_idx_bounds(w as int, y as int, xp, yp, c);
                    assert(4 * w * y <= 4 * (y * w + x)) by (nonlinear_arith)
                        requires
                            0 <= x,
                            0 <= y,
                            0 <= w,
                    ;
                }
                assert forall|xp: int, c: int|
                    0 <= xp < x && 0 <= c < 4 implies #[trigger] data@[pix_idx(w as int, xp, y as int, c)]
                    == data0[pix_idx(w as int, xp, y as int, c)] by {
                    lemma_pix_idx_bounds(w as int, h as int, xp, y as int, c);
                }
                assert forall|c: int| 0 <= c < 4 implies #[trigger] data@[pix_idx(
                    w as int,
                    x as int,
                    y as int,
                    c,
                )] == (seq![r, g, b, a])[c] by {
                    assert(pix_idx(w as int, x as int, y as int, c) == data0.len() + c);
                }
            }
            x = x + 1;
        }
        y = y + 1;
        assert(4 * ((y - 1) * w + w) == 4 * (y * w)) by (nonlinear_arith);
    }
    assert(4 * (h * w) == 4 * w * h) by (nonlinear_arith);
    let out = Image { width: w, height: h, data };
    proof {
        assert forall|x: int, yp: int, c: int|
            0 <= x < w && 0 <= yp < h && 0 <= c < 4 implies out.pix(x, yp, c) == out.data@[pix_idx(
            w as int,
            x,
            yp,
            c,
        )] by {
            lemma_pix_idx_bounds(w as int, h as int, x, yp, c);
        }
    }
    out
}

/// A pixel strictly inside the block `[x0, x1) x [y0, y1)`: the block's own
/// border pixels are left out, so neither the statistics nor the filter
/// ever reads a neighbor outside the block.
pub open spec fn dn_interior(x: int, y: int, x0: int, y0: int, x1: int, y1: int) -> bool {
    x > x0 && y > y0 && x + 1 < x1 && y + 1 < y1
}

/// A pixel counts as an edge when its right or bottom neighbor differs by
/// more than 30 levels per channel on average (90 summed over RGB).
pub open spec fn dn_is_edge(img: Image, x: int, y: int) -> bool {
    l1_diff(img, x, y, x + 1, y) > 90 || l1_diff(img, x, y, x, y + 1) > 90
}

/// The summed RGB difference between a pixel and its four axis neighbors.
pub open spec fn dn_noise(img: Image, x: int, y: int) -> int {
    l1_diff(img, x, y, x - 1, y) + l1_diff(img, x, y, x + 1, y) + l1_diff(img, x, y, x, y - 1)
        + l1_diff(img, x, y, x, y + 1)
}

/// Edge count, considered-pixel count and noise sum over the columns
/// `x .. x1` of one block row.
pub open spec fn dn_row(img: Image, y: int, x: int, x0: int, y0: int, x1: int, y1: int) -> (
    int,
    int,
    int,
)
    decreases x1 - x when x <= x1
{
    if x >= x1 {
        (0int, 0int, 0int)
    } else {
        let rest = dn_row(img, y, x + 1, x0, y0, x1, y1);
        if dn_interior(x, y, x0, y0, x1, y1) {
            (
                rest.0 + if dn_is_edge(img, x, y) {
                    1int
                } else {
                    0int
                },
                rest.1 + 1,
                rest.2 + dn_noise(img, x, y),
            )
        } else {
            rest
        }
    }
}

/// Edge count, considered-pixel count and noise sum over a whole block.
pub open spec fn dn_block(img: Image, x0: int, y0: int, x1: int, y1: int, y: int) -> (
    int,
    int,
    int,
)
    decreases y1 - y when y <= y1
{
    if y >= y1 {
        (0int, 0int, 0int)
    } else {
        let row = dn_row(img, y, x0, x0, y0, x1, y1);
        let rest = dn_block(img, x0, y0, x1, y1, y + 1);
        (row.0 + rest.0, row.1 + rest.1, row.2 + rest.2)
    }
}

/// A block reads as "gradient with noise": its edge density is below 15%
/// and its average neighbor difference is above 5 levels.
pub open spec fn dn_is_gradient(ec: int, tc: int, s: int) -> bool {
    20 * ec < 3 * tc && s > 60 * tc
}

/// The denoiser filters a block when it reads as a gradient and its average
/// neighbor difference also exceeds the action threshold of 15 levels.
pub open spec fn spec_block_filtered(img: Image, x0: int, x1: int, y0: int, y1: int) -> bool {
    let b = dn_block(img, x0, y0, x1, y1, y0);
    dn_is_gradient(b.0, b.1, b.2) && b.2 > 180 * b.1
}

/// Compute a block's edge count, considered-pixel count and noise sum.
/// The block spans columns `x0 .. x1` and rows `y0 .. y1` of the image.
pub fn analyze_block(img: &Image, x0: u32, y0: u32, x1: u32, y1: u32) -> (r: (u64, u64, u64))
    requires
        img.wf(),
        x0 <= x1 <= img.width,
        y0 <= y1 <= img.height,
        x1 as int - x0 as int <= 8,
        y1 as int - y0 as int <= 8,
    ensures
        (r.0 as int, r.1 as int, r.2 as int) == dn_block(
            *img,
            x0 as int,
            y0 as int,
            x1 as int,
            y1 as int,
            y0 as int,
        ),
        r.0 <= 64,
        r.1 <= 64,
        r.2 <= 64 * 3060,
{
    let mut ec: u64 = 0;
    let mut tc: u64 = 0;
    let mut s: u64 = 0;
    let mut y: u32 = y1;
    // Accumulate rows from the bottom up, matching the tail recursion of
    // the block statistics.
    while y > y0
        invariant
            img.wf(),
            x0 <= x1 <= img.width,
            y0 <= y <= y1 <= img.height,
            x1 as int - x0 as int <= 8,
            y1 as int - y0 as int <= 8,
            (ec as int, tc as int, s as int) == dn_block(
                *img,
                x0 as int,
                y0 as int,
                x1 as int,
                y1 as int,
                y as int,
            ),
            ec <= (y1 as int - y as int) * 8,
            tc <= (y1 as int - y as int) * 8,
            s <= (y1 as int - y as int) * 8 * 3060,
        decreases y - y0,
    {
        y = y - 1;
        let mut x: u32 = x1;
        let ghost ec0 = ec;
        let ghost tc0 = tc;
        let ghost s0 = s;
        while x > x0
            invariant
                img.wf(),
                x0 <= x <= x1 <= img.width,
                y0 <= y < y1 <= img.height,
                x1 as int - x0 as int <= 8,
                y1 as int - y0 as int <= 8,
                ({
                    let row = dn_row(
                        *img,
                        y as int,
                        x as int,
                        x0 as int,
                        y0 as int,
                        x1 as int,
                        y1 as int,
                    );
                    &&& ec == ec0 + row.0
                    &&& tc == tc0 + row.1
                    &&& s == s0 + row.2
                }),
                (ec0 as int, tc0 as int, s0 as int) == dn_block(
                    *img,
                    x0 as int,
                    y0 as int,
                    x1 as int,
                    y1 as int,
                    y as int + 1,
                ),
                ec - ec0 <= x1 as int - x as int,
                tc - tc0 <= x1 as int - x as int,
                s - s0 <= (x1 as int - x as int) * 3060,
                ec0 <= (y1 as int - y as int - 1) * 8,
                tc0 <= (y1 as int - y as int - 1) * 8,
                s0 <= (y1 as int - y as int - 1) * 8 * 3060,
            decreases x - x0,
        {
            x = x - 1;
            if x > x0 && y > y0 && x + 1 < x1 && y + 1 < y1 {
                let dh: u32 = l1_sum(img, x, y, x + 1, y);
                let dv: u32 = l1_sum(img, x, y, x, y + 1);
                if dh > 90 || dv > 90 {
                    ec = ec + 1;
                }
                tc = tc + 1;
                let nl: u32 = l1_sum(img, x, y, x - 1, y);
                let nr: u32 = l1_sum(img, x, y, x + 1, y);
                let nu: u32 = l1_sum(img, x, y, x, y - 1);
                let nd: u32 = l1_sum(img, x, y, x, y + 1);
                s = s + (nl as u64) + (nr as u64) + (nu as u64) + (nd as u64);
            }
        }
        proof {
            assert((y1 as int - y as int) * 8 == (y1 as int - y as int - 1) * 8 + 8)
                by (nonlinear_arith);
            assert((y1 as int - y as int) * 8 * 3060 == (y1 as int - y as int - 1) * 8 * 3060 + 8
                * 3060) by (nonlinear_arith);
            assert((x1 as int - x as int) * 3060 <= 8 * 3060) by (nonlinear_arith)
                requires
                    0 <= x1 as int - x as int <= 8,
            ;
        }
    }
    (ec, tc, s)
}

/// The summed RGB difference between two pixels.
fn l1_sum(img: &Image, x1: u32, y1: u32, x2: u32, y2: u32) -> (d: u32)
    requires
        img.wf(),
        x1 < img.width,
        y1 < img.height,
        x2 < img.width,
        y2 < img.height,
    ensures
        d as int == l1_diff(*img, x1 as int, y1 as int, x2 as int, y2 as int),
        d <= 765,
{
    let mut d: u32 = 0;
    let p1r: u8 = img.get(x1, y1, 0);
    let p2r: u8 = img.get(x2, y2, 0);
    d = d + (if p2r >= p1r {
        (p2r - p1r) as u32
    } else {
        (p1r - p2r) as u32
    });
    let p1g: u8 = img.get(x1, y1, 1);
    let p2g: u8 = img.get(x2, y2, 1);
    d = d + (if p2g >= p1g {
        (p2g - p1g) as u32
    } else {
        (p1g - p2g) as u32
    });
    let p1b: u8 = img.get(x1, y1, 2);
    let p2b: u8 = img.get(x2, y2, 2);
    d = d + (if p2b >= p1b {
        (p2b - p1b) as u32
    } else {
        (p1b - p2b) as u32
    });
    d
}

/// The 3x3 neighborhood of sample `c` around `(x, y)`, in row-major order.
pub open spec fn neighborhood9(img: Image, x: int, y: int, c: int) -> Seq<u8> {
    seq![
        img.pix(x - 1, y - 1, c),
        img.pix(x, y - 1, c),
        img.pix(x + 1, y - 1, c),
        img.pix(x - 1, y, c),
        img.pix(x, y, c),
        img.pix(x + 1, y, c),
        img.pix(x - 1, y + 1, c),
        img.pix(x, y + 1, c),
        img.pix(x + 1, y + 1, c),
    ]
}

/// `v` is the median of the nine samples `s`: the middle element of a
/// sorted rearrangement.
pub open spec fn is_median9(v: u8, s: Seq<u8>) -> bool {
    exists|t: Seq<u8>|
        #![trigger t.to_multiset()]
        t.to_multiset() == s.to_multiset() && sorted_u8(t) && t.len() == 9 && v == t[4]
}

/// The channel-wise median of a pixel's 3x3 neighborhood.
fn median_of_neighborhood(img: &Image, x: u32, y: u32, c: u32) -> (m: u8)
    requires
        img.wf(),
        1 <= x,
        x + 1 < img.width,
        1 <= y,
        y + 1 < img.height,
        c < 3,
    ensures
        is_median9(m, neighborhood9(*img, x as int, y as int, c as int)),
{
    let mut vals: Vec<u8> = Vec::new();
    vals.push(img.get(x - 1, y - 1, c));
    vals.push(img.get(x, y - 1, c));
    vals.push(img.get(x + 1, y - 1, c));
    vals.push(img.get(x - 1, y, c));
    vals.push(img.get(x, y, c));
    vals.push(img.get(x + 1, y, c));
    vals.push(img.get(x - 1, y + 1, c));
    vals.push(img.get(x, y + 1, c));
    vals.push(img.get(x + 1, y + 1, c));
    proof {
        assert(vals@ =~= neighborhood9(*img, x as int, y as int, c as int));
    }
    sort_u8(&mut vals);
    let m: u8 = vals[4];
    proof {
        assert(is_median9(m, neighborhood9(*img, x as int, y as int, c as int))) by {
            assert(vals@.to_multiset() == neighborhood9(
                *img,
                x as int,
                y as int,
                c as int,
            ).to_multiset());
            broadcast use vstd::seq_lib::group_to_multiset_ensures;

            assert(vals@.to_multiset().len() == vals@.len());
        }
    }
    m
}

/// The extent of the block that holds coordinate `v`, for 8-wide blocks.
pub open spec fn block_end(v: int, limit: int) -> int {
    if 8 * (v / 8) + 8 <= limit {
        8 * (v / 8) + 8
    } else {
        limit
    }
}

/// What the denoiser promises of each sample of its result: inside a
/// filtered block's interior the color samples become the channel median of
/// their 3x3 neighborhood in the source; everything else is unchanged.
pub open spec fn dn_px_ok(img: Image, out: Image, x: int, y: int, c: int) -> bool {
    let x0 = 8 * (x / 8);
    let y0 = 8 * (y / 8);
    let x1 = block_end(x, img.width as int);
    let y1 = block_end(y, img.height as int);
    if spec_block_filtered(img, x0, x1, y0, y1) && dn_interior(x, y, x0, y0, x1, y1) && c < 3 {
        is_median9(out.pix(x, y, c), neighborhood9(img, x, y, c))
    } else {
        out.pix(x, y, c) == img.pix(x, y, c)
    }
}

/// The whole contract of the selective denoiser, pixel by pixel.
pub open spec fn dn_result_ok(img: Image, out: Image) -> bool {
    forall|x: int, y: int, c: int|
        0 <= x < img.width && 0 <= y < img.height && 0 <= c < 4 ==> #[trigger] dn_px_ok(
            img,
            out,
            x,
            y,
            c,
        )
}

/// Apply selective denoising to remove dithering artifacts in gradient
/// areas: the image is split into 8x8 blocks, and blocks that read as noisy
/// gradients have each pixel strictly inside the block replaced by the
/// channel-wise median of its 3x3 neighborhood in the source image. Edges
/// and the border pixels of every block are left untouched, so no filtered
/// pixel reads a neighbor outside its own block; alpha is never modified.
pub fn apply_selective_denoising(img: &Image) -> (out: Image)
    requires
        img.wf(),
    ensures
        out.wf(),
        out.same_dims(img),
        dn_result_ok(*img, out),
{
    let w: u32 = img.width;
    let h: u32 = img.height;
    let ghost wi = w as int;
    let ghost hi = h as int;
    let mut out = Image { width: w, height: h, data: img.data.clone() };
    proof {
        assert(out.data@ =~= img.data@);
    }
    let mut by: u64 = 0;
    while by < h as u64
        invariant
            img.wf(),
            w == img.width,
            h == img.height,
            wi == w as int,
            hi == h as int,
            by % 8 == 0,
            by < h as u64 + 8,
            out.wf(),
            out.width == w,
            out.height == h,
            forall|x: int, y: int, c: int|
                0 <= x < wi && 0 <= y < by && y < hi && 0 <= c < 4 ==> #[trigger] dn_px_ok(
                    *img,
                    out,
                    x,
                    y,
                    c,
                ),
            forall|x: int, y: int, c: int|
                0 <= x < wi && by <= y < hi && 0 <= c < 4 ==> #[trigger] out.pix(x, y, c)
                    == img.pix(x, y, c),
        decreases h + 8 - by,
    {
        let mut bx: u64 = 0;
        while bx < w as u64
            invariant
                img.wf(),
                w == img.width,
                h == img.height,
                wi == w as int,
                hi == h as int,
                by % 8 == 0,
                bx % 8 == 0,
                by < h,
                bx < w as u64 + 8,
                out.wf(),
                out.width == w,
                out.height == h,
                forall|x: int, y: int, c: int|
                    0 <= x < wi && 0 <= y < by && y < hi && 0 <= c < 4 ==> #[trigger] dn_px_ok(
                        *img,
                        out,
                        x,
                        y,
                        c,
                    ),
                forall|x: int, y: int, c: int|
                    0 <= x < bx && x < wi && by <= y < by + 8 && y < hi && 0 <= c < 4
                        ==> #[trigger] dn_px_ok(*img, out, x, y, c),
                forall|x: int, y: int, c: int|
                    bx <= x < wi && by <= y < by + 8 && y < hi && 0 <= c < 4
                        ==> #[trigger] out.pix(x, y, c) == img.pix(x, y, c),
                forall|x: int, y: int, c: int|
                    0 <= x < wi && by + 8 <= y < hi && 0 <= c < 4 ==> #[trigger] out.pix(x, y, c)
                        == img.pix(x, y, c),
            decreases w + 8 - bx,
        {
            let x1: u32 = if bx + 8 <= w as u64 {
                (bx + 8) as u32
            } else {
                w
            };
            let y1: u32 = if by + 8 <= h as u64 {
                (by + 8) as u32
            } else {
                h
            };
            let ghost out_before = out;
            let (ec, tc, s): (u64, u64, u64) = analyze_block(img, bx as u32, by as u32, x1, y1);
            let is_gradient: bool = 20 * ec < 3 * tc && s > 60 * tc;
            let filtered: bool = is_gradient && s > 180 * tc;
            if filtered {
                apply_median_filter_to_block(img, &mut out, bx as u32, by as u32, x1, y1);
            }
            proof {
                assert(filtered == spec_block_filtered(
                    *img,
                    bx as int,
                    x1 as int,
                    by as int,
                    y1 as int,
                ));
                // everything outside the block keeps its value
                assert forall|x: int, y: int, c: int|
                    0 <= x < wi && 0 <= y < hi && 0 <= c < 4 && !(bx <= x < x1 && by <= y < y1) implies #[trigger] out.pix(
                    x,
                    y,
                    c,
                ) == out_before.pix(x, y, c) by {}
                // earlier rows and earlier blocks of this row stay correct
                assert forall|x: int, y: int, c: int|
                    0 <= x < wi && 0 <= y < by && 0 <= c < 4 implies #[trigger] dn_px_ok(
                    *img,
                    out,
                    x,
                    y,
                    c,
                ) by {
                    assert(dn_px_ok(*img, out_before, x, y, c));
                    assert(out.pix(x, y, c) == out_before.pix(x, y, c));
                }
                assert forall|x: int, y: int, c: int|
                    0 <= x < bx && by <= y < by + 8 && y < hi && 0 <= c < 4 implies #[trigger] dn_px_ok(
                    *img,
                    out,
                    x,
                    y,
                    c,
                ) by {
                    assert(dn_px_ok(*img, out_before, x, y, c));
                    assert(out.pix(x, y, c) == out_before.pix(x, y, c));
                }
                // the block just handled is now correct
                assert forall|x: int, y: int, c: int|
                    bx <= x < bx + 8 && x < wi && by <= y < by + 8 && y < hi && 0 <= c
                        < 4 implies #[trigger] dn_px_ok(*img, out, x, y, c) by {
                    assert(8 * (x / 8) == bx as int) by (nonlinear_arith)
                        requires
                            bx as int % 8 == 0,
                            bx <= x < bx as int + 8,
                    ;
                    assert(8 * (y / 8) == by as int) by (nonlinear_arith)
                        requires
                            by as int % 8 == 0,
                            by <= y < by as int + 8,
                    ;
                    assert(block_end(x, wi) == x1 as int);
                    assert(block_end(y, hi) == y1 as int);
                    if !filtered {
                        assert(out.pix(x, y, c) == img.pix(x, y, c));
                    }
                }
                // later blocks of this row and later rows are still pristine
                assert forall|x: int, y: int, c: int|
                    bx + 8 <= x < wi && by <= y < by + 8 && y < hi && 0 <= c < 4 implies #[trigger] out.pix(
                    x,
                    y,
                    c,
                ) == img.pix(x, y, c) by {
                    assert(out.pix(x, y, c) == out_before.pix(x, y, c));
                }
                assert forall|x: int, y: int, c: int|
                    0 <= x < wi && by + 8 <= y < hi && 0 <= c < 4 implies #[trigger] out.pix(
                    x,
                    y,
                    c,
                ) == img.pix(x, y, c) by {
                    assert(out.pix(x, y, c) == out_before.pix(x, y, c));
                }
            }
            bx = bx + 8;
        }
        proof {
            assert forall|x: int, y: int, c: int|
                0 <= x < wi && 0 <= y < by + 8 && y < hi && 0 <= c < 4 implies #[trigger] dn_px_ok(
                *img,
                out,
                x,
                y,
                c,
            ) by {}
        }
        by = by + 8;
    }
    out
}

/// Replace each pixel strictly inside the block with the channel-wise
/// median of its 3x3 neighborhood in the source; alpha and the block's own
/// border pixels stay.
fn apply_median_filter_to_block(img: &Image, out: &mut Image, x0: u32, y0: u32, x1: u32, y1: u32)
    requires
        img.wf(),
        old(out).wf(),
        old(out).width == img.width,
        old(out).height == img.height,
        x0 <= x1 <= img.width,
        y0 <= y1 <= img.height,
        forall|x: int, y: int, c: int|
            x0 <= x < x1 && y0 <= y < y1 && 0 <= c < 4 ==> #[trigger] old(out).pix(x, y, c)
                == img.pix(x, y, c),
    ensures
        final(out).wf(),
        final(out).width == img.width,
        final(out).height == img.height,
        forall|x: int, y: int, c: int|
            0 <= x < img.width && 0 <= y < img.height && 0 <= c < 4 && !(x0 <= x < x1 && y0 <= y
                < y1) ==> #[trigger] final(out).pix(x, y, c) == old(out).pix(x, y, c),
        forall|x: int, y: int, c: int|
            x0 <= x < x1 && y0 <= y < y1 && 0 <= c < 4 ==> #[trigger] final(out).pix(x, y, c)
                == (if dn_interior(x, y, x0 as int, y0 as int, x1 as int, y1 as int) && c < 3 {
                final(out).pix(x, y, c)
            } else {
                img.pix(x, y, c)
            }),
        forall|x: int, y: int, c: int|
            x0 <= x < x1 && y0 <= y < y1 && 0 <= c < 3 && dn_interior(x, y, x0 as int, y0 as int, x1 as int, y1 as int)
                ==> is_median9(#[trigger] final(out).pix(x, y, c), neighborhood9(*img, x, y, c)),
{
    let ghost wi = img.width as int;
    let ghost hi = img.height as int;
    let mut y: u32 = y0;
    while y < y1
        invariant
            img.wf(),
            out.wf(),
            out.width == img.width,
            out.height == img.height,
            x0 <= x1 <= img.width,
            y0 <= y <= y1 <= img.height,
            wi == img.width as int,
            hi == img.height as int,
            forall|x: int, yp: int, c: int|
                x0 <= x < x1 && y0 <= yp < y1 && 0 <= c < 4 ==> #[trigger] old(out).pix(x, yp, c)
                    == img.pix(x, yp, c),
            forall|x: int, yp: int, c: int|
                0 <= x < wi && 0 <= yp < hi && 0 <= c < 4 && !(x0 <= x < x1 && y0 <= yp < y)
                    ==> #[trigger] out.pix(x, yp, c) == old(out).pix(x, yp, c),
            forall|x: int, yp: int, c: int|
                x0 <= x < x1 && y0 <= yp < y && 0 <= c < 4 && !(dn_interior(x, yp, x0 as int, y0 as int, x1 as int, y1 as int) && c < 3) ==> #[trigger] out.pix(x, yp, c) == img.pix(x, yp, c),
            forall|x: int, yp: int, c: int|
                x0 <= x < x1 && y0 <= yp < y && 0 <= c < 3 && dn_interior(
                    x,
                    yp,
                    x0 as int,
                    y0 as int,
                    x1 as int,
                    y1 as int,
                ) ==> is_median9(#[trigger] out.pix(x, yp, c), neighborhood9(*img, x, yp, c)),
        decreases y1 - y,
    {
        let mut x: u32 = x0;
        while x < x1
            invariant
                img.wf(),
                out.wf(),
                out.width == img.width,
                out.height == img.height,
                x0 <= x <= x1 <= img.width,
                y0 <= y < y1 <= img.height,
                wi == img.width as int,
                hi == img.height as int,
                forall|xp: int, yp: int, c: int|
                    x0 <= xp < x1 && y0 <= yp < y1 && 0 <= c < 4 ==> #[trigger] old(out).pix(
                        xp,
                        yp,
                        c,
                    ) == img.pix(xp, yp, c),
                forall|xp: int, yp: int, c: int|
                    0 <= xp < wi && 0 <= yp < hi && 0 <= c < 4 && !(x0 <= xp < x1 && y0 <= yp < y)
                        && !(x0 <= xp < x && yp == y) ==> #[trigger] out.pix(xp, yp, c) == old(
                        out,
                    ).pix(xp, yp, c),
                forall|xp: int, yp: int, c: int|
                    x0 <= xp < x1 && y0 <= yp < y && 0 <= c < 4 && !(dn_interior(
                        xp,
                        yp,
                        x0 as int,
                        y0 as int,
                        x1 as int,
                        y1 as int,
                    ) && c < 3) ==> #[trigger] out.pix(xp, yp, c) == img.pix(xp, yp, c),
                forall|xp: int, yp: int, c: int|
                    x0 <= xp < x1 && y0 <= yp < y && 0 <= c < 3 && dn_interior(
                        xp,
                        yp,
                        x0 as int,
                        y0 as int,
                        x1 as int,
                        y1 as int,
                    ) ==> is_median9(#[trigger] out.pix(xp, yp, c), neighborhood9(*img, xp, yp, c)),
                forall|xp: int, c: int|
                    x0 <= xp < x && 0 <= c < 4 && !(dn_interior(
                        xp,
                        y as int,
                        x0 as int,
                        y0 as int,
                        x1 as int,
                        y1 as int,
                    ) && c < 3) ==> #[trigger] out.pix(xp, y as int, c) == img.pix(
                        xp,
                        y as int,
                        c,
                    ),
                forall|xp: int, c: int|
                    x0 <= xp < x && 0 <= c < 3 && dn_interior(
                        xp,
                        y as int,
                        x0 as int,
                        y0 as int,
                        x1 as int,
                        y1 as int,
                    ) ==> is_median9(
                        #[trigger] out.pix(xp, y as int, c),
                        neighborhood9(*img, xp, y as int, c),
                    ),
            decreases x1 - x,
        {
            if x > x0 && y > y0 && x + 1 < x1 && y + 1 < y1 {
                let mr: u8 = median_of_neighborhood(img, x, y, 0);
                let mg: u8 = median_of_neighborhood(img, x, y, 1);
                let mb: u8 = median_of_neighborhood(img, x, y, 2);
                let ghost out0 = *out;
                let ghost i0 = pix_idx(wi, x as int, y as int, 0);
                let ghost i1 = pix_idx(wi, x as int, y as int, 1);
                let ghost i2 = pix_idx(wi, x as int, y as int, 2);
                out.set(x, y, 0, mr);
                out.set(x, y, 1, mg);
                out.set(x, y, 2, mb);
                proof {
                    assert(out.data@ == out0.data@.update(i0, mr).update(i1, mg).update(i2, mb));
                    assert(i0 + 1 == i1 && i1 + 1 == i2);
                    lemma_pix_idx_bounds(wi, hi, x as int, y as int, 0);
                    assert(out.pix(x as int, y as int, 0) == mr);
                    assert(out.pix(x as int, y as int, 1) == mg);
                    assert(out.pix(x as int, y as int, 2) == mb);
                    assert forall|xp: int, yp: int, c: int|
                        0 <= xp < wi && 0 <= yp < hi && 0 <= c < 4 && !(xp == x && yp == y && c < 3) implies #[trigger] out.pix(
                        xp,
                        yp,
                        c,
                    ) == out0.pix(xp, yp, c) by {
                        lemma_pix_idx_bounds(wi, hi, xp, yp, c);
                        crate::raster::lemma_pix_idx_injective(wi, hi, xp, yp, c, x as int, y as int, 0);
                        crate::raster::lemma_pix_idx_injective(wi, hi, xp, yp, c, x as int, y as int, 1);
                        crate::raster::lemma_pix_idx_injective(wi, hi, xp, yp, c, x as int, y as int, 2);
                    }
                }
            }
            x = x + 1;
        }
        y = y + 1;
    }
}

/// `dk` is the image after pre-quantization darkening, sample by sample.
pub open spec fn is_darkened(img: Image, dk: Image) -> bool {
    &&& dk.width == img.width
    &&& dk.height == img.height
    &&& dk.data@.len() == img.data@.len()
    &&& forall|i: int|
        0 <= i < img.data@.len() ==> dk.data@[i] as int == spec_darken_byte(
            i,
            img.data@[i] as int,
        )
}

/// What the selected engine promises of its output `mid` for the darkened
/// source `src`: each engine's full pixel-level contract.
pub open spec fn spec_engine_ok(src: Image, factor: int, mode: DitheringMode, mid: Image) -> bool {
    &&& mid.wf()
    &&& mid.same_dims(&src)
    &&& match mode {
        DitheringMode::Flat => {
            &&& forall|x: int, y: int, c: int|
                0 <= x < src.width && 0 <= y < src.height && 0 <= c < 3 ==> mid.pix(x, y, c) as int
                    == spec_quantize(src.pix(x, y, c) as int, factor)
            &&& forall|x: int, y: int|
                0 <= x < src.width && 0 <= y < src.height ==> mid.pix(x, y, 3) == src.pix(x, y, 3)
        },
        DitheringMode::Ordered => {
            &&& forall|x: int, y: int, c: int|
                0 <= x < src.width && 0 <= y < src.height && 0 <= c < 3 ==> mid.pix(x, y, c) as int
                    == spec_ordered_px(src.pix(x, y, c) as int, x, y, factor)
            &&& forall|x: int, y: int|
                0 <= x < src.width && 0 <= y < src.height ==> mid.pix(x, y, 3) == src.pix(x, y, 3)
        },
        DitheringMode::FloydSteinberg => {
            &&& forall|x: int, y: int, c: int|
                0 <= x < src.width && 0 <= y < src.height && 0 <= c < 3 ==> fs_done(
                    mid.pix(x, y, c) as int,
                    src.pix(x, y, c) as int,
                    factor,
                )
            &&& forall|x: int, y: int|
                0 <= x < src.width && 0 <= y < src.height ==> mid.pix(x, y, 3) == src.pix(x, y, 3)
        },
        DitheringMode::MedianCut => exists|pal: Seq<Color>|
            #![trigger spec_median_mapped(src, mid, pal)]
            1 <= pal.len() <= 256 && crate::median::spec_palette_ok(src, 256, pal)
                && spec_median_mapped(src, mid, pal),
        DitheringMode::Auto => false,
    }
}

/// The whole pixel-stage contract: the darkened source ran through the
/// engine that `mode` names, then optionally through the denoiser.
pub open spec fn spec_quantized_ok(
    img: Image,
    quality: int,
    mode: DitheringMode,
    denoise: bool,
    out: Image,
) -> bool {
    exists|dk: Image, mid: Image|
        #![trigger spec_engine_ok(dk, spec_downsampling_factor(quality), mode, mid)]
        is_darkened(img, dk) && spec_engine_ok(dk, spec_downsampling_factor(quality), mode, mid)
            && if denoise {
            out.same_dims(&mid) && dn_result_ok(mid, out)
        } else {
            out == mid
        }
}

/// Apply color quantization with the selected dithering mode: the image is
/// darkened, transformed by the selected engine with the step the quality
/// level selects (median cut builds a palette of up to 256 colors), and
/// optionally denoised. The unresolved automatic mode is refused, never
/// silently defaulted.
pub fn apply_quantization(img: &Image, quality: u8, mode: DitheringMode, denoise: bool) -> (r:
    Result<Image, MinifyError>)
    requires
        img.wf(),
    ensures
        mode == DitheringMode::Auto <==> r is Err,
        match r {
            Result::Ok(out) => {
                &&& out.wf()
                &&& out.same_dims(img)
                &&& spec_quantized_ok(*img, quality as int, mode, denoise, out)
            },
            Result::Err(e) => e == MinifyError::UnresolvedAuto,
        },
{
    if mode == DitheringMode::Auto {
        return Result::Err(MinifyError::UnresolvedAuto);
    }
    let mut work = Image { width: img.width, height: img.height, data: img.data.clone() };
    proof {
        assert(work.data@ =~= img.data@);
    }
    apply_darkening(&mut work);
    proof {
        assert(is_darkened(*img, work));
    }
    let factor: u8 = downsampling_factor(quality);
    let mid: Image = if mode == DitheringMode::Flat {
        apply_no_dithering(&work, factor)
    } else if mode == DitheringMode::Ordered {
        apply_ordered_dithering(&work, factor)
    } else if mode == DitheringMode::FloydSteinberg {
        apply_floyd_steinberg_dithering(&work, factor)
    } else {
        quantize_image_with_median(&work, 256)
    };
    proof {
        assert(spec_engine_ok(work, spec_downsampling_factor(quality as int), mode, mid));
    }
    if denoise {
        let out = apply_selective_denoising(&mid);
        Result::Ok(out)
    } else {
        Result::Ok(mid)
    }
}

/// The channel quantizer lands on a multiple of the step, except where the
/// upper clamp cuts the last step short, and always stays a byte.
pub proof fn lemma_quantize_range_and_step(v: int, factor: int)
    requires
        1 <= factor,
    ensures
        0 <= spec_quantize(v, factor) <= 255,
        spec_quantize(v, factor) % factor == 0 || spec_quantize(v, factor) == 255,
{
    let c = spec_clamp_255(v);
    let a = c + factor / 2;
    let q0 = (a / factor) * factor;
    assert(0 <= a / factor) by (nonlinear_arith)
        requires
            0 < factor,
            0 <= a,
    ;
    assert(0 <= (a / factor) * factor) by (nonlinear_arith)
        requires
            0 <= a / factor,
            0 < factor,
    ;
    if q0 <= 255 {
        vstd::arithmetic::div_mod::lemma_mod_multiples_basic(a / factor, factor);
        assert(q0 % factor == 0);
    }
}

/// The median filter is a fixed point on locally uniform regions: a pixel
/// whose full 3x3 neighborhood holds one color is unchanged by the
/// denoiser, whether or not its block was filtered. Running the denoiser
/// again over an already uniform region therefore changes nothing.
pub proof fn lemma_denoise_fixed_on_flat(img: Image, out: Image, x: int, y: int)
    requires
        img.wf(),
        dn_result_ok(img, out),
        1 <= x,
        x + 1 < img.width,
        1 <= y,
        y + 1 < img.height,
        forall|c: int, i: int|
            0 <= c < 3 && 0 <= i < 9 ==> neighborhood9(img, x, y, c)[i] == img.pix(x, y, c),
    ensures
        forall|c: int| 0 <= c < 4 ==> out.pix(x, y, c) == img.pix(x, y, c),
{
    assert forall|c: int| 0 <= c < 4 implies out.pix(x, y, c) == img.pix(x, y, c) by {
        assert(dn_px_ok(img, out, x, y, c));
        let x0 = 8 * (x / 8);
        let y0 = 8 * (y / 8);
        let x1 = block_end(x, img.width as int);
        let y1 = block_end(y, img.height as int);
        if spec_block_filtered(img, x0, x1, y0, y1) && dn_interior(x, y, x0, y0, x1, y1) && c < 3 {
            let s = neighborhood9(img, x, y, c);
            assert(is_median9(out.pix(x, y, c), s));
            let t = choose|t: Seq<u8>|
                #![trigger t.to_multiset()]
                t.to_multiset() == s.to_multiset() && sorted_u8(t) && t.len() == 9 && out.pix(
                    x,
                    y,
                    c,
                ) == t[4];
            broadcast use vstd::seq_lib::group_to_multiset_ensures;

            assert(t.to_multiset().contains(t[4]));
            assert(s.to_multiset().contains(t[4]));
            assert(s.contains(t[4]));
            let i = choose|i: int| 0 <= i < s.len() && s[i] == t[4];
            assert(s[i] == img.pix(x, y, c));
        }
    }
}

/// What PNG decoding yields for given bytes: the dimensions and RGBA
/// samples, or nothing when the bytes are not a decodable image. Decoding
/// depends on the bytes alone.
pub uninterp spec fn png_decoded(bytes: Seq<u8>) -> Option<(nat, nat, Seq<u8>)>;

/// The PNG encoding of an RGBA sample buffer; a function of the dimensions
/// and samples alone.
pub uninterp spec fn png_encoded(width: nat, height: nat, data: Seq<u8>) -> Seq<u8>;

/// Relies on image::load_from_memory and DynamicImage::to_rgba8: decoding
/// is deterministic in the bytes, and the returned RGBA buffer holds
/// exactly four bytes per pixel of the reported dimensions.
#[verifier::external_body]
fn decode_image_bytes(bytes: &Vec<u8>) -> (r: Result<Image, MinifyError>)
    ensures
        match r {
            Result::Ok(img) => img.wf() && png_decoded(bytes@) == Option::Some(
                (img.width as nat, img.height as nat, img.data@),
            ),
            Result::Err(e) => e == MinifyError::Decode && png_decoded(bytes@) is None,
        },
{
    match image::load_from_memory(bytes) {
        Ok(decoded) => {
            let rgba = decoded.to_rgba8();
            let (w, h) = (rgba.width(), rgba.height());
            Ok(Image { width: w, height: h, data: rgba.into_raw() })
        },
        Err(_) => Err(MinifyError::Decode),
    }
}

/// Relies on RgbaImage::from_raw and DynamicImage::write_to: encoding an
/// RGBA buffer to PNG bytes is deterministic in the dimensions and samples.
#[verifier::external_body]
fn encode_image_png(img: &Image) -> (r: Result<Vec<u8>, MinifyError>)
    requires
        img.wf(),
    ensures
        match r {
            Result::Ok(b) => b@ == png_encoded(img.width as nat, img.height as nat, img.data@),
            Result::Err(e) => e == MinifyError::Encode,
        },
{
    let rgba = match image::RgbaImage::from_raw(img.width, img.height, img.data.clone()) {
        Some(b) => b,
        None => {
            return Err(MinifyError::Encode);
        },
    };
    let mut out: Vec<u8> = Vec::new();
    let mut cursor = std::io::Cursor::new(&mut out);
    match image::DynamicImage::ImageRgba8(rgba).write_to(&mut cursor, image::ImageFormat::Png) {
        Ok(()) => Ok(out),
        Err(_) => Err(MinifyError::Encode),
    }
}

/// The lossless optimizer can produce `output` from `input`. The optimizer
/// is free to pick among equivalent encodings, so only this relation ties
/// its result to the bytes it was handed, never a function of them.
pub uninterp spec fn png_optimized_from(input: Seq<u8>, output: Seq<u8>) -> bool;

/// Relies on oxipng::optimize_from_memory with fixed aggressive settings
/// (safe chunk stripping, alpha optimization, all reductions, the Zopfli
/// deflater): whatever bytes come back were produced from exactly the
/// bytes handed in.
#[verifier::external_body]
fn optimize_png_bytes(bytes: &Vec<u8>) -> (r: Result<Vec<u8>, MinifyError>)
    ensures
        match r {
            Result::Ok(out) => png_optimized_from(bytes@, out@),
            Result::Err(e) => e == MinifyError::Optimize,
        },
{
    let mut options = oxipng::Options::default();
    options.strip = oxipng::StripChunks::Safe;
    options.optimize_alpha = true;
    options.interlace = None;
    options.bit_depth_reduction = true;
    options.color_type_reduction = true;
    options.palette_reduction = true;
    options.deflater = oxipng::Deflater::Zopfli(Default::default());
    oxipng::optimize_from_memory(bytes, &options).map_err(|_| MinifyError::Optimize)
}

/// Applies lossless minification only: the bytes go through the lossless
/// optimizer with the aggressive settings and perfect image quality.
pub fn apply_quality_lossless_minification(png_data: &Vec<u8>) -> (r: Result<Vec<u8>, MinifyError>)
    ensures
        match r {
            Result::Ok(out) => png_optimized_from(png_data@, out@),
            Result::Err(e) => e == MinifyError::Optimize,
        },
{
    optimize_png_bytes(png_data)
}

/// The pixel stage of the lossy path: the mode is the requested one, or the
/// recommendation of the analyzer when automatic mode was requested, and
/// the output image went through darkening, that engine, and optionally
/// the denoiser.
pub open spec fn spec_lossy_stage_ok(
    img: Image,
    quality: int,
    mode: DitheringMode,
    denoise: bool,
    q: Image,
) -> bool {
    exists|resolved: DitheringMode|
        #![trigger spec_quantized_ok(img, quality, resolved, denoise, q)]
        {
            &&& (if mode == DitheringMode::Auto {
                exists|a: crate::dithering::ImageAnalysis|
                    #![trigger crate::dithering::spec_analysis_ok(img, a)]
                    crate::dithering::spec_analysis_ok(img, a) && resolved
                        == crate::dithering::spec_select_mode(a)
            } else {
                resolved == mode
            })
            &&& resolved != DitheringMode::Auto
            &&& spec_quantized_ok(img, quality, resolved, denoise, q)
        }
}

/// Applies lossy minification: decode the PNG, resolve the automatic mode
/// through the analyzer if needed, darken, quantize with the selected
/// engine, optionally denoise, encode back to PNG, and run the lossless
/// optimizer over the result. Bytes that do not decode are refused.
pub fn apply_quality_lossy_minification(
    png_data: &Vec<u8>,
    quality: u8,
    mode: DitheringMode,
    denoise: bool,
) -> (r: Result<Vec<u8>, MinifyError>)
    ensures
        r is Err ==> (r == Result::<Vec<u8>, MinifyError>::Err(MinifyError::Decode) <==> png_decoded(
            png_data@,
        ) is None),
        match r {
            Result::Ok(out) => exists|img: Image, q: Image|
                #![trigger spec_lossy_stage_ok(img, quality as int, mode, denoise, q)]
                {
                    &&& png_decoded(png_data@) == Option::Some(
                        (img.width as nat, img.height as nat, img.data@),
                    )
                    &&& img.wf()
                    &&& spec_lossy_stage_ok(img, quality as int, mode, denoise, q)
                    &&& png_optimized_from(
                        png_encoded(q.width as nat, q.height as nat, q.data@),
                        out@,
                    )
                },
            Result::Err(e) => e == MinifyError::Decode || e == MinifyError::Encode || e
                == MinifyError::Optimize,
        },
{
    let img: Image = match decode_image_bytes(png_data) {
        Result::Ok(img) => img,
        Result::Err(e) => {
            return Result::Err(e);
        },
    };
    let resolved: DitheringMode = if mode == DitheringMode::Auto {
        crate::dithering::recommend_dithering_mode(&img)
    } else {
        mode
    };
    let quantized: Image = match apply_quantization(&img, quality, resolved, denoise) {
        Result::Ok(q) => q,
        Result::Err(_) => {
            // the mode was resolved above, so quantization cannot refuse it
            proof {
                assert(false);
            }
            return Result::Err(MinifyError::Optimize);
        },
    };
    proof {
        assert(spec_lossy_stage_ok(*&img, quality as int, mode, denoise, quantized));
    }
    let encoded: Vec<u8> = match encode_image_png(&quantized) {
        Result::Ok(b) => b,
        Result::Err(e) => {
            return Result::Err(e);
        },
    };
    optimize_png_bytes(&encoded)
}

} // verus!
