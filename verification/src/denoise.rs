//! Denoising.
//!
//! A restoration model is run over an RGBA raster to strip JPEG compression
//! blocking and sensor/film noise *before* the tracer quantizes and segments it.
//! Compression artifacts otherwise show up as 8×8 block seams and mosquito
//! speckle, which the color quantizer turns into a haze of spurious tiny regions
//! and bloated paths; cleaning them first yields fewer, smoother shapes.
//!
//! The model preserves the image size. It is RGB-only, normalized by a plain
//! `/255`; the alpha channel is carried through untouched. It downsamples ×8 with
//! 8-px attention windows, so inputs are reflect-padded up to a multiple of 64
//! and cropped back. Running the model is left to the caller.

use vstd::prelude::*;
use vstd::slice::slice_to_vec;

use crate::grid::{lemma_coords, lemma_pixel_index};
use crate::number::{consistent, unit_byte, unit_byte_of, Number};
use crate::raster::{pixel_count, raster_error, RasterError};
use crate::superres::{fraction, fraction_of, lemma_plane_index};

verus! {

/// The model downsamples ×8 and uses 8-px attention windows, so each input
/// dimension is padded up to a multiple of this (8×8) to keep the skip
/// connections aligned. Padding is reflected and cropped off the result.
pub const PAD_MULTIPLE: usize = 64;

/// The model is heavy — CPU inference runs ≈13 µs/pixel, so cost is roughly linear
/// in pixels (≈3.4 s at 512×512, ≈8 s at 800×800). Cap input so an opt-in denoise
/// can't block a request for too long; larger inputs pass through unchanged
/// (denoising is most valuable on small/medium artifacted art, and the tracer
/// still handles big clean images fine).
pub const MAX_INPUT_PIXELS: usize = 640_000;

/// Why an image could not be denoised; `E` is what the model runner reports.
#[derive(Debug)]
pub enum DenoiseError<E> {
    /// The buffer is no image of the given size.
    Raster(RasterError),
    /// The model could not be run.
    Model(E),
    /// The model's output is no RGB image that covers the input; its shape.
    Shape(Vec<i64>),
    /// The model gave fewer numbers than its shape says; the shape.
    Truncated(Vec<i64>),
}

/// `p` is the least multiple of [`PAD_MULTIPLE`] that is not below `v`.
pub open spec fn is_padded(v: int, p: int) -> bool {
    p % (PAD_MULTIPLE as int) == 0 && v <= p < v + PAD_MULTIPLE
}

fn round_up(v: usize) -> (p: usize)
    requires
        v + (PAD_MULTIPLE - 1) <= usize::MAX,
    ensures
        is_padded(v as int, p as int),
{
    (v + 63) / 64 * 64
}

/// Round each dimension up to the next multiple of [`PAD_MULTIPLE`].
pub fn padded_dims(width: usize, height: usize) -> (r: (usize, usize))
    requires
        width + (PAD_MULTIPLE - 1) <= usize::MAX,
        height + (PAD_MULTIPLE - 1) <= usize::MAX,
    ensures
        is_padded(width as int, r.0 as int),
        is_padded(height as int, r.1 as int),
{
    (round_up(width), round_up(height))
}

/// Index `i` reflected back into `[0, n)`, the edges not repeated.
pub open spec fn reflected(i: int, n: int) -> int {
    if n <= 1 {
        0
    } else {
        let period = 2 * (n - 1);
        let m = i % period;
        if m < n {
            m
        } else {
            period - m
        }
    }
}

/// Reflect index `i` back into `[0, n)` using OpenCV/PyTorch reflect-101
/// semantics, valid for any `i` (handles pad larger than the image).
pub fn reflect(i: usize, n: usize) -> (r: usize)
    requires
        n <= usize::MAX / 2 + 1,
    ensures
        r == reflected(i as int, n as int),
        n > 0 ==> r < n,
{
    if n <= 1 {
        return 0;
    }
    let period: usize = 2 * (n - 1);
    let m: usize = i % period;
    if m < n {
        m
    } else {
        period - m
    }
}

/// Reflection leaves indices in range alone, mirrors at both edges without repeating them, and
/// always lands in range.
pub proof fn law_reflection_mirrors(i: int, n: int)
    requires
        n > 1,
        0 <= i,
    ensures
        0 <= reflected(i, n) < n,
        i < n ==> reflected(i, n) == i,
        i < n ==> reflected(n - 1 + i, n) == n - 1 - i,
        reflected(i + 2 * (n - 1), n) == reflected(i, n),
{
    let period = 2 * (n - 1);
    vstd::arithmetic::div_mod::lemma_mod_bound(i, period);
    vstd::arithmetic::div_mod::lemma_mod_add_multiples_vanish(i, period);
    assert(i + period == period + i);
    if i < n {
        if i == n - 1 && n == 2 {
            assert(i == 1 && period == 2);
        }
        if i < period {
            vstd::arithmetic::div_mod::lemma_small_mod(i as nat, period as nat);
        }
        if n - 1 + i < period {
            vstd::arithmetic::div_mod::lemma_small_mod((n - 1 + i) as nat, period as nat);
        } else {
            assert(i == n - 1);
            vstd::arithmetic::div_mod::lemma_mod_self_0(period);
        }
    }
}

/// The byte of channel `c` at `(px, py)` of the reflect-padded image.
pub open spec fn padded_byte(
    rgba: Seq<u8>,
    width: int,
    height: int,
    px: int,
    py: int,
    c: int,
) -> u8 {
    rgba[4 * (reflected(py, height) * width + reflected(px, width)) + c]
}

/// The model's input: the image reflect-padded to `pw` by `ph` pixels, one plane per channel.
pub open spec fn tensor_of<R: Number>(
    rgba: Seq<u8>,
    width: int,
    height: int,
    pw: int,
    ph: int,
) -> Seq<R> {
    let phw = pw * ph;
    Seq::new(
        (3 * phw) as nat,
        |k: int|
            fraction_of::<R>(
                padded_byte(rgba, width, height, (k % phw) % pw, (k % phw) / pw, k / phw),
            ),
    )
}

/// Build the model's NCHW tensor for a `pw×ph` reflect-padded copy of the
/// source RGB, normalized by a flat `/255`.
pub fn to_input_tensor<R: Number>(
    rgba: &[u8],
    width: usize,
    height: usize,
    pw: usize,
    ph: usize,
) -> (t: Vec<R>)
    requires
        consistent::<R>(),
        0 < width <= usize::MAX / 2,
        0 < height <= usize::MAX / 2,
        4 * (width * height) <= rgba@.len(),
        0 < pw,
        0 < ph,
        3 * (pw * ph) <= usize::MAX,
    ensures
        t@ == tensor_of::<R>(rgba@, width as int, height as int, pw as int, ph as int),
{
    let len: usize = rgba.len();
    let ghost phw = pw * ph;
    let ghost whole = tensor_of::<R>(rgba@, width as int, height as int, pw as int, ph as int);
    assert(0 < pw * ph) by (nonlinear_arith)
        requires
            0 < pw,
            0 < ph,
    ;
    let mut t: Vec<R> = Vec::new();
    let mut c: usize = 0;
    while c < 3
        invariant
            consistent::<R>(),
            len == rgba@.len(),
            0 < width <= usize::MAX / 2,
            0 < height <= usize::MAX / 2,
            4 * (width * height) <= len,
            0 < pw,
            0 < ph,
            phw == pw * ph,
            0 < phw,
            whole == tensor_of::<R>(rgba@, width as int, height as int, pw as int, ph as int),
            c <= 3,
            t@ == whole.take(c * phw),
        decreases 3 - c,
    {
        let mut py: usize = 0;
        while py < ph
            invariant
                consistent::<R>(),
                len == rgba@.len(),
                0 < width <= usize::MAX / 2,
                0 < height <= usize::MAX / 2,
                4 * (width * height) <= len,
                0 < pw,
                0 < ph,
                phw == pw * ph,
                0 < phw,
                whole == tensor_of::<R>(
                    rgba@,
                    width as int,
                    height as int,
                    pw as int,
                    ph as int,
                ),
                c < 3,
                py <= ph,
                t@ == whole.take(c * phw + py * pw),
            decreases ph - py,
        {
            let sy: usize = reflect(py, height);
            let mut px: usize = 0;
            while px < pw
                invariant
                    consistent::<R>(),
                    len == rgba@.len(),
                    0 < width <= usize::MAX / 2,
                    0 < height <= usize::MAX / 2,
                    4 * (width * height) <= len,
                    0 < pw,
                    phw == pw * ph,
                    0 < phw,
                    whole == tensor_of::<R>(
                        rgba@,
                        width as int,
                        height as int,
                        pw as int,
                        ph as int,
                    ),
                    c < 3,
                    py < ph,
                    sy == reflected(py as int, height as int),
                    sy < height,
                    px <= pw,
                    t@ == whole.take(c * phw + py * pw + px),
                decreases pw - px,
            {
                let sx: usize = reflect(px, width);
                proof {
                    lemma_pixel_index(width as int, height as int, sx as int, sy as int);
                    lemma_pixel_index(pw as int, ph as int, px as int, py as int);
                    lemma_plane_index(c as int, phw, py * pw + px);
                }
                let x: R = fraction(rgba[4 * (sy * width + sx) + c]);
                t.push(x);
                proof {
                    let k = c * phw + (py * pw + px);
                    assert(c * phw + py * pw + px == k);
                    assert(whole[k] == x);
                    assert(whole.take(k + 1) =~= whole.take(k).push(x));
                }
                px = px + 1;
            }
            assert((py + 1) * pw == py * pw + pw) by (nonlinear_arith);
            py = py + 1;
        }
        assert(c * phw + ph * pw == (c + 1) * phw) by (nonlinear_arith)
            requires
                phw == pw * ph,
        ;
        c = c + 1;
    }
    assert(whole.take(3 * phw) =~= whole);
    t
}

/// The bytes of the top-left `width` by `height` pixels of an RGB image of `pw` by `ph` pixels
/// that is given as three planes.
pub open spec fn cropped<R: Number>(
    data: Seq<R>,
    pw: int,
    ph: int,
    width: int,
    height: int,
) -> Seq<u8> {
    Seq::new(
        (3 * (width * height)) as nat,
        |k: int|
            unit_byte_of(
                data[(k % 3) * (pw * ph) + ((k / 3) / width * pw + (k / 3) % width)],
            ),
    )
}

/// Crop the top-left `width×height` region out of a padded CHW output plane
/// (`[0,1]` range) into interleaved RGB bytes.
pub fn crop_rgb_from_chw<R: Number>(
    data: &[R],
    pw: usize,
    ph: usize,
    width: usize,
    height: usize,
) -> (rgb: Vec<u8>)
    requires
        consistent::<R>(),
        0 < width <= pw,
        0 < height <= ph,
        3 * (pw * ph) <= data@.len(),
    ensures
        rgb@ == cropped(data@, pw as int, ph as int, width as int, height as int),
{
    let len: usize = data.len();
    let ghost whole = cropped(data@, pw as int, ph as int, width as int, height as int);
    let ghost n = width * height;
    proof {
        assert(0 < pw * ph) by (nonlinear_arith)
            requires
                0 < pw,
                0 < ph,
        ;
        assert(0 < n <= pw * ph) by (nonlinear_arith)
            requires
                n == width * height,
                0 < width <= pw,
                0 < height <= ph,
        ;
    }
    let phw: usize = pw * ph;
    let mut rgb: Vec<u8> = Vec::new();
    let mut y: usize = 0;
    while y < height
        invariant
            consistent::<R>(),
            len == data@.len(),
            0 < width <= pw,
            0 < height <= ph,
            phw == pw * ph,
            3 * phw <= len,
            n == width * height,
            whole == cropped(data@, pw as int, ph as int, width as int, height as int),
            y <= height,
            rgb@ == whole.take(3 * (y * width)),
        decreases height - y,
    {
        let mut x: usize = 0;
        while x < width
            invariant
                consistent::<R>(),
                len == data@.len(),
                0 < width <= pw,
                0 < height <= ph,
                phw == pw * ph,
                3 * phw <= len,
                n == width * height,
                whole == cropped(data@, pw as int, ph as int, width as int, height as int),
                y < height,
                x <= width,
                rgb@ == whole.take(3 * (y * width + x)),
            decreases width - x,
        {
            proof {
                lemma_pixel_index(pw as int, ph as int, x as int, y as int);
                lemma_pixel_index(width as int, height as int, x as int, y as int);
            }
            let src: usize = y * pw + x;
            let r: u8 = unit_byte(data[src]);
            let g: u8 = unit_byte(data[phw + src]);
            let b: u8 = unit_byte(data[2 * phw + src]);
            rgb.push(r);
            rgb.push(g);
            rgb.push(b);
            proof {
                let q = y * width + x;
                let k = 3 * q;
                assert(k / 3 == q && k % 3 == 0 && (k + 1) / 3 == q && (k + 1) % 3 == 1 && (k + 2)
                    / 3 == q && (k + 2) % 3 == 2);
                assert(0 * (pw * ph) == 0 && 1 * (pw * ph) == phw);
                assert(whole[k] == r && whole[k + 1] == g && whole[k + 2] == b);
                assert(whole.take(k + 3) =~= whole.take(k).push(r).push(g).push(b));
            }
            x = x + 1;
        }
        assert((y + 1) * width == y * width + width) by (nonlinear_arith);
        y = y + 1;
    }
    proof {
        assert(height * width == n) by (nonlinear_arith)
            requires
                n == width * height,
        ;
        assert(whole.take(3 * n) =~= whole);
    }
    rgb
}

/// The image with the colours of its first `n` pixels replaced.
pub open spec fn recolored(rgba: Seq<u8>, rgb: Seq<u8>, n: int) -> Seq<u8> {
    Seq::new(
        rgba.len(),
        |k: int|
            if k % 4 < 3 && k / 4 < n {
                rgb[3 * (k / 4) + k % 4]
            } else {
                rgba[k]
            },
    )
}

/// A copy of the image (which keeps alpha) with its colours replaced.
pub fn replace_colors(rgba: &[u8], rgb: &[u8], n: usize) -> (out: Vec<u8>)
    requires
        rgb@.len() == 3 * n,
        4 * n <= rgba@.len(),
    ensures
        out@ == recolored(rgba@, rgb@, n as int),
{
    let len: usize = rgba.len();
    let mut out: Vec<u8> = slice_to_vec(rgba);
    let mut p: usize = 0;
    assert(out@ =~= recolored(rgba@, rgb@, 0));
    while p < n
        invariant
            len == rgba@.len(),
            rgb@.len() == 3 * n,
            4 * n <= len,
            p <= n,
            out@ == recolored(rgba@, rgb@, p as int),
        decreases n - p,
    {
        let ghost before = out@;
        out.set(4 * p, rgb[3 * p]);
        out.set(4 * p + 1, rgb[3 * p + 1]);
        out.set(4 * p + 2, rgb[3 * p + 2]);
        proof {
            let now = recolored(rgba@, rgb@, p + 1);
            assert forall|k: int| 0 <= k < len implies #[trigger] out@[k] == now[k] by {
                if 4 * p <= k < 4 * p + 3 {
                    assert(k / 4 == p && k % 4 == k - 4 * p);
                } else {
                    assert(out@[k] == before[k]);
                    if k % 4 < 3 {
                        assert(k / 4 != p);
                    }
                }
            }
            assert(out@ =~= now);
        }
        p = p + 1;
    }
    out
}

/// What can be wrong with the model's output.
#[derive(Debug, Clone, Copy, PartialEq, Eq, Structural)]
pub enum Fault {
    Shape,
    Truncated,
}

/// What is wrong with an output of shape `dims` and `len` numbers, if anything: it must be
/// `[_, 3, oh, ow]`, cover an image of `w` by `h` pixels, and hold `oh * ow` pixels. A negative
/// dimension counts as one that nothing can fill.
pub open spec fn output_fault(dims: Seq<i64>, len: int, w: int, h: int) -> Option<Fault> {
    if dims.len() != 4 || dims[1] != 3 || 0 <= dims[2] < h || 0 <= dims[3] < w {
        Some(Fault::Shape)
    } else if dims[2] < 0 || dims[3] < 0 || len < 3 * (dims[2] * dims[3]) {
        Some(Fault::Truncated)
    } else {
        None
    }
}

/// The size `(ow, oh)` of the image in an output of shape `dims` and `len` numbers.
pub fn output_size(dims: &[i64], len: usize, w: usize, h: usize) -> (r: Result<
    (usize, usize),
    Fault,
>)
    requires
        1 <= w,
        1 <= h,
    ensures
        match r {
            Ok((ow, oh)) => output_fault(dims@, len as int, w as int, h as int) is None && oh
                == dims@[2] && ow == dims@[3],
            Err(f) => output_fault(dims@, len as int, w as int, h as int) == Some(f),
        },
{
    if dims.len() != 4 || dims[1] != 3 {
        return Err(Fault::Shape);
    }
    let (dh, dw): (i64, i64) = (dims[2], dims[3]);
    if (dh >= 0 && (dh as u128) < h as u128) || (dw >= 0 && (dw as u128) < w as u128) {
        return Err(Fault::Shape);
    }
    if dh < 0 || dw < 0 {
        return Err(Fault::Truncated);
    }
    proof {
        assert(0 < dh * dw <= 0x4000_0000_0000_0000_0000_0000_0000_0000) by (nonlinear_arith)
            requires
                0 < dh <= 0x7fff_ffff_ffff_ffff,
                0 < dw <= 0x7fff_ffff_ffff_ffff,
        ;
        assert(dh * dw == (dh as u128) * (dw as u128));
        assert(dh <= dh * dw && dw <= dh * dw) by (nonlinear_arith)
            requires
                0 < dh,
                0 < dw,
        ;
    }
    let pixels: u128 = dh as u128 * dw as u128;
    if pixels > len as u128 / 3 {
        return Err(Fault::Truncated);
    }
    Ok((dw as usize, dh as usize))
}

/// What the model runner is handed and what comes of its reply: the image is padded to `pw` by
/// `ph` pixels, `input` is the tensor made of it, and `reply` what the runner returned.
pub open spec fn is_restoration<
    R: Number,
    E,
    F: FnOnce(Vec<R>, usize, usize) -> Result<(Vec<i64>, Vec<R>), E>,
>(
    rgba: Seq<u8>,
    width: int,
    height: int,
    infer: F,
    pw: usize,
    ph: usize,
    input: Vec<R>,
    reply: Result<(Vec<i64>, Vec<R>), E>,
    out: Result<Vec<u8>, DenoiseError<E>>,
) -> bool {
    &&& is_padded(width, pw as int)
    &&& is_padded(height, ph as int)
    &&& input@ == tensor_of::<R>(rgba, width, height, pw as int, ph as int)
    &&& call_ensures(infer, (input, pw, ph), reply)
    &&& match reply {
        Err(e) => out == Err::<Vec<u8>, DenoiseError<E>>(DenoiseError::Model(e)),
        Ok((shape, data)) => match output_fault(shape@, data@.len() as int, width, height) {
            Some(Fault::Shape) => out == Err::<Vec<u8>, DenoiseError<E>>(
                DenoiseError::Shape(shape),
            ),
            Some(Fault::Truncated) => out == Err::<Vec<u8>, DenoiseError<E>>(
                DenoiseError::Truncated(shape),
            ),
            None => out matches Ok(o) && o@ == recolored(
                rgba,
                cropped(data@, shape@[3] as int, shape@[2] as int, width, height),
                width * height,
            ),
        },
    }
}

/// Denoise / de-block an RGBA buffer, returning a same-sized RGBA buffer with the
/// RGB channels cleaned and the alpha channel preserved. Inputs above
/// [`MAX_INPUT_PIXELS`] are returned unchanged (a copy).
///
/// `infer` runs the model: it takes the `[1, 3, ph, pw]` input tensor with `pw`
/// and `ph`, and returns the shape and the numbers of the first output.
pub fn denoise<
    R: Number,
    E,
    F: FnOnce(Vec<R>, usize, usize) -> Result<(Vec<i64>, Vec<R>), E>,
>(rgba: &[u8], width: usize, height: usize, infer: F) -> (out: Result<Vec<u8>, DenoiseError<E>>)
    requires
        consistent::<R>(),
        forall|input: Vec<R>, pw: usize, ph: usize| #[trigger]
            call_requires(infer, (input, pw, ph)),
    ensures
        match raster_error(rgba@.len() as int, width as int, height as int) {
            Some(e) => out == Err::<Vec<u8>, DenoiseError<E>>(DenoiseError::Raster(e)),
            None => if width * height > MAX_INPUT_PIXELS {
                out matches Ok(o) && o@ == rgba@
            } else {
                exists|pw: usize, ph: usize, input: Vec<R>, reply: Result<(Vec<i64>, Vec<R>), E>|
                 #[trigger]
                    is_restoration(
                        rgba@,
                        width as int,
                        height as int,
                        infer,
                        pw,
                        ph,
                        input,
                        reply,
                        out,
                    )
            },
        },
{
    let n: usize = match pixel_count(rgba.len(), width, height) {
        Ok(n) => n,
        Err(e) => return Err(DenoiseError::Raster(e)),
    };
    // Too large to denoise affordably — hand the original straight back.
    if n > MAX_INPUT_PIXELS {
        return Ok(slice_to_vec(rgba));
    }
    assert(1 <= width <= 640_000 && 1 <= height <= 640_000) by (nonlinear_arith)
        requires
            0 <= width,
            0 <= height,
            0 < width * height <= 640_000,
    ;
    let (pw, ph): (usize, usize) = padded_dims(width, height);
    assert(3 * (pw * ph) <= usize::MAX) by {
        assert(pw * ph <= (width + 63) * (height + 63)) by (nonlinear_arith)
            requires
                0 <= pw <= width + 63,
                0 <= ph <= height + 63,
        ;
        assert((width + 63) * (height + 63) == width * height + 63 * width + 63 * height + 3969)
            by (nonlinear_arith);
    }
    let input: Vec<R> = to_input_tensor(rgba, width, height, pw, ph);
    let ghost given = input;
    let reply: Result<(Vec<i64>, Vec<R>), E> = infer(input, pw, ph);
    let ghost returned = reply;
    let ghost (w, h) = (width as int, height as int);
    let (shape, data): (Vec<i64>, Vec<R>) = match reply {
        Ok(r) => r,
        Err(e) => {
            let out: Result<Vec<u8>, DenoiseError<E>> = Err(DenoiseError::Model(e));
            assert(is_restoration(rgba@, w, h, infer, pw, ph, given, returned, out));
            return out;
        },
    };
    let (ow, oh): (usize, usize) = match output_size(
        shape.as_slice(),
        data.len(),
        width,
        height,
    ) {
        Ok(size) => size,
        Err(fault) => {
            let out: Result<Vec<u8>, DenoiseError<E>> = Err(
                match fault {
                    Fault::Shape => DenoiseError::Shape(shape),
                    Fault::Truncated => DenoiseError::Truncated(shape),
                },
            );
            assert(is_restoration(rgba@, w, h, infer, pw, ph, given, returned, out));
            return out;
        },
    };
    assert(ow * oh == oh * ow) by (nonlinear_arith);
    let clean: Vec<u8> = crop_rgb_from_chw(data.as_slice(), ow, oh, width, height);
    let out: Result<Vec<u8>, DenoiseError<E>> = Ok(replace_colors(rgba, clean.as_slice(), n));
    assert(is_restoration(rgba@, w, h, infer, pw, ph, given, returned, out));
    out
}

/// Denoising keeps the size of the buffer, every alpha value and everything past the pixels.
pub proof fn law_recoloring_keeps_alpha(rgba: Seq<u8>, rgb: Seq<u8>, n: int, k: int)
    requires
        0 <= k < rgba.len(),
    ensures
        recolored(rgba, rgb, n).len() == rgba.len(),
        k % 4 == 3 || k / 4 >= n ==> recolored(rgba, rgb, n)[k] == rgba[k],
{
}

/// Padding and cropping undo each other: where a byte survives being taken for a fraction and
/// back, a model that hands its input on unchanged leaves the image as it was.
pub proof fn law_unchanged_tensor_gives_the_image_back<R: Number>(
    rgba: Seq<u8>,
    width: int,
    height: int,
    pw: int,
    ph: int,
)
    requires
        1 <= width <= pw,
        1 <= height <= ph,
        4 * (width * height) <= rgba.len(),
        forall|b: u8| unit_byte_of(#[trigger] fraction_of::<R>(b)) == b,
    ensures
        recolored(
            rgba,
            cropped(tensor_of::<R>(rgba, width, height, pw, ph), pw, ph, width, height),
            width * height,
        ) == rgba,
{
    let t = tensor_of::<R>(rgba, width, height, pw, ph);
    let n = width * height;
    let rgb = cropped(t, pw, ph, width, height);
    assert forall|k: int| 0 <= k < rgba.len() && k % 4 < 3 && k / 4 < n implies rgb[3 * (k / 4) + k
        % 4] == #[trigger] rgba[k] by {
        let (p, c) = (k / 4, k % 4);
        let (x, y) = (p % width, p / width);
        lemma_coords(width, height, p);
        lemma_pixel_index(pw, ph, x, y);
        lemma_plane_index(c, pw * ph, y * pw + x);
        if width > 1 {
            law_reflection_mirrors(x, width);
        }
        if height > 1 {
            law_reflection_mirrors(y, height);
        }
        let at = c * (pw * ph) + (y * pw + x);
        assert(t[at] == fraction_of::<R>(padded_byte(rgba, width, height, x, y, c)));
        assert(padded_byte(rgba, width, height, x, y, c) == rgba[4 * p + c]);
        assert((3 * p + c) / 3 == p && (3 * p + c) % 3 == c);
        assert(rgb[3 * p + c] == unit_byte_of(t[at]));
    }
    assert(recolored(rgba, rgb, n) =~= rgba);
}

} // verus!
