//! Super-resolution.
//!
//! A ×4 model is run over an RGBA raster to upscale it before tracing. The point
//! is *low-res* inputs: a small or pixelated logo/clipart traces into clean curves
//! once it's been super-resolved instead of vectorizing the blocky original.
//!
//! The model is fully convolutional with dynamic H/W, so it is fed the image at
//! its native size and gives back a 4× result. RGB is normalized by a plain
//! `/255`. The alpha channel is upscaled separately (the model is RGB-only) so
//! any existing transparency is preserved. Running the model is left to the
//! caller.

use vstd::prelude::*;
use vstd::slice::slice_to_vec;

use crate::number::{
    consistent, from_index, over, quotient_of, unit_byte, unit_byte_of, whole_of, Number,
};
use crate::raster::{alpha_plane, alphas_of, pixel_count, raster_error, RasterError};
use crate::resample::{can_resample, fits, keeps_plain, resampled, resize_luma, Filter};

verus! {

/// The model's native (fixed) upscale factor.
pub const SCALE: usize = 4;

/// Don't super-resolve inputs larger than this many pixels. SR only meaningfully
/// helps small/low-res inputs, and the 16× output of a large image would be both
/// slow and memory-heavy. 1024×1024 in → 4096×4096 (≈16.7 MP) out, which stays
/// under the service's decoded-pixel guard. Larger inputs pass through untouched.
pub const MAX_INPUT_PIXELS: usize = 1_048_576;

/// An upscaled raster: RGBA bytes plus its new dimensions.
#[derive(Debug, Clone)]
pub struct SrImage {
    pub rgba: Vec<u8>,
    pub width: usize,
    pub height: usize,
}

/// Why an image could not be upscaled; `E` is what the model runner reports.
#[derive(Debug)]
pub enum SrError<E> {
    /// The buffer is no image of the given size.
    Raster(RasterError),
    /// The model could not be run.
    Model(E),
    /// The model's output is no RGB image; its shape.
    Shape(Vec<i64>),
    /// The upscaled image does not fit in memory.
    Overflow,
    /// The model gave fewer numbers than its shape says; the shape.
    Truncated(Vec<i64>),
}

/// A byte as a fraction of 255.
pub open spec fn fraction_of<R: Number>(b: u8) -> R {
    quotient_of(whole_of::<R>(b as usize), whole_of::<R>(255))
}

/// A byte as a fraction of 255.
pub(crate) fn fraction<R: Number>(b: u8) -> (x: R)
    requires
        consistent::<R>(),
    ensures
        x == fraction_of::<R>(b),
{
    over(from_index(b as usize), from_index(255))
}

/// The model's input for the first `hw` pixels of an RGBA image, one plane per channel.
pub open spec fn tensor_of<R: Number>(rgba: Seq<u8>, hw: int) -> Seq<R> {
    Seq::new((3 * hw) as nat, |k: int| fraction_of::<R>(rgba[4 * (k % hw) + k / hw]))
}

/// Element `p` of plane `c`.
pub(crate) proof fn lemma_plane_index(c: int, hw: int, p: int)
    requires
        0 <= c < 3,
        0 <= p < hw,
    ensures
        0 <= c * hw,
        0 <= c * hw + p < 3 * hw,
        (c * hw + p) / hw == c,
        (c * hw + p) % hw == p,
        (c + 1) * hw == c * hw + hw,
{
    vstd::arithmetic::div_mod::lemma_fundamental_div_mod_converse(c * hw + p, hw, c, p);
    assert(0 <= c * hw && c * hw + p < 3 * hw && (c + 1) * hw == c * hw + hw) by (nonlinear_arith)
        requires
            0 <= c < 3,
            0 <= p < hw,
    ;
}

/// Normalize an RGBA byte buffer into the model's NCHW tensor: RGB scaled by
/// a flat `/255`, alpha dropped.
pub fn to_input_tensor<R: Number>(rgba: &[u8], width: usize, height: usize) -> (t: Vec<R>)
    requires
        consistent::<R>(),
        0 < 4 * (width * height) <= rgba@.len(),
    ensures
        t@ == tensor_of::<R>(rgba@, width * height),
{
    let len: usize = rgba.len();
    let hw: usize = width * height;
    let mut t: Vec<R> = Vec::new();
    let mut c: usize = 0;
    let ghost whole = tensor_of::<R>(rgba@, hw as int);
    while c < 3
        invariant
            consistent::<R>(),
            len == rgba@.len(),
            0 < 4 * hw <= len,
            whole == tensor_of::<R>(rgba@, hw as int),
            c <= 3,
            t@ == whole.take(c * hw),
        decreases 3 - c,
    {
        let mut p: usize = 0;
        while p < hw
            invariant
                consistent::<R>(),
                len == rgba@.len(),
                0 < 4 * hw <= len,
                whole == tensor_of::<R>(rgba@, hw as int),
                c < 3,
                p <= hw,
                t@ == whole.take(c * hw + p),
            decreases hw - p,
        {
            let x: R = fraction(rgba[4 * p + c]);
            t.push(x);
            proof {
                lemma_plane_index(c as int, hw as int, p as int);
                let k = c * hw + p;
                assert(whole[k] == x);
                assert(whole.take(k + 1) =~= whole.take(k).push(x));
            }
            p = p + 1;
        }
        proof {
            lemma_plane_index(c as int, hw as int, 0);
        }
        c = c + 1;
    }
    assert(whole.take(3 * hw) =~= whole);
    t
}

/// The bytes of an RGB image given as three planes of `ohw` numbers.
pub open spec fn rgb_from<R: Number>(data: Seq<R>, ohw: int) -> Seq<u8> {
    Seq::new((3 * ohw) as nat, |k: int| unit_byte_of(data[(k % 3) * ohw + k / 3]))
}

/// Convert a CHW output plane (3 channels, already `[0,1]`) into interleaved
/// RGB bytes. Clamped defensively in case the model emits a hair past the clip.
pub fn rgb_u8_from_chw<R: Number>(data: &[R], ohw: usize) -> (rgb: Vec<u8>)
    requires
        consistent::<R>(),
        3 * ohw <= data@.len(),
    ensures
        rgb@ == rgb_from(data@, ohw as int),
{
    let len: usize = data.len();
    let ghost whole = rgb_from(data@, ohw as int);
    let mut rgb: Vec<u8> = Vec::new();
    let mut p: usize = 0;
    while p < ohw
        invariant
            consistent::<R>(),
            len == data@.len(),
            3 * ohw <= len,
            whole == rgb_from(data@, ohw as int),
            p <= ohw,
            rgb@ == whole.take(3 * p),
        decreases ohw - p,
    {
        let r: u8 = unit_byte(data[p]);
        let g: u8 = unit_byte(data[ohw + p]);
        let b: u8 = unit_byte(data[2 * ohw + p]);
        rgb.push(r);
        rgb.push(g);
        rgb.push(b);
        proof {
            let k = 3 * p;
            assert(k / 3 == p && k % 3 == 0 && (k + 1) / 3 == p && (k + 1) % 3 == 1 && (k + 2) / 3
                == p && (k + 2) % 3 == 2);
            assert(0 * ohw == 0 && 1 * ohw == ohw);
            assert(whole[k] == r && whole[k + 1] == g && whole[k + 2] == b);
            assert(whole.take(k + 3) =~= whole.take(k).push(r).push(g).push(b));
        }
        p = p + 1;
    }
    assert(whole.take(3 * ohw) =~= whole);
    rgb
}

/// Resample the source alpha channel to the upscaled size with a high-quality
/// filter, so existing transparency survives the upscale. An even channel stays as it is: an
/// opaque image stays opaque.
pub fn upscale_alpha(rgba: &[u8], width: usize, height: usize, ow: usize, oh: usize) -> (up: Vec<
    u8,
>)
    requires
        4 * (width * height) <= rgba@.len(),
        can_resample(width as int, height as int, ow as int, oh as int),
    ensures
        up@.len() == ow * oh,
        width == ow && height == oh ==> up@ == alphas_of(rgba@, width * height),
        width <= ow && height <= oh ==> keeps_plain(alphas_of(rgba@, width * height), up@),
        resampled(
            1,
            alphas_of(rgba@, width * height),
            width as int,
            height as int,
            ow as int,
            oh as int,
            true,
            up@,
        ),
{
    let len: usize = rgba.len();
    assert(0 <= width * height) by (nonlinear_arith);
    let a: Vec<u8> = alpha_plane(rgba, width * height);
    resize_luma(a, width, height, ow, oh, Filter::Lanczos3)
}

/// Colour and alpha put together, pixel by pixel.
pub open spec fn interleaved(rgb: Seq<u8>, alpha: Seq<u8>) -> Seq<u8> {
    Seq::new(
        4 * alpha.len(),
        |k: int|
            if k % 4 == 3 {
                alpha[k / 4]
            } else {
                rgb[3 * (k / 4) + k % 4]
            },
    )
}

/// Puts colour and alpha together.
pub fn interleave(rgb: &[u8], alpha: &[u8]) -> (out: Vec<u8>)
    requires
        rgb@.len() == 3 * alpha@.len(),
        4 * alpha@.len() <= usize::MAX,
    ensures
        out@ == interleaved(rgb@, alpha@),
{
    let n: usize = alpha.len();
    let ghost whole = interleaved(rgb@, alpha@);
    let mut out: Vec<u8> = Vec::new();
    let mut p: usize = 0;
    while p < n
        invariant
            n == alpha@.len(),
            rgb@.len() == 3 * n,
            4 * n <= usize::MAX,
            whole == interleaved(rgb@, alpha@),
            p <= n,
            out@ == whole.take(4 * p),
        decreases n - p,
    {
        out.push(rgb[3 * p]);
        out.push(rgb[3 * p + 1]);
        out.push(rgb[3 * p + 2]);
        out.push(alpha[p]);
        proof {
            let k = 4 * p;
            assert(k / 4 == p && k % 4 == 0 && (k + 1) / 4 == p && (k + 1) % 4 == 1 && (k + 2) / 4
                == p && (k + 2) % 4 == 2 && (k + 3) / 4 == p && (k + 3) % 4 == 3);
            assert(whole[k] == rgb@[3 * p] && whole[k + 1] == rgb@[3 * p + 1] && whole[k + 2]
                == rgb@[3 * p + 2] && whole[k + 3] == alpha@[p as int]);
            assert(whole.take(k + 4) =~= whole.take(k).push(whole[k]).push(whole[k + 1]).push(
                whole[k + 2],
            ).push(whole[k + 3]));
        }
        p = p + 1;
    }
    assert(whole.take(4 * n) =~= whole);
    out
}

/// What can be wrong with the model's output.
#[derive(Debug, Clone, Copy, PartialEq, Eq, Structural)]
pub enum Fault {
    Shape,
    Overflow,
    Truncated,
}

/// What is wrong with an output of shape `dims` and `len` numbers, if anything: it must be
/// `[_, 3, oh, ow]` and hold `oh * ow` pixels, and an image of that size must be possible.
pub open spec fn output_fault(dims: Seq<i64>, len: int, w: int, h: int) -> Option<Fault> {
    if dims.len() != 4 || dims[1] != 3 {
        Some(Fault::Shape)
    } else if dims[2] == 0 || dims[3] == 0 {
        Some(Fault::Truncated)
    } else if dims[2] < 0 || dims[3] < 0 || dims[2] * dims[3] > usize::MAX {
        Some(Fault::Overflow)
    } else if len < 3 * (dims[2] * dims[3]) {
        Some(Fault::Truncated)
    } else if !can_resample(w, h, dims[3] as int, dims[2] as int) {
        Some(Fault::Overflow)
    } else {
        None
    }
}

/// The size `(ow, oh)` of the image in an output of shape `dims` and `len` numbers.
pub fn output_size(dims: &[i64], len: usize, w: usize, h: usize) -> (r: Result<
    (usize, usize),
    Fault,
>)
    ensures
        match r {
            Ok((ow, oh)) => output_fault(dims@, len as int, w as int, h as int) is None && oh
                == dims@[2] && ow == dims@[3],
            Err(f) => output_fault(dims@, len as int, w as int, h as int) == Some(f),
        },
{
    if dims.len() != 4 || dims[1] != 3 {
        return Err(Fault::Shape);
    }
    let (dh, dw): (i64, i64) = (dims[2], dims[3]);
    if dh == 0 || dw == 0 {
        return Err(Fault::Truncated);
    }
    if dh < 0 || dw < 0 {
        return Err(Fault::Overflow);
    }
    proof {
        assert(0 < dh * dw <= 0x4000_0000_0000_0000_0000_0000_0000_0000) by (nonlinear_arith)
            requires
                0 < dh <= 0x7fff_ffff_ffff_ffff,
                0 < dw <= 0x7fff_ffff_ffff_ffff,
        ;
        assert(dh * dw == (dh as u128) * (dw as u128));
    }
    let pixels: u128 = dh as u128 * dw as u128;
    if pixels > usize::MAX as u128 {
        return Err(Fault::Overflow);
    }
    proof {
        assert(dh <= dh * dw && dw <= dh * dw) by (nonlinear_arith)
            requires
                0 < dh,
                0 < dw,
        ;
        assert(dw * dh == dh * dw) by (nonlinear_arith);
    }
    let oh: usize = dh as usize;
    let ow: usize = dw as usize;
    if (len as u128) < 3 * pixels {
        return Err(Fault::Truncated);
    }
    if !fits(w, h, ow, oh) {
        return Err(Fault::Overflow);
    }
    Ok((ow, oh))
}

/// What the model runner is handed and what comes of its reply: `input` is the tensor made of
/// the image, `reply` what the runner returned, and `alpha` the resampled alpha channel.
pub open spec fn is_upscale<
    R: Number,
    E,
    F: FnOnce(Vec<R>) -> Result<(Vec<i64>, Vec<R>), E>,
>(
    rgba: Seq<u8>,
    width: int,
    height: int,
    infer: F,
    input: Vec<R>,
    reply: Result<(Vec<i64>, Vec<R>), E>,
    alpha: Seq<u8>,
    out: Result<SrImage, SrError<E>>,
) -> bool {
    let n = width * height;
    &&& input@ == tensor_of::<R>(rgba, n)
    &&& call_ensures(infer, (input,), reply)
    &&& match reply {
        Err(e) => out == Err::<SrImage, SrError<E>>(SrError::Model(e)),
        Ok((shape, data)) => match output_fault(shape@, data@.len() as int, width, height) {
            Some(Fault::Shape) => out == Err::<SrImage, SrError<E>>(SrError::Shape(shape)),
            Some(Fault::Overflow) => out == Err::<SrImage, SrError<E>>(SrError::Overflow),
            Some(Fault::Truncated) => out == Err::<SrImage, SrError<E>>(SrError::Truncated(shape)),
            None => {
                let (oh, ow) = (shape@[2] as int, shape@[3] as int);
                &&& alpha.len() == ow * oh
                &&& width <= ow && height <= oh ==> keeps_plain(alphas_of(rgba, n), alpha)
                &&& resampled(1, alphas_of(rgba, n), width, height, ow, oh, true, alpha)
                &&& out matches Ok(img) && img.width == ow && img.height == oh && img.rgba@
                    == interleaved(rgb_from(data@, ow * oh), alpha)
            },
        },
    }
}

/// Super-resolve an RGBA buffer 4×, returning the upscaled raster and its new
/// dimensions. Inputs above [`MAX_INPUT_PIXELS`] are returned unchanged (a copy)
/// — SR is for small inputs, and upscaling a large image would blow up cost.
///
/// `infer` runs the model: it takes the `[1, 3, height, width]` input tensor and
/// returns the shape and the numbers of the first output.
pub fn super_resolve<R: Number, E, F: FnOnce(Vec<R>) -> Result<(Vec<i64>, Vec<R>), E>>(
    rgba: &[u8],
    width: usize,
    height: usize,
    infer: F,
) -> (out: Result<SrImage, SrError<E>>)
    requires
        consistent::<R>(),
        forall|input: Vec<R>| #[trigger] call_requires(infer, (input,)),
    ensures
        match raster_error(rgba@.len() as int, width as int, height as int) {
            Some(e) => out == Err::<SrImage, SrError<E>>(SrError::Raster(e)),
            None => if width * height > MAX_INPUT_PIXELS {
                out matches Ok(img) && img.rgba@ == rgba@ && img.width == width && img.height
                    == height
            } else {
                exists|input: Vec<R>, reply: Result<(Vec<i64>, Vec<R>), E>, alpha: Seq<u8>|
                 #[trigger]
                    is_upscale(
                        rgba@,
                        width as int,
                        height as int,
                        infer,
                        input,
                        reply,
                        alpha,
                        out,
                    )
            },
        },
{
    let n: usize = match pixel_count(rgba.len(), width, height) {
        Ok(n) => n,
        Err(e) => return Err(SrError::Raster(e)),
    };
    // Too large to be worth (or safe to) upscale — hand the original straight
    // back so the caller can carry on with the unmodified raster.
    if n > MAX_INPUT_PIXELS {
        return Ok(SrImage { rgba: slice_to_vec(rgba), width, height });
    }
    assert(1 <= width && 1 <= height && width <= width * height && height <= width * height)
        by (nonlinear_arith)
        requires
            0 <= width,
            0 <= height,
            0 < width * height,
    ;
    let input: Vec<R> = to_input_tensor(rgba, width, height);
    let ghost given = input;
    let reply: Result<(Vec<i64>, Vec<R>), E> = infer(input);
    let ghost returned = reply;
    let ghost none = Seq::<u8>::empty();
    let ghost (w, h) = (width as int, height as int);
    let (shape, data): (Vec<i64>, Vec<R>) = match reply {
        Ok(r) => r,
        Err(e) => {
            let out: Result<SrImage, SrError<E>> = Err(SrError::Model(e));
            assert(is_upscale(rgba@, w, h, infer, given, returned, none, out));
            return out;
        },
    };
    let (ow, oh): (usize, usize) = match output_size(
        shape.as_slice(),
        data.len(),
        width,
        height,
    ) {
        Ok(size) => size,
        Err(fault) => {
            let out: Result<SrImage, SrError<E>> = Err(
                match fault {
                    Fault::Shape => SrError::Shape(shape),
                    Fault::Overflow => SrError::Overflow,
                    Fault::Truncated => SrError::Truncated(shape),
                },
            );
            assert(is_upscale(rgba@, w, h, infer, given, returned, none, out));
            return out;
        },
    };
    assert(ow * oh == oh * ow) by (nonlinear_arith);
    let ohw: usize = ow * oh;
    let rgb: Vec<u8> = rgb_u8_from_chw(data.as_slice(), ohw);
    // The model is RGB-only, so alpha is upscaled separately to match.
    let alpha: Vec<u8> = upscale_alpha(rgba, width, height, ow, oh);
    let pixels: Vec<u8> = interleave(rgb.as_slice(), alpha.as_slice());
    let out: Result<SrImage, SrError<E>> = Ok(SrImage { rgba: pixels, width: ow, height: oh });
    assert(is_upscale(rgba@, w, h, infer, given, returned, alpha@, out));
    out
}

/// The first `n` pixels of an RGBA image are fully opaque.
pub open spec fn is_opaque(rgba: Seq<u8>, n: int) -> bool {
    forall|i: int| 0 <= i < n ==> #[trigger] alphas_of(rgba, n)[i] == 255
}

/// An opaque image stays opaque when it is enlarged.
pub proof fn law_opaque_images_stay_opaque<
    R: Number,
    E,
    F: FnOnce(Vec<R>) -> Result<(Vec<i64>, Vec<R>), E>,
>(
    rgba: Seq<u8>,
    width: int,
    height: int,
    infer: F,
    input: Vec<R>,
    reply: Result<(Vec<i64>, Vec<R>), E>,
    alpha: Seq<u8>,
    out: Result<SrImage, SrError<E>>,
)
    requires
        0 < width * height,
        is_upscale(rgba, width, height, infer, input, reply, alpha, out),
        is_opaque(rgba, width * height),
    ensures
        match out {
            Ok(img) => img.width >= width && img.height >= height ==> is_opaque(
                img.rgba@,
                img.width * img.height,
            ),
            Err(_) => true,
        },
{
    let n = width * height;
    let a = alphas_of(rgba, n);
    if let Ok(img) = out {
        if img.width >= width && img.height >= height {
            let m = img.width * img.height;
            assert forall|i: int| 0 <= i < a.len() implies #[trigger] a[i] == a[0] by {
                assert(alphas_of(rgba, n)[i] == 255 && alphas_of(rgba, n)[0] == 255);
            }
            assert forall|p: int| 0 <= p < m implies #[trigger] alphas_of(img.rgba@, m)[p]
                == 255 by {
                assert((4 * p + 3) / 4 == p && (4 * p + 3) % 4 == 3);
                assert(alpha[p] == a[0]);
                assert(alphas_of(rgba, n)[0] == 255);
            }
        }
    }
}

/// Taking an image apart and putting it together undo each other: where a byte survives being
/// taken for a fraction and back, a model that hands its input on unchanged, and with it the
/// image's own alpha, give the image.
pub proof fn law_unchanged_tensor_gives_the_image_back<R: Number>(rgba: Seq<u8>, n: int)
    requires
        1 <= n,
        4 * n <= rgba.len(),
        forall|b: u8| unit_byte_of(#[trigger] fraction_of::<R>(b)) == b,
    ensures
        interleaved(rgb_from(tensor_of::<R>(rgba, n), n), alphas_of(rgba, n)) == rgba.take(4 * n),
{
    let t = tensor_of::<R>(rgba, n);
    let rgb = rgb_from(t, n);
    let out = interleaved(rgb, alphas_of(rgba, n));
    assert forall|k: int| 0 <= k < 4 * n implies #[trigger] out[k] == rgba[k] by {
        let (p, c) = (k / 4, k % 4);
        if c < 3 {
            lemma_plane_index(c, n, p);
            assert(t[c * n + p] == fraction_of::<R>(rgba[4 * p + c]));
            assert((3 * p + c) / 3 == p && (3 * p + c) % 3 == c);
            assert(rgb[3 * p + c] == unit_byte_of(t[c * n + p]));
        }
    }
    assert(out =~= rgba.take(4 * n));
}

} // verus!
