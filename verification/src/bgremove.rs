//! Background removal.
//!
//! A salient-object model is run over an RGBA raster to produce a single-channel
//! matte, and a copy of the raster is returned whose alpha channel carries that
//! matte (so the alpha-aware tracer drops the background for free).
//!
//! Two models are supported (see [`Model`]): **u2netp** (lightweight, fast) and
//! **isnet-general-use** (heavier, much sharper on fine detail). They differ
//! only in input size and normalization; the pre/post-processing is otherwise
//! shared. Running a model is left to the caller.

use vstd::prelude::*;
use vstd::slice::{slice_subrange, slice_to_vec};

use crate::arithmetic::{
    comparable, finite, keeps_all, keeps_finite, keeps_rounding, keeps_values,
    lemma_difference_order, lemma_extreme, lemma_finite, lemma_no_difference, lemma_once,
    lemma_order, lemma_product_order, lemma_quotient_order, lemma_ratio, lemma_rounded_whole,
    lemma_rounding, lemma_scaled, lemma_wholes, lemma_zero,
};
use crate::number::{
    at_least, consistent, difference_of, greater_of, product_of, quotient_of, ratio_of,
    round_byte_of, unit_byte_of, whole_of,
};
use crate::number::{
    below, from_index, greater, is_below, minus, ordered, over, ratio, round_byte, times,
    unit_byte, Number,
};
use crate::raster::{colors_of, pixel_count, raster_error, strip_alpha, RasterError};
use crate::resample::{can_resample, resampled, resize_luma, resize_rgb, Filter};

verus! {

/// Which salient-object model to run.
#[derive(Debug, Clone, Copy, PartialEq, Eq, Structural)]
pub enum Model {
    /// u2netp — lightweight (~4.6 MB), 320×320, ImageNet normalization. Fast.
    U2netp,
    /// isnet-general-use — high accuracy (~178 MB), 1024×1024, ±0.5
    /// normalization. Sharper edges/fine detail, slower.
    Isnet,
}

impl Model {
    /// Square input side the model expects.
    pub open spec fn input_side(self) -> int {
        match self {
            Model::U2netp => 320,
            Model::Isnet => 1024,
        }
    }

    /// The normalization mean of channel `c`.
    pub open spec fn channel_mean<R: Number>(self, c: int) -> R {
        match self {
            Model::U2netp => if c == 0 {
                ratio_of(485, 1000)
            } else if c == 1 {
                ratio_of(456, 1000)
            } else {
                ratio_of(406, 1000)
            },
            Model::Isnet => ratio_of(1, 2),
        }
    }

    /// The normalization deviation of channel `c`.
    pub open spec fn channel_std<R: Number>(self, c: int) -> R {
        match self {
            Model::U2netp => if c == 0 {
                ratio_of(229, 1000)
            } else if c == 1 {
                ratio_of(224, 1000)
            } else {
                ratio_of(225, 1000)
            },
            Model::Isnet => ratio_of(1, 1),
        }
    }

    /// Map a form value to a model; anything unrecognized falls back to the
    /// fast default so a bad param can never 500.
    pub fn parse(s: &str) -> (m: Model)
        ensures
            m == if s@ == "isnet"@ || s@ == "high"@ {
                Model::Isnet
            } else {
                Model::U2netp
            },
    {
        let name: String = String::from_str(s);
        if name == String::from_str("isnet") || name == String::from_str("high") {
            Model::Isnet
        } else {
            Model::U2netp
        }
    }

    pub fn filename(self) -> (name: &'static str)
        ensures
            name@ == match self {
                Model::U2netp => "u2netp.onnx"@,
                Model::Isnet => "isnet-general-use.onnx"@,
            },
    {
        match self {
            Model::U2netp => "u2netp.onnx",
            Model::Isnet => "isnet-general-use.onnx",
        }
    }

    /// Square input side the model expects.
    pub fn side(self) -> (side: usize)
        ensures
            side == self.input_side(),
    {
        match self {
            Model::U2netp => 320,
            Model::Isnet => 1024,
        }
    }

    /// Normalization mean of channel `c` (applied after scaling by the image max).
    pub fn mean<R: Number>(self, c: usize) -> (m: R)
        requires
            consistent::<R>(),
        ensures
            m == self.channel_mean::<R>(c as int),
    {
        match self {
            // ImageNet
            Model::U2netp => if c == 0 {
                ratio(485, 1000)
            } else if c == 1 {
                ratio(456, 1000)
            } else {
                ratio(406, 1000)
            },
            Model::Isnet => ratio(1, 2),
        }
    }

    /// Normalization deviation of channel `c`.
    pub fn deviation<R: Number>(self, c: usize) -> (d: R)
        requires
            consistent::<R>(),
        ensures
            d == self.channel_std::<R>(c as int),
    {
        match self {
            Model::U2netp => if c == 0 {
                ratio(229, 1000)
            } else if c == 1 {
                ratio(224, 1000)
            } else {
                ratio(225, 1000)
            },
            Model::Isnet => ratio(1, 1),
        }
    }
}

/// Tuning for the matte → alpha conversion.
#[derive(Debug, Clone)]
pub struct BgConfig<R> {
    /// Matte cutoff in `[0, 1]`. Pixels whose normalized saliency is at or above
    /// this become fully opaque, below it fully transparent. `0` keeps the raw
    /// soft matte (every saliency level passes through as a partial alpha).
    pub threshold: R,
}

impl<R: Number> Default for BgConfig<R> {
    /// A clean foreground/background split at the matte midpoint. The
    /// downstream tracer thresholds alpha anyway, so a soft matte would just
    /// read as "any non-zero saliency is foreground" — too greedy.
    fn default() -> (cfg: Self)
        ensures
            call_ensures(R::ratio, (1, 2), cfg.threshold),
    {
        BgConfig { threshold: R::ratio(1, 2) }
    }
}

/// Why a background could not be removed; `E` is what the model runner reports.
#[derive(Debug)]
pub enum BgError<E> {
    /// The buffer is no image of the given size.
    Raster(RasterError),
    /// The model could not be run.
    Model(E),
    /// The model gave too few numbers; their shape.
    Shape(Vec<i64>),
}

/// The largest of the first `n` bytes, at least 1.
pub open spec fn peak_byte(bytes: Seq<u8>, n: int) -> u8
    decreases n,
{
    if n <= 0 {
        1
    } else {
        let before = peak_byte(bytes, n - 1);
        if bytes[n - 1] > before {
            bytes[n - 1]
        } else {
            before
        }
    }
}

/// A byte of channel `c` normalized for the model, in an image whose largest byte is `max`.
pub open spec fn normalized<R: Number>(model: Model, c: int, byte: u8, max: u8) -> R {
    let v = quotient_of(whole_of::<R>(byte as usize), whole_of::<R>(max as usize));
    quotient_of(difference_of(v, model.channel_mean::<R>(c)), model.channel_std::<R>(c))
}

/// The model's input for an RGB image of its size, one plane per channel.
pub open spec fn tensor_of<R: Number>(rgb: Seq<u8>, model: Model) -> Seq<R> {
    let hw = model.input_side() * model.input_side();
    let max = peak_byte(rgb, rgb.len() as int);
    Seq::new(
        (3 * hw) as nat,
        |k: int| normalized::<R>(model, k / hw, rgb[3 * (k % hw) + k / hw], max),
    )
}

/// Normalize a `side×side` RGB byte buffer into the model's NCHW tensor.
pub fn to_input_tensor<R: Number>(rgb: &[u8], model: Model) -> (t: Vec<R>)
    requires
        consistent::<R>(),
        rgb@.len() == 3 * (model.input_side() * model.input_side()),
    ensures
        t@ == tensor_of::<R>(rgb@, model),
{
    let side: usize = model.side();
    assert(side * side <= 0x10_0000) by (nonlinear_arith)
        requires
            0 <= side <= 1024,
    ;
    let hw: usize = side * side;
    // Both nets divide by the image's own max, not a fixed 255.
    let mut max: u8 = 1;
    let mut i: usize = 0;
    while i < rgb.len()
        invariant
            i <= rgb@.len(),
            max == peak_byte(rgb@, i as int),
        decreases rgb@.len() - i,
    {
        if rgb[i] > max {
            max = rgb[i];
        }
        i = i + 1;
    }
    let scale: R = from_index(max as usize);
    let mut t: Vec<R> = Vec::new();
    let mut c: usize = 0;
    while c < 3
        invariant
            consistent::<R>(),
            hw == model.input_side() * model.input_side(),
            0 < hw <= 0x10_0000,
            rgb@.len() == 3 * hw,
            max == peak_byte(rgb@, rgb@.len() as int),
            scale == whole_of::<R>(max as usize),
            c <= 3,
            t@ == tensor_of::<R>(rgb@, model).take(c * hw),
        decreases 3 - c,
    {
        let mean: R = model.mean(c);
        let dev: R = model.deviation(c);
        let mut p: usize = 0;
        while p < hw
            invariant
                consistent::<R>(),
                hw == model.input_side() * model.input_side(),
                0 < hw <= 0x10_0000,
                rgb@.len() == 3 * hw,
                max == peak_byte(rgb@, rgb@.len() as int),
                scale == whole_of::<R>(max as usize),
                mean == model.channel_mean::<R>(c as int),
                dev == model.channel_std::<R>(c as int),
                c < 3,
                p <= hw,
                t@ == tensor_of::<R>(rgb@, model).take(c * hw + p),
            decreases hw - p,
        {
            let v: R = over(from_index(rgb[3 * p + c] as usize), scale);
            let x: R = over(minus(v, mean), dev);
            t.push(x);
            proof {
                let whole = tensor_of::<R>(rgb@, model);
                let k = c * hw + p;
                vstd::arithmetic::div_mod::lemma_fundamental_div_mod_converse(
                    k,
                    hw as int,
                    c as int,
                    p as int,
                );
                assert(k < 3 * hw) by (nonlinear_arith)
                    requires
                        k == c * hw + p,
                        c < 3,
                        p < hw,
                ;
                assert(0 <= k) by (nonlinear_arith)
                    requires
                        k == c * hw + p,
                        c >= 0,
                        p >= 0,
                        hw >= 0,
                ;
                assert(whole[k] == x);
                assert(whole.take(k + 1) =~= whole.take(k).push(x));
            }
            p = p + 1;
        }
        assert((c + 1) * hw == c * hw + hw) by (nonlinear_arith);
        c = c + 1;
    }
    assert(tensor_of::<R>(rgb@, model).take(3 * hw) =~= tensor_of::<R>(rgb@, model));
    t
}

/// Positive infinity.
pub open spec fn infinity<R: Number>() -> R {
    ratio_of(1, 0)
}

/// The least of the first `n` numbers; numbers that compare with none are passed over.
pub open spec fn least<R: Number>(data: Seq<R>, n: int) -> R
    decreases n,
{
    if n <= 0 {
        infinity()
    } else {
        let before = least(data, n - 1);
        if below(data[n - 1], before) {
            data[n - 1]
        } else {
            before
        }
    }
}

/// The greatest of the first `n` numbers; numbers that compare with none are passed over.
pub open spec fn greatest<R: Number>(data: Seq<R>, n: int) -> R
    decreases n,
{
    if n <= 0 {
        difference_of(whole_of::<R>(0), infinity())
    } else {
        let before = greatest(data, n - 1);
        if below(before, data[n - 1]) {
            data[n - 1]
        } else {
            before
        }
    }
}

/// The span from the least to the greatest number, at least a millionth.
pub open spec fn span<R: Number>(data: Seq<R>) -> R {
    let n = data.len() as int;
    greater_of(difference_of(greatest(data, n), least(data, n)), ratio_of(1, 1_000_000))
}

/// The numbers stretched to levels from 0 to 255.
pub open spec fn matte_of<R: Number>(data: Seq<R>) -> Seq<u8> {
    data.map_values(
        |v: R|
            round_byte_of(
                product_of(
                    quotient_of(difference_of(v, least(data, data.len() as int)), span(data)),
                    whole_of::<R>(255),
                ),
            ),
    )
}

/// Min-max normalize the raw saliency output into a 0..255 matte.
pub fn matte_from_output<R: Number>(data: &[R]) -> (matte: Vec<u8>)
    requires
        consistent::<R>(),
    ensures
        matte@ == matte_of(data@),
{
    let n: usize = data.len();
    let mut mi: R = ratio(1, 0);
    let mut ma: R = minus(from_index(0), mi);
    let mut i: usize = 0;
    while i < n
        invariant
            consistent::<R>(),
            n == data@.len(),
            i <= n,
            mi == least(data@, i as int),
            ma == greatest(data@, i as int),
        decreases n - i,
    {
        let v: R = data[i];
        if is_below(v, mi) {
            mi = v;
        }
        if is_below(ma, v) {
            ma = v;
        }
        i = i + 1;
    }
    let range: R = greater(minus(ma, mi), ratio(1, 1_000_000));
    let top: R = from_index(255);
    let mut matte: Vec<u8> = Vec::new();
    let mut i: usize = 0;
    while i < n
        invariant
            consistent::<R>(),
            n == data@.len(),
            mi == least(data@, n as int),
            range == span(data@),
            top == whole_of::<R>(255),
            i <= n,
            matte@ == matte_of(data@).take(i as int),
        decreases n - i,
    {
        let level: u8 = round_byte(times(over(minus(data[i], mi), range), top));
        matte.push(level);
        assert(matte_of(data@).take(i + 1) =~= matte_of(data@).take(i as int).push(level));
        i = i + 1;
    }
    assert(matte_of(data@).take(n as int) =~= matte_of(data@));
    matte
}

/// The alpha that a matte level stands for: cut off at `cut`, or passed through where that is 0.
pub open spec fn matte_alpha(m: u8, cut: u8) -> int {
    if cut > 0 {
        if m >= cut {
            255
        } else {
            0
        }
    } else {
        m as int
    }
}

/// The matte level at which a threshold cuts off: 0, which passes the soft matte through, for a
/// threshold that is not above zero, and at least 1 for any other.
pub open spec fn cutoff<R: Number>(threshold: R) -> u8 {
    let level = unit_byte_of(threshold);
    if !below(whole_of::<R>(0), threshold) {
        0
    } else if level == 0 {
        1
    } else {
        level
    }
}

/// The matte level at which a threshold cuts off.
pub fn cut_of<R: Number>(threshold: R) -> (cut: u8)
    requires
        consistent::<R>(),
    ensures
        cut == cutoff(threshold),
{
    if !is_below(from_index(0), threshold) {
        return 0;
    }
    let level: u8 = unit_byte(threshold);
    if level == 0 {
        1
    } else {
        level
    }
}

/// The image with the matte multiplied into the alpha of its first `n` pixels.
pub open spec fn composited(rgba: Seq<u8>, matte: Seq<u8>, cut: u8, n: int) -> Seq<u8> {
    Seq::new(
        rgba.len(),
        |k: int|
            if k % 4 == 3 && k / 4 < n {
                (matte_alpha(matte[k / 4], cut) * rgba[k] / 255) as u8
            } else {
                rgba[k]
            },
    )
}

/// Composites a matte into the alpha channel. RGB is untouched.
pub fn apply_matte(rgba: &[u8], matte: &[u8], cut: u8) -> (out: Vec<u8>)
    requires
        rgba@.len() >= 4 * matte@.len(),
    ensures
        out@ == composited(rgba@, matte@, cut, matte@.len() as int),
{
    let len: usize = rgba.len();
    let n: usize = matte.len();
    let mut out: Vec<u8> = slice_to_vec(rgba);
    let mut i: usize = 0;
    assert(out@ =~= composited(rgba@, matte@, cut, 0));
    while i < n
        invariant
            len == rgba@.len(),
            n == matte@.len(),
            len >= 4 * n,
            i <= n,
            out@ == composited(rgba@, matte@, cut, i as int),
        decreases n - i,
    {
        let m: u16 = matte[i] as u16;
        let a: u16 = if cut > 0 {
            if matte[i] >= cut {
                255
            } else {
                0
            }
        } else {
            m
        };
        // Respect pixels that were already (partially) transparent.
        let existing: u16 = rgba[4 * i + 3] as u16;
        proof {
            assert(0 <= a * existing <= 255 * 255 && (a * existing) / 255 <= 255) by (nonlinear_arith)
                requires
                    0 <= a <= 255,
                    0 <= existing <= 255,
            ;
        }
        let alpha: u8 = ((a * existing) / 255) as u8;
        let ghost before = out@;
        out.set(4 * i + 3, alpha);
        proof {
            let now = composited(rgba@, matte@, cut, i + 1);
            assert forall|k: int| 0 <= k < len implies #[trigger] out@[k] == now[k] by {
                if k == 4 * i + 3 {
                    assert(k % 4 == 3 && k / 4 == i);
                } else {
                    assert(out@[k] == before[k]);
                    if k % 4 == 3 {
                        assert(k / 4 != i);
                    }
                }
            }
            assert(out@ =~= now);
        }
        i = i + 1;
    }
    out
}

/// What the model runner is handed and what comes of its reply: `small` is the image at the
/// model's size, `input` the tensor made of it, `reply` what the runner returned, and `full`
/// the matte at the image's size.
pub open spec fn is_cutout<R: Number, E, F: FnOnce(Vec<R>) -> Result<(Vec<i64>, Vec<R>), E>>(
    rgba: Seq<u8>,
    width: int,
    height: int,
    model: Model,
    cut: u8,
    infer: F,
    small: Seq<u8>,
    input: Vec<R>,
    reply: Result<(Vec<i64>, Vec<R>), E>,
    full: Seq<u8>,
    out: Result<Vec<u8>, BgError<E>>,
) -> bool {
    let side = model.input_side();
    let n = width * height;
    &&& small.len() == 3 * (side * side)
    &&& resampled(3, colors_of(rgba, n), width, height, side, side, true, small)
    &&& input@ == tensor_of::<R>(small, model)
    &&& call_ensures(infer, (input,), reply)
    &&& match reply {
        Err(e) => out == Err::<Vec<u8>, BgError<E>>(BgError::Model(e)),
        Ok((shape, data)) => if data@.len() < side * side {
            out == Err::<Vec<u8>, BgError<E>>(BgError::Shape(shape))
        } else {
            &&& full.len() == n
            &&& resampled(
                1,
                matte_of(data@.take(side * side)),
                side,
                side,
                width,
                height,
                true,
                full,
            )
            &&& out matches Ok(o) && o@ == composited(rgba, full, cut, n)
        },
    }
}

/// Remove the background from an RGBA buffer using `model`, returning a new RGBA
/// buffer whose alpha is the (thresholded) saliency matte multiplied into any
/// pre-existing alpha. RGB is untouched.
///
/// `infer` runs the model: it takes the `[1, 3, side, side]` input tensor and
/// returns the shape and the numbers of the first output.
pub fn remove_background<R: Number, E, F: FnOnce(Vec<R>) -> Result<(Vec<i64>, Vec<R>), E>>(
    rgba: &[u8],
    width: usize,
    height: usize,
    model: Model,
    cfg: &BgConfig<R>,
    infer: F,
) -> (out: Result<Vec<u8>, BgError<E>>)
    requires
        consistent::<R>(),
        forall|input: Vec<R>| #[trigger] call_requires(infer, (input,)),
        raster_error(rgba@.len() as int, width as int, height as int) is None ==> {
            let side = model.input_side();
            &&& can_resample(width as int, height as int, side, side)
            &&& can_resample(side, side, width as int, height as int)
        },
    ensures
        match raster_error(rgba@.len() as int, width as int, height as int) {
            Some(e) => out == Err::<Vec<u8>, BgError<E>>(BgError::Raster(e)),
            None => exists|
                small: Seq<u8>,
                input: Vec<R>,
                reply: Result<(Vec<i64>, Vec<R>), E>,
                full: Seq<u8>,
            | #[trigger]
                is_cutout(
                    rgba@,
                    width as int,
                    height as int,
                    model,
                    cutoff(cfg.threshold),
                    infer,
                    small,
                    input,
                    reply,
                    full,
                    out,
                ),
        },
{
    let n: usize = match pixel_count(rgba.len(), width, height) {
        Ok(n) => n,
        Err(e) => return Err(BgError::Raster(e)),
    };
    let side: usize = model.side();
    assert(side * side <= 0x10_0000) by (nonlinear_arith)
        requires
            0 <= side <= 1024,
    ;
    let hw: usize = side * side;
    let rgb: Vec<u8> = strip_alpha(rgba, n);
    let small: Vec<u8> = resize_rgb(rgb, width, height, side, side, Filter::Lanczos3);
    let input: Vec<R> = to_input_tensor(small.as_slice(), model);
    let ghost given = input;
    let reply: Result<(Vec<i64>, Vec<R>), E> = infer(input);
    let ghost returned = reply;
    let (shape, data): (Vec<i64>, Vec<R>) = match reply {
        Ok(r) => r,
        Err(e) => {
            let out: Result<Vec<u8>, BgError<E>> = Err(BgError::Model(e));
            assert(is_cutout(
                rgba@,
                width as int,
                height as int,
                model,
                cutoff(cfg.threshold),
                infer,
                small@,
                given,
                returned,
                Seq::empty(),
                out,
            ));
            return out;
        },
    };
    if data.len() < hw {
        let out: Result<Vec<u8>, BgError<E>> = Err(BgError::Shape(shape));
        assert(is_cutout(
            rgba@,
            width as int,
            height as int,
            model,
            cutoff(cfg.threshold),
            infer,
            small@,
            given,
            returned,
            Seq::empty(),
            out,
        ));
        return out;
    }
    let matte: Vec<u8> = matte_from_output(slice_subrange(data.as_slice(), 0, hw));
    assert(data@.subrange(0, hw as int) =~= data@.take(hw as int));
    let full: Vec<u8> = resize_luma(matte, side, side, width, height, Filter::Lanczos3);
    let cut: u8 = cut_of(cfg.threshold);
    let out: Result<Vec<u8>, BgError<E>> = Ok(apply_matte(rgba, full.as_slice(), cut));
    assert(is_cutout(
        rgba@,
        width as int,
        height as int,
        model,
        cutoff(cfg.threshold),
        infer,
        small@,
        given,
        returned,
        full@,
        out,
    ));
    out
}

/// Every threshold above zero cuts clean: a pixel keeps its alpha or becomes transparent. Any
/// other threshold multiplies the soft matte into the alpha.
pub proof fn law_thresholds_cut_clean<R: Number>(
    rgba: Seq<u8>,
    matte: Seq<u8>,
    threshold: R,
    n: int,
    p: int,
)
    requires
        0 <= p < n <= matte.len(),
        4 * n <= rgba.len(),
    ensures
        ({
            let alpha = composited(rgba, matte, cutoff(threshold), n)[4 * p + 3];
            if below(whole_of::<R>(0), threshold) {
                alpha == if matte[p] >= cutoff(threshold) {
                    rgba[4 * p + 3]
                } else {
                    0
                }
            } else {
                alpha == matte[p] * rgba[4 * p + 3] / 255
            }
        }),
{
    let k = 4 * p + 3;
    assert(k % 4 == 3 && k / 4 == p);
    let (m, b) = (matte[p] as int, rgba[k] as int);
    assert(0 <= m * b / 255 <= 255 && 255 * b / 255 == b && 0 * b / 255 == 0) by (nonlinear_arith)
        requires
            0 <= m <= 255,
            0 <= b <= 255,
    ;
}

/// Compositing a matte leaves the size, the colours and everything past the matte alone, and
/// never makes a pixel more opaque than it was.
pub proof fn law_compositing_only_lowers_alpha(
    rgba: Seq<u8>,
    matte: Seq<u8>,
    cut: u8,
    n: int,
    k: int,
)
    requires
        0 <= n <= matte.len(),
        0 <= k < rgba.len(),
    ensures
        composited(rgba, matte, cut, n).len() == rgba.len(),
        k % 4 != 3 || k / 4 >= n ==> composited(rgba, matte, cut, n)[k] == rgba[k],
        composited(rgba, matte, cut, n)[k] <= rgba[k],
{
    if k % 4 == 3 && k / 4 < n {
        let a = matte_alpha(matte[k / 4], cut);
        let b = rgba[k] as int;
        assert(0 <= a * b / 255 <= b) by (nonlinear_arith)
            requires
                0 <= a <= 255,
                0 <= b,
        ;
    }
}

/// The least of some finite numbers is one of them and below none, the greatest is one of them
/// and above none.
proof fn lemma_extremes<R: Number>(data: Seq<R>, n: int) -> (at: (int, int))
    requires
        ordered::<R>(),
        keeps_finite::<R>(),
        keeps_values::<R>(),
        0 < n <= data.len(),
        forall|k: int| 0 <= k < data.len() ==> finite(#[trigger] data[k]),
    ensures
        0 <= at.0 < n,
        0 <= at.1 < n,
        least(data, n) == data[at.0],
        greatest(data, n) == data[at.1],
        forall|k: int| 0 <= k < n ==> at_least(#[trigger] data[k], least(data, n)),
        forall|k: int| 0 <= k < n ==> at_least(greatest(data, n), #[trigger] data[k]),
    decreases n,
{
    reveal(ordered);
    reveal(keeps_finite);
    reveal(keeps_values);
    let v = data[n - 1];
    assert(finite(v) && comparable(v));
    if n == 1 {
        assert(least(data, 0) == infinity::<R>());
        assert(below(v, infinity::<R>()));
        assert(below(difference_of(whole_of::<R>(0), infinity::<R>()), v));
        (0, 0)
    } else {
        let (i, j) = lemma_extremes(data, n - 1);
        let (mi, ma) = (least(data, n - 1), greatest(data, n - 1));
        assert(comparable(data[i]) && comparable(data[j]));
        assert(at_least(mi, mi) && at_least(ma, ma) && at_least(v, v));
        assert forall|k: int| 0 <= k < n implies at_least(#[trigger] data[k], least(data, n)) by {
            if k < n - 1 {
                assert(at_least(data[k], mi));
                if below(v, mi) {
                    assert(at_least(mi, v));
                }
            }
        }
        assert forall|k: int| 0 <= k < n implies at_least(greatest(data, n), #[trigger] data[k]) by {
            if k < n - 1 {
                assert(at_least(ma, data[k]));
                if below(ma, v) {
                    assert(at_least(v, ma));
                }
            }
        }
        (
            if below(v, mi) {
                n - 1
            } else {
                i
            },
            if below(ma, v) {
                n - 1
            } else {
                j
            },
        )
    }
}

/// The matte grows with saliency and spans the range, whatever the number of values: a value that
/// is at least as great as another gets at least its level, the least value gets level 0 and,
/// where the values differ by more than a millionth, the greatest gets level 255.
pub proof fn law_mattes_grow_with_saliency<R: Number>(data: Seq<R>, i: int, j: int)
    requires
        ordered::<R>(),
        keeps_all::<R>(),
        0 <= i < data.len(),
        0 <= j < data.len(),
        forall|k: int| 0 <= k < data.len() ==> finite(#[trigger] data[k]),
        forall|k: int, l: int|
            0 <= k < data.len() && 0 <= l < data.len() ==> finite(
                difference_of(#[trigger] data[k], #[trigger] data[l]),
            ),
    ensures
        matte_of(data).len() == data.len(),
        at_least(data[i], data[j]) ==> matte_of(data)[i] >= matte_of(data)[j],
        (forall|k: int| 0 <= k < data.len() ==> at_least(#[trigger] data[k], data[i]))
            ==> matte_of(data)[i] == 0,
        (forall|k: int| 0 <= k < data.len() ==> at_least(data[i], #[trigger] data[k])) && below(
            ratio_of(1, 1_000_000),
            difference_of(data[i], data[j]),
        ) ==> matte_of(data)[i] == 255,
{
    let n = data.len() as int;
    let (p, q) = lemma_extremes(data, n);
    let (mi, ma) = (data[p], data[q]);
    let floor: R = ratio_of(1, 1_000_000);
    let zero: R = whole_of(0);
    let top: R = whole_of(255);
    let width = difference_of(ma, mi);
    let range = span(data);
    lemma_ratio::<R>(1, 1_000_000);
    lemma_wholes::<R>(0, 255);
    lemma_finite(width, floor);
    lemma_finite(floor, floor);
    lemma_extreme(width, floor);
    lemma_order(zero, floor, range);
    let (di, dj) = (difference_of(data[i], mi), difference_of(data[j], mi));
    let (qi, qj) = (quotient_of(di, range), quotient_of(dj, range));
    let (li, lj) = (product_of(qi, top), product_of(qj, top));
    lemma_finite(di, range);
    lemma_finite(dj, range);
    lemma_scaled(qi, top);
    lemma_scaled(qj, top);
    assert(matte_of(data)[i] == round_byte_of(li));
    assert(matte_of(data)[j] == round_byte_of(lj));
    if at_least(data[i], data[j]) {
        lemma_difference_order(data[i], data[j], mi);
        lemma_quotient_order(di, dj, range);
        lemma_product_order(qi, qj, top);
        lemma_rounding(li, lj);
    }
    if forall|k: int| 0 <= k < data.len() ==> at_least(#[trigger] data[k], data[i]) {
        assert(at_least(data[p], data[i]));
        assert(at_least(data[i], mi));
        lemma_no_difference(data[i], mi);
        lemma_zero(di, range);
        lemma_zero(qi, top);
        lemma_rounding(zero, li);
        lemma_rounded_whole::<R>(0);
    }
    let gap = difference_of(data[i], data[j]);
    if (forall|k: int| 0 <= k < data.len() ==> at_least(data[i], #[trigger] data[k])) && below(
        floor,
        gap,
    ) {
        assert(at_least(data[i], data[q]));
        assert(at_least(data[j], mi));
        assert(finite(gap));
        lemma_finite(gap, gap);
        lemma_difference_order(data[j], mi, data[i]);
        lemma_difference_order(data[i], ma, mi);
        lemma_order(floor, gap, di);
        assert(at_least(ma, data[i]));
        lemma_difference_order(ma, data[i], mi);
        lemma_order(floor, di, width);
        lemma_order(floor, width, floor);
        assert(range == width);
        lemma_once(range);
        lemma_once(top);
        let one: R = whole_of(1);
        lemma_wholes::<R>(0, 1);
        lemma_finite(one, top);
        lemma_quotient_order(di, range, range);
        lemma_product_order(qi, one, top);
        lemma_rounding(li, top);
        lemma_rounded_whole::<R>(255);
    }
}

/// The level at which a threshold cuts off grows with the threshold: none where it is not above
/// zero, at least 1 where it is, and 255 from one on.
pub proof fn law_cutoffs_grow_with_the_threshold<R: Number>(a: R, b: R)
    requires
        ordered::<R>(),
        keeps_all::<R>(),
        at_least(a, b),
    ensures
        cutoff(a) >= cutoff(b),
        cutoff(a) == 0 <==> !below(whole_of::<R>(0), a),
        at_least(a, whole_of::<R>(1)) ==> cutoff(a) == 255,
{
    let (zero, one) = (whole_of::<R>(0), whole_of::<R>(1));
    lemma_rounding(a, b);
    lemma_order(zero, b, a);
    if at_least(a, one) {
        lemma_rounding(a, one);
        lemma_wholes::<R>(0, 1);
        lemma_order(zero, one, a);
        assert(unit_byte_of(one) == 255) by {
            reveal(keeps_rounding);
        }
    }
}

} // verus!
