//! How pixels become the planes of a tensor, and planes become pixels.

use vstd::prelude::*;

use crate::bgremove::{
    greatest, infinity, least, matte_of, normalized, peak_byte, span, Model,
};
use crate::denoise::{cropped, is_padded, law_reflection_mirrors};
use crate::exact::{
    exact, lemma_exact, lemma_exact_ratio, lemma_exact_whole, lemma_prod_cancel, lemma_prod_order,
    lemma_prod_ring, lemma_prod_units, prod,
};
use crate::grid::{lemma_coords, lemma_pixel_index};
use crate::number::{
    difference_of, product_of, quotient_of, ratio_of, round_byte_of, unit_byte_of, whole_of,
    Number,
};
use crate::raster::{alphas_of, colors_of};
use crate::superres::{fraction_of, interleaved, lemma_plane_index, rgb_from};

verus! {

/// A fraction is what 255 times give the byte.
proof fn lemma_fraction<R: Number>(val: spec_fn(R) -> real, b: u8)
    requires
        exact(val),
    ensures
        prod(val(fraction_of::<R>(b)), 255real) == b as int as real,
{
    lemma_exact_whole(val, b as usize);
    lemma_exact_whole(val, 255);
    lemma_exact(val, whole_of::<R>(b as usize), whole_of::<R>(255));
}

/// The tensor for upscaling holds red, green and blue one after the other, each pixel by pixel,
/// as fractions of 255.
pub proof fn law_upscaling_takes_planes<R: Number>(
    val: spec_fn(R) -> real,
    rgba: Seq<u8>,
    hw: int,
    c: int,
    p: int,
)
    requires
        exact(val),
        0 <= c < 3,
        0 <= p < hw,
    ensures
        crate::superres::tensor_of::<R>(rgba, hw).len() == 3 * hw,
        prod(val(crate::superres::tensor_of::<R>(rgba, hw)[c * hw + p]), 255real) == rgba[4 * p
            + c] as int as real,
{
    lemma_plane_index(c, hw, p);
    lemma_fraction(val, rgba[4 * p + c]);
}

/// What upscaling gives for a channel of a pixel is that channel of that pixel, and its alpha goes
/// with it.
pub proof fn law_upscaled_planes_become_pixels<R: Number>(
    data: Seq<R>,
    alpha: Seq<u8>,
    c: int,
    p: int,
)
    requires
        0 <= c < 3,
        0 <= p < alpha.len(),
    ensures
        ({
            let n = alpha.len() as int;
            let out = interleaved(rgb_from(data, n), alpha);
            &&& out.len() == 4 * n
            &&& out[4 * p + c] == unit_byte_of(data[c * n + p])
            &&& out[4 * p + 3] == alpha[p]
        }),
{
    assert((4 * p + c) / 4 == p && (4 * p + c) % 4 == c);
    assert((4 * p + 3) / 4 == p && (4 * p + 3) % 4 == 3);
    assert((3 * p + c) / 3 == p && (3 * p + c) % 3 == c);
}

/// The tensor for denoising holds red, green and blue one after the other, each row by row, as
/// fractions of 255: inside the image its pixels, and beyond an edge what lies as far before it.
pub proof fn law_denoising_takes_padded_planes<R: Number>(
    val: spec_fn(R) -> real,
    rgba: Seq<u8>,
    width: int,
    height: int,
    pw: int,
    ph: int,
    c: int,
    x: int,
    y: int,
)
    requires
        exact(val),
        0 < width <= pw,
        0 < height <= ph,
        0 <= c < 3,
        0 <= x < width,
        0 <= y < height,
    ensures
        ({
            let t = crate::denoise::tensor_of::<R>(rgba, width, height, pw, ph);
            let at = |i: int, j: int| t[c * (pw * ph) + (j * pw + i)];
            &&& t.len() == 3 * (pw * ph)
            &&& prod(val(at(x, y)), 255real) == rgba[4 * (y * width + x) + c] as int as real
            &&& width > 1 && 2 * (width - 1) - x < pw && x > 0 ==> at(2 * (width - 1) - x, y) == at(
                x,
                y,
            )
            &&& height > 1 && 2 * (height - 1) - y < ph && y > 0 ==> at(x, 2 * (height - 1) - y)
                == at(x, y)
        }),
{
    let t = crate::denoise::tensor_of::<R>(rgba, width, height, pw, ph);
    assert(0 < pw * ph) by (nonlinear_arith)
        requires
            0 < pw,
            0 < ph,
    ;
    if width > 1 {
        law_reflection_mirrors(x, width);
        law_reflection_mirrors(width - 1 - x, width);
    }
    if height > 1 {
        law_reflection_mirrors(y, height);
        law_reflection_mirrors(height - 1 - y, height);
    }
    lemma_pixel_index(pw, ph, x, y);
    lemma_plane_index(c, pw * ph, y * pw + x);
    lemma_fraction(val, rgba[4 * (y * width + x) + c]);
    if width > 1 && 2 * (width - 1) - x < pw && x > 0 {
        let i = 2 * (width - 1) - x;
        lemma_pixel_index(pw, ph, i, y);
        lemma_plane_index(c, pw * ph, y * pw + i);
        assert(width - 1 + (width - 1 - x) == i);
    }
    if height > 1 && 2 * (height - 1) - y < ph && y > 0 {
        let j = 2 * (height - 1) - y;
        lemma_pixel_index(pw, ph, x, j);
        lemma_plane_index(c, pw * ph, j * pw + x);
        assert(height - 1 + (height - 1 - y) == j);
    }
}

/// What denoising gives for a channel at a place inside the image is that channel of the pixel
/// there; what it gives beyond the image is dropped.
pub proof fn law_denoised_planes_become_pixels<R: Number>(
    data: Seq<R>,
    pw: int,
    ph: int,
    width: int,
    height: int,
    c: int,
    x: int,
    y: int,
)
    requires
        0 < width <= pw,
        0 < height <= ph,
        0 <= c < 3,
        0 <= x < width,
        0 <= y < height,
    ensures
        cropped(data, pw, ph, width, height).len() == 3 * (width * height),
        cropped(data, pw, ph, width, height)[3 * (y * width + x) + c] == unit_byte_of(
            data[c * (pw * ph) + (y * pw + x)],
        ),
{
    lemma_pixel_index(width, height, x, y);
    let q = y * width + x;
    assert((3 * q + c) / 3 == q && (3 * q + c) % 3 == c);
    lemma_coords(width, height, q);
    vstd::arithmetic::div_mod::lemma_fundamental_div_mod_converse(q, width, y, x);
}

/// The mean that a saliency model takes off channel `c`, in thousandths.
pub open spec fn mean_thousandths(model: Model, c: int) -> real {
    match model {
        Model::U2netp => if c == 0 {
            485real
        } else if c == 1 {
            456real
        } else {
            406real
        },
        Model::Isnet => 500real,
    }
}

/// The deviation that a saliency model divides channel `c` by, in thousandths.
pub open spec fn deviation_thousandths(model: Model, c: int) -> real {
    match model {
        Model::U2netp => if c == 0 {
            229real
        } else if c == 1 {
            224real
        } else {
            225real
        },
        Model::Isnet => 1000real,
    }
}

/// The largest byte of an image, or 1 where all are 0.
proof fn lemma_peak(bytes: Seq<u8>, n: int)
    requires
        0 <= n <= bytes.len(),
    ensures
        peak_byte(bytes, n) >= 1,
        forall|i: int| 0 <= i < n ==> #[trigger] bytes[i] <= peak_byte(bytes, n),
        peak_byte(bytes, n) == 1 || exists|i: int|
            0 <= i < n && #[trigger] bytes[i] == peak_byte(bytes, n),
    decreases n,
{
    if n > 0 {
        lemma_peak(bytes, n - 1);
        let before = peak_byte(bytes, n - 1);
        let now = peak_byte(bytes, n);
        if now != before {
            assert(bytes[n - 1] == now);
        } else if before != 1 {
            let i = choose|i: int| 0 <= i < n - 1 && #[trigger] bytes[i] == before;
            assert(bytes[i] == now);
        }
    }
}

/// The tensor for a saliency model holds red, green and blue one after the other, each pixel by
/// pixel: multiplied with the deviation and with the mean put back, a number is the share that
/// the byte is of the image's largest.
pub proof fn law_saliency_takes_normalized_planes<R: Number>(
    val: spec_fn(R) -> real,
    rgb: Seq<u8>,
    model: Model,
    c: int,
    p: int,
    peak: u8,
)
    requires
        exact(val),
        0 <= c < 3,
        0 <= p < model.input_side() * model.input_side(),
        rgb.len() == 3 * (model.input_side() * model.input_side()),
        peak >= 1,
        forall|i: int| 0 <= i < rgb.len() ==> #[trigger] rgb[i] <= peak,
        exists|i: int| 0 <= i < rgb.len() && #[trigger] rgb[i] == peak,
    ensures
        ({
            let hw = model.input_side() * model.input_side();
            let t = crate::bgremove::tensor_of::<R>(rgb, model);
            let share = prod(val(t[c * hw + p]), deviation_thousandths(model, c))
                + mean_thousandths(model, c);
            &&& t.len() == 3 * hw
            &&& prod(share, peak as int as real) == prod(1000real, rgb[3 * p + c] as int as real)
        }),
{
    let hw = model.input_side() * model.input_side();
    let t = crate::bgremove::tensor_of::<R>(rgb, model);
    lemma_plane_index(c, hw, p);
    lemma_peak(rgb, rgb.len() as int);
    let max = peak_byte(rgb, rgb.len() as int);
    let top = choose|i: int| 0 <= i < rgb.len() && #[trigger] rgb[i] == peak;
    assert(rgb[top] <= max);
    assert(max == peak);
    let byte = rgb[3 * p + c];
    assert(t[c * hw + p] == normalized::<R>(model, c, byte, max));
    lemma_normalized(val, model, c, byte, max);
}

proof fn lemma_normalized<R: Number>(
    val: spec_fn(R) -> real,
    model: Model,
    c: int,
    byte: u8,
    max: u8,
)
    requires
        exact(val),
        0 <= c < 3,
        max >= 1,
    ensures
        prod(
            prod(val(normalized::<R>(model, c, byte, max)), deviation_thousandths(model, c))
                + mean_thousandths(model, c),
            max as int as real,
        ) == prod(1000real, byte as int as real),
{
    let (b, m) = (whole_of::<R>(byte as usize), whole_of::<R>(max as usize));
    let v = quotient_of(b, m);
    let (mean, dev) = (model.channel_mean::<R>(c), model.channel_std::<R>(c));
    let d = difference_of(v, mean);
    lemma_exact_whole(val, byte as usize);
    lemma_exact_whole(val, max as usize);
    lemma_exact(val, b, m);
    lemma_exact_ratio::<R>(val, 485, 1000);
    lemma_exact_ratio::<R>(val, 456, 1000);
    lemma_exact_ratio::<R>(val, 406, 1000);
    lemma_exact_ratio::<R>(val, 229, 1000);
    lemma_exact_ratio::<R>(val, 224, 1000);
    lemma_exact_ratio::<R>(val, 225, 1000);
    lemma_exact_ratio::<R>(val, 1, 2);
    lemma_exact_ratio::<R>(val, 1, 1);
    assert(1000real * val(mean) == mean_thousandths(model, c)) by {
        reveal(prod);
    }
    assert(1000real * val(dev) == deviation_thousandths(model, c)) by {
        reveal(prod);
    }
    lemma_exact(val, v, mean);
    lemma_exact(val, d, dev);
    let n = val(normalized::<R>(model, c, byte, max));
    assert(prod(n, val(dev)) == val(v) - val(mean));
    lemma_thousand(n, val(dev));
    assert(prod(n, deviation_thousandths(model, c)) == 1000real * prod(n, val(dev)));
    let share = prod(n, deviation_thousandths(model, c)) + mean_thousandths(model, c);
    assert(share == 1000real * val(v));
    lemma_thousand(val(m), val(v));
    lemma_prod_ring(share, val(m), share);
    lemma_prod_ring(val(v), val(m), share);
    assert(prod(1000real, byte as int as real) == 1000real * (byte as int as real)) by {
        reveal(prod);
    }
}

/// A thousand times one factor is a thousand times the product.
proof fn lemma_thousand(a: real, b: real)
    ensures
        prod(a, 1000real * b) == 1000real * prod(a, b),
{
    lemma_thousand_raw(a, b);
    reveal(prod);
}

proof fn lemma_thousand_raw(a: real, b: real)
    by (nonlinear_arith)
    ensures
        a * (1000real * b) == 1000real * (a * b),
{
}

/// An image is its colours and its alpha: put together again, they are the image.
pub proof fn law_alpha_comes_off_and_on(rgba: Seq<u8>, n: int)
    requires
        0 <= n,
        4 * n <= rgba.len(),
    ensures
        colors_of(rgba, n).len() == 3 * n,
        alphas_of(rgba, n).len() == n,
        interleaved(colors_of(rgba, n), alphas_of(rgba, n)) == rgba.take(4 * n),
{
    let out = interleaved(colors_of(rgba, n), alphas_of(rgba, n));
    assert forall|k: int| 0 <= k < 4 * n implies #[trigger] out[k] == rgba[k] by {
        let (p, c) = (k / 4, k % 4);
        if c < 3 {
            assert((3 * p + c) / 3 == p && (3 * p + c) % 3 == c);
        }
    }
    assert(out =~= rgba.take(4 * n));
}

/// A padded side is the next multiple of 64: it is one, it is no shorter than the side, and the
/// multiple before it is.
pub proof fn law_padding_goes_to_the_next_64(v: int, p: int)
    requires
        is_padded(v, p),
    ensures
        p % 64 == 0,
        v <= p,
        p - 64 < v,
        v % 64 == 0 ==> p == v,
{
}

/// The least and the greatest of some numbers that infinity is beyond.
proof fn lemma_range<R: Number>(val: spec_fn(R) -> real, data: Seq<R>, n: int)
    requires
        exact(val),
        0 < n <= data.len(),
        forall|k: int| 0 <= k < data.len() ==> is_bounded(val, #[trigger] data[k]),
    ensures
        exists|i: int| 0 <= i < n && least(data, n) == #[trigger] data[i],
        exists|i: int| 0 <= i < n && greatest(data, n) == #[trigger] data[i],
        forall|k: int| 0 <= k < n ==> val(least(data, n)) <= val(#[trigger] data[k]),
        forall|k: int| 0 <= k < n ==> val(#[trigger] data[k]) <= val(greatest(data, n)),
    decreases n,
{
    let v = data[n - 1];
    let (mi, ma) = (least(data, n - 1), greatest(data, n - 1));
    lemma_exact(val, v, mi);
    lemma_exact(val, ma, v);
    if n == 1 {
        lemma_exact_whole(val, 0);
        lemma_exact(val, whole_of::<R>(0), infinity::<R>());
        assert(is_bounded(val, data[0]));
        assert(least(data, 1) == data[0] && greatest(data, 1) == data[0]);
    } else {
        lemma_range(val, data, n - 1);
        let i = choose|i: int| 0 <= i < n - 1 && mi == #[trigger] data[i];
        let j = choose|j: int| 0 <= j < n - 1 && ma == #[trigger] data[j];
        assert(least(data, n) == data[i] || least(data, n) == data[n - 1]);
        assert(greatest(data, n) == data[j] || greatest(data, n) == data[n - 1]);
    }
}

/// The number lies between the infinities.
pub open spec fn is_bounded<R: Number>(val: spec_fn(R) -> real, x: R) -> bool {
    0real - val(infinity::<R>()) < val(x) < val(infinity::<R>())
}

/// Numbers from 0 to 255 are rounded to the byte next to them.
pub open spec fn rounds_bytes<R: Number>(val: spec_fn(R) -> real) -> bool {
    forall|x: R|
        #![trigger round_byte_of(x)]
        0real <= val(x) <= 255real ==> 2real * (round_byte_of(x) as int as real) - 1real <= 2real
            * val(x) <= 2real * (round_byte_of(x) as int as real) + 1real
}

/// The matte is linear in saliency: between the least value and the greatest, which differ by more
/// than a millionth, a value's level is to 255, within half a level, what its distance from the
/// least is to that of the greatest.
pub proof fn law_mattes_are_linear<R: Number>(
    val: spec_fn(R) -> real,
    data: Seq<R>,
    i: int,
    lo: int,
    hi: int,
)
    requires
        exact(val),
        rounds_bytes(val),
        0 <= i < data.len(),
        0 <= lo < data.len(),
        0 <= hi < data.len(),
        forall|k: int| 0 <= k < data.len() ==> is_bounded(val, #[trigger] data[k]),
        forall|k: int|
            0 <= k < data.len() ==> val(data[lo]) <= val(#[trigger] data[k]) <= val(data[hi]),
        1000000real * (val(data[hi]) - val(data[lo])) > 1real,
    ensures
        ({
            let range = val(data[hi]) - val(data[lo]);
            let twice = 2real * (matte_of(data)[i] as int as real);
            prod(twice - 1real, range) <= 510real * (val(data[i]) - val(data[lo])) <= prod(
                twice + 1real,
                range,
            )
        }),
{
    let n = data.len() as int;
    lemma_range(val, data, n);
    let (mi, ma) = (least(data, n), greatest(data, n));
    let p = choose|p: int| 0 <= p < n && mi == #[trigger] data[p];
    let q = choose|q: int| 0 <= q < n && ma == #[trigger] data[q];
    assert(val(data[lo]) <= val(data[p]) && val(mi) <= val(data[lo]));
    assert(val(data[q]) <= val(data[hi]) && val(data[hi]) <= val(ma));
    let floor: R = ratio_of(1, 1_000_000);
    lemma_exact_ratio::<R>(val, 1, 1_000_000);
    assert(1000000real * val(floor) == 1real) by {
        reveal(prod);
    }
    let width = difference_of(ma, mi);
    lemma_exact(val, ma, mi);
    lemma_exact(val, width, floor);
    let range = span(data);
    let r = val(range);
    assert(r == val(data[hi]) - val(data[lo]));
    let d = difference_of(data[i], mi);
    lemma_exact(val, data[i], mi);
    let share = quotient_of(d, range);
    lemma_exact(val, d, range);
    let top = whole_of::<R>(255);
    lemma_exact_whole(val, 255);
    let x = product_of(share, top);
    lemma_exact(val, share, top);
    assert(matte_of(data)[i] == round_byte_of(x));
    let s = val(share);
    assert(0real <= val(d) <= r);
    lemma_prod_units(r);
    lemma_prod_cancel(0real, s, r);
    lemma_prod_cancel(s, 1real, r);
    assert(val(x) == 255real * s) by {
        reveal(prod);
    }
    let twice = 2real * (matte_of(data)[i] as int as real);
    assert(twice - 1real <= 510real * s <= twice + 1real);
    lemma_prod_order(twice - 1real, 510real * s, r);
    lemma_prod_order(510real * s, twice + 1real, r);
    assert(prod(510real * s, r) == 510real * prod(s, r)) by {
        lemma_times_510(s, r);
        reveal(prod);
    }
}

proof fn lemma_times_510(a: real, b: real)
    by (nonlinear_arith)
    ensures
        (510real * a) * b == 510real * (a * b),
{
}

} // verus!
