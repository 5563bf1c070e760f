//! Resampling of byte images.

use vstd::prelude::*;

verus! {

/// The resampling filters in use.
#[derive(Debug, Clone, Copy, PartialEq, Eq, Structural)]
pub enum Filter {
    Triangle,
    Lanczos3,
}

/// `out` is an outcome of resampling the `channels`-channel image `src` of `w` by `h` pixels to
/// `nw` by `nh` pixels with `image::imageops::resize`, using the Lanczos filter or else the
/// triangle filter.
///
/// Which outcome comes is left to the machine: the Lanczos kernel goes through `f32::sin`,
/// whose last bits may differ from platform to platform.
pub uninterp spec fn resampled(
    channels: int,
    src: Seq<u8>,
    w: int,
    h: int,
    nw: int,
    nh: int,
    lanczos: bool,
    out: Seq<u8>,
) -> bool;

/// Up to this length pixel positions are precise enough in single precision for every output
/// pixel to have a source pixel of non-zero weight.
pub const MAX_SIDE: usize = 0x10_0000;

/// A side can be resampled from one length to another: neither is zero or too long for 32 bits,
/// and the source is no longer than [`MAX_SIDE`], or else it is made shorter than that. (Where a
/// side is made shorter, what an output pixel takes in grows with the source, and with it what
/// may be lost in precision.)
pub open spec fn side_fits(from: int, to: int) -> bool {
    &&& 1 <= from <= u32::MAX
    &&& 1 <= to <= u32::MAX
    &&& from <= MAX_SIDE || (to <= from && to <= MAX_SIDE)
}

/// An image of `w` by `h` pixels can be resampled to `nw` by `nh` pixels: both sides can, and
/// the buffers that this takes can be addressed: source and result of at most four bytes a
/// pixel, and between them `w` by `nh` pixels of four single-precision numbers each.
pub open spec fn can_resample(w: int, h: int, nw: int, nh: int) -> bool {
    &&& side_fits(w, nw)
    &&& side_fits(h, nh)
    &&& 4 * (w * h) <= isize::MAX
    &&& 16 * (w * nh) <= isize::MAX
    &&& 4 * (nw * nh) <= isize::MAX
}

fn side_ok(from: usize, to: usize) -> (r: bool)
    ensures
        r == side_fits(from as int, to as int),
{
    1 <= from && from as u64 <= u32::MAX as u64 && 1 <= to && to as u64 <= u32::MAX as u64 && (from
        <= MAX_SIDE || (to <= from && to <= MAX_SIDE))
}

/// Whether an image of `w` by `h` pixels can be resampled to `nw` by `nh` pixels.
pub fn fits(w: usize, h: usize, nw: usize, nh: usize) -> (r: bool)
    ensures
        r == can_resample(w as int, h as int, nw as int, nh as int),
{
    if !side_ok(w, nw) || !side_ok(h, nh) {
        return false;
    }
    proof {
        let limit: int = 0x1_0000_0000;
        assert(0 <= w * h <= limit * limit && 0 <= w * nh <= limit * limit && 0 <= nw * nh <= limit
            * limit) by (nonlinear_arith)
            requires
                0 <= w <= limit,
                0 <= h <= limit,
                0 <= nw <= limit,
                0 <= nh <= limit,
        ;
        assert(limit * limit == 0x1_0000_0000_0000_0000) by (nonlinear_arith)
            requires
                limit == 0x1_0000_0000,
        ;
    }
    let source: u128 = w as u128 * h as u128;
    let between: u128 = w as u128 * nh as u128;
    let result: u128 = nw as u128 * nh as u128;
    let room: u128 = isize::MAX as u128;
    4 * source <= room && 16 * between <= room && 4 * result <= room
}

/// If all bytes of `src` are one value, all bytes of `out` are that value.
pub open spec fn keeps_plain(src: Seq<u8>, out: Seq<u8>) -> bool {
    (forall|i: int| 0 <= i < src.len() ==> #[trigger] src[i] == src[0]) ==> forall|j: int|
        0 <= j < out.len() ==> #[trigger] out[j] == src[0]
}

/// `image::imageops::resize` on an image of three bytes a pixel.
///
/// The result has the new size; where that is the old size it is a copy; and it is an outcome
/// of resampling these bytes (see [`resampled`]).
#[verifier::external_body]
pub(crate) fn resize_rgb(
    src: Vec<u8>,
    w: usize,
    h: usize,
    nw: usize,
    nh: usize,
    filter: Filter,
) -> (out: Vec<u8>)
    requires
        can_resample(w as int, h as int, nw as int, nh as int),
        src@.len() == 3 * (w * h),
    ensures
        out@.len() == 3 * (nw * nh),
        w == nw && h == nh ==> out@ == src@,
        resampled(3, src@, w as int, h as int, nw as int, nh as int, filter is Lanczos3, out@),
{
    let kind = match filter {
        Filter::Triangle => image::imageops::FilterType::Triangle,
        Filter::Lanczos3 => image::imageops::FilterType::Lanczos3,
    };
    let view = image::ImageBuffer::<image::Rgb<u8>, Vec<u8>>::from_raw(w as u32, h as u32, src);
    image::imageops::resize(&view.unwrap(), nw as u32, nh as u32, kind).into_raw()
}

/// `image::imageops::resize` on an image of one byte a pixel.
///
/// The result has the new size; where that is the old size it is a copy; and it is an outcome
/// of resampling these bytes (see [`resampled`]). Where no side is made shorter, a plane of one
/// value keeps that value: either pass takes at most seven source pixels into one of the result,
/// with weights that are divided by their sum, so that what is lost in single precision is far
/// less than half a level before the result is rounded.
#[verifier::external_body]
pub(crate) fn resize_luma(
    src: Vec<u8>,
    w: usize,
    h: usize,
    nw: usize,
    nh: usize,
    filter: Filter,
) -> (out: Vec<u8>)
    requires
        can_resample(w as int, h as int, nw as int, nh as int),
        src@.len() == w * h,
    ensures
        out@.len() == nw * nh,
        w == nw && h == nh ==> out@ == src@,
        w <= nw && h <= nh ==> keeps_plain(src@, out@),
        resampled(1, src@, w as int, h as int, nw as int, nh as int, filter is Lanczos3, out@),
{
    let kind = match filter {
        Filter::Triangle => image::imageops::FilterType::Triangle,
        Filter::Lanczos3 => image::imageops::FilterType::Lanczos3,
    };
    let view = image::ImageBuffer::<image::Luma<u8>, Vec<u8>>::from_raw(w as u32, h as u32, src);
    image::imageops::resize(&view.unwrap(), nw as u32, nh as u32, kind).into_raw()
}

} // verus!
