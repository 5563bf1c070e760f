//! Class-agnostic "segment everything".
//!
//! Given an RGBA raster a set of instance masks is returned (one per detected
//! object), which the tracer turns into per-object SVG layers.
//!
//! letterbox → `[1,3,S,S]` → model → (detections + mask prototypes) → confidence
//! filter → NMS → per-detection mask = sigmoid(coeffs · prototypes), cropped to
//! its box and mapped back to the original resolution. Shapes are read at runtime
//! so a 640- or 1024-input export, and either channel order of the detections,
//! both work. Running the model is left to the caller.

use vstd::prelude::*;
use vstd::slice::slice_to_vec;

use crate::detect::{det_views, kept_by_nms, law_nms_keeps_the_best, nms, Det, DetView};
use crate::grid::lemma_pixel_index;
use crate::number::{
    at_least, below, ceil_int_of, consistent, difference_of, exp_neg_of, floor_index_of, lesser_of,
    product_of, quotient_of, rank_of, ranked, round_index_of, sum_of, trunc_count_of,
    trunc_index_of, whole_of,
};
use crate::number::{
    ceil_int, exp_neg, floor_index, from_index, is_at_least, is_below, lesser, minus, over, plus,
    round_index, times, trunc_count, trunc_index, Number,
};
use crate::order::{before, is_stable_order, lemma_order_exists, sort_indices, stable_order};
use crate::outputs::{
    element, layout_fits, layout_of, lens_of, position, read_layout, shapes_of, Layout, LayoutError,
};
use crate::raster::{colors_of, pixel_count, raster_error, strip_alpha, RasterError};
use crate::resample::{can_resample, resampled, resize_rgb, Filter};
use crate::superres::{fraction, fraction_of, lemma_plane_index};

verus! {

/// Fallback input side when the model declares a dynamic input.
pub const DEFAULT_SIDE: usize = 1024;

/// Gray letterbox padding (YOLO convention).
pub const PAD: u8 = 114;

#[derive(Debug, Clone)]
pub struct SegConfig<R> {
    /// Minimum detection confidence to keep (0..1).
    pub conf: R,
    /// IoU threshold for non-max suppression.
    pub iou: R,
    /// Hard cap on returned objects (after NMS, largest first).
    pub max_objects: usize,
    /// Sigmoid cutoff for turning a soft prototype mask into a binary mask.
    pub mask_threshold: R,
    /// Drop masks smaller than this fraction of the image (speckle objects).
    pub min_area_frac: R,
}

impl<R: Number> Default for SegConfig<R> {
    fn default() -> (cfg: Self)
        ensures
            call_ensures(R::ratio, (4, 10), cfg.conf),
            call_ensures(R::ratio, (7, 10), cfg.iou),
            cfg.max_objects == 48,
            call_ensures(R::ratio, (1, 2), cfg.mask_threshold),
            call_ensures(R::ratio, (8, 10_000), cfg.min_area_frac),
    {
        SegConfig {
            conf: R::ratio(4, 10),
            iou: R::ratio(7, 10),
            max_objects: 48,
            mask_threshold: R::ratio(1, 2),
            min_area_frac: R::ratio(8, 10_000),
        }
    }
}

/// One detected object.
pub struct Instance<R> {
    /// `width*height` binary mask (1 = object) at the original resolution.
    pub mask: Vec<u8>,
    /// Bounding box in original pixels: (x1, y1, x2, y2), inclusive-exclusive.
    pub bbox: (u32, u32, u32, u32),
    pub score: R,
    /// Number of set pixels in `mask`.
    pub area: u32,
}

/// An instance as its mask, box, score and area.
pub type InstanceView<R> = (Seq<u8>, (u32, u32, u32, u32), R, u32);

impl<R> View for Instance<R> {
    type V = InstanceView<R>;

    open spec fn view(&self) -> InstanceView<R> {
        (self.mask@, self.bbox, self.score, self.area)
    }
}

/// The views of some instances.
pub open spec fn instance_views<R>(instances: Seq<Instance<R>>) -> Seq<InstanceView<R>> {
    instances.map_values(|i: Instance<R>| i@)
}

/// Why an image could not be segmented; `E` is what the model runner reports.
#[derive(Debug)]
pub enum SegError<E> {
    /// The buffer is no image of the given size.
    Raster(RasterError),
    /// The model could not be run.
    Model(E),
    /// The model's outputs cannot be used.
    Layout(LayoutError),
}

/// Input side: honor a static model shape, else fall back to the default.
pub fn input_side(declared: Option<&[i64]>) -> (side: usize)
    ensures
        side == match declared {
            Some(shape) => if shape@.len() > 0 && 0 < shape@.last() <= usize::MAX {
                shape@.last() as int
            } else {
                DEFAULT_SIDE as int
            },
            None => DEFAULT_SIDE as int,
        },
        side > 0,
{
    match declared {
        Some(shape) => {
            let n: usize = shape.len();
            if n > 0 && shape[n - 1] > 0 && shape[n - 1] as u128 <= usize::MAX as u128 {
                shape[n - 1] as usize
            } else {
                DEFAULT_SIDE
            }
        },
        None => DEFAULT_SIDE,
    }
}

/// How an image is placed on the square canvas.
pub struct Placement<R> {
    /// Canvas pixels per image pixel.
    pub scale: R,
    /// The size of the image on the canvas.
    pub nw: usize,
    pub nh: usize,
    /// Where the image starts on the canvas.
    pub padx: usize,
    pub pady: usize,
}

/// `v` pulled into `[lo, hi]`.
pub open spec fn clamped(v: int, lo: int, hi: int) -> int {
    if v < lo {
        lo
    } else if v > hi {
        hi
    } else {
        v
    }
}

/// The scale at which an image of `w` by `h` pixels just fits a canvas.
pub open spec fn fit_scale<R: Number>(w: usize, h: usize, side: usize) -> R {
    lesser_of(
        quotient_of(whole_of::<R>(side), whole_of::<R>(w)),
        quotient_of(whole_of::<R>(side), whole_of::<R>(h)),
    )
}

/// The length of an image side on the canvas.
pub open spec fn fit_side<R: Number>(v: usize, scale: R, side: usize) -> int {
    clamped(round_index_of(product_of(whole_of::<R>(v), scale)) as int, 1, side as int)
}

/// How an image of `w` by `h` pixels is placed: scaled to fit, and centred.
pub open spec fn is_placement<R: Number>(w: usize, h: usize, side: usize, p: Placement<R>) -> bool {
    &&& p.scale == fit_scale::<R>(w, h, side)
    &&& p.nw == fit_side(w, p.scale, side)
    &&& p.nh == fit_side(h, p.scale, side)
    &&& p.padx == (side - p.nw) / 2
    &&& p.pady == (side - p.nh) / 2
}

/// How an image is placed on the canvas.
pub fn place<R: Number>(w: usize, h: usize, side: usize) -> (p: Placement<R>)
    requires
        consistent::<R>(),
        side >= 1,
    ensures
        is_placement(w, h, side, p),
        1 <= p.nw <= side,
        1 <= p.nh <= side,
        p.padx + p.nw <= side,
        p.pady + p.nh <= side,
{
    let scale: R = lesser(
        over(from_index(side), from_index(w)),
        over(from_index(side), from_index(h)),
    );
    let nw: usize = clamp_side(round_index(times(from_index(w), scale)), side);
    let nh: usize = clamp_side(round_index(times(from_index(h), scale)), side);
    Placement { scale, nw, nh, padx: (side - nw) / 2, pady: (side - nh) / 2 }
}

fn clamp_side(v: usize, side: usize) -> (r: usize)
    requires
        side >= 1,
    ensures
        r == clamped(v as int, 1, side as int),
{
    if v < 1 {
        1
    } else if v > side {
        side
    } else {
        v
    }
}

/// The byte of channel `c` at `(x, y)` of the canvas.
pub open spec fn canvas_byte<R>(small: Seq<u8>, p: Placement<R>, x: int, y: int, c: int) -> u8 {
    if p.padx <= x < p.padx + p.nw && p.pady <= y < p.pady + p.nh {
        small[3 * ((y - p.pady) * p.nw + (x - p.padx)) + c]
    } else {
        PAD
    }
}

/// The model's input: the resampled image on the gray canvas, one plane per channel.
pub open spec fn canvas_of<R: Number>(small: Seq<u8>, p: Placement<R>, side: int) -> Seq<R> {
    let hw = side * side;
    Seq::new(
        (3 * hw) as nat,
        |k: int|
            fraction_of::<R>(canvas_byte(small, p, (k % hw) % side, (k % hw) / side, k / hw)),
    )
}

/// Puts the resampled image on the gray canvas.
pub fn fill_canvas<R: Number>(small: &[u8], p: &Placement<R>, side: usize) -> (t: Vec<R>)
    requires
        consistent::<R>(),
        side >= 1,
        3 * (side * side) <= usize::MAX,
        p.padx + p.nw <= side,
        p.pady + p.nh <= side,
        small@.len() == 3 * (p.nw * p.nh),
    ensures
        t@ == canvas_of(small@, *p, side as int),
{
    let len: usize = small.len();
    let ghost whole = canvas_of(small@, *p, side as int);
    let ghost hw = side * side;
    assert(0 < side * side) by (nonlinear_arith)
        requires
            side >= 1,
    ;
    let mut t: Vec<R> = Vec::new();
    let mut c: usize = 0;
    while c < 3
        invariant
            consistent::<R>(),
            len == small@.len(),
            side >= 1,
            hw == side * side,
            0 < hw,
            p.padx + p.nw <= side,
            p.pady + p.nh <= side,
            len == 3 * (p.nw * p.nh),
            whole == canvas_of(small@, *p, side as int),
            c <= 3,
            t@ == whole.take(c * hw),
        decreases 3 - c,
    {
        let mut y: usize = 0;
        while y < side
            invariant
                consistent::<R>(),
                len == small@.len(),
                side >= 1,
                hw == side * side,
                0 < hw,
                p.padx + p.nw <= side,
                p.pady + p.nh <= side,
                len == 3 * (p.nw * p.nh),
                whole == canvas_of(small@, *p, side as int),
                c < 3,
                y <= side,
                t@ == whole.take(c * hw + y * side),
            decreases side - y,
        {
            let mut x: usize = 0;
            while x < side
                invariant
                    consistent::<R>(),
                    len == small@.len(),
                    side >= 1,
                    hw == side * side,
                    0 < hw,
                    p.padx + p.nw <= side,
                    p.pady + p.nh <= side,
                    len == 3 * (p.nw * p.nh),
                    whole == canvas_of(small@, *p, side as int),
                    c < 3,
                    y < side,
                    x <= side,
                    t@ == whole.take(c * hw + y * side + x),
                decreases side - x,
            {
                let byte: u8 = if p.padx <= x && x < p.padx + p.nw && p.pady <= y && y < p.pady
                    + p.nh {
                    proof {
                        lemma_pixel_index(p.nw as int, p.nh as int, x - p.padx, y - p.pady);
                    }
                    small[3 * ((y - p.pady) * p.nw + (x - p.padx)) + c]
                } else {
                    PAD
                };
                let v: R = fraction(byte);
                t.push(v);
                proof {
                    lemma_pixel_index(side as int, side as int, x as int, y as int);
                    lemma_plane_index(c as int, hw, y * side + x);
                    let k = c * hw + (y * side + x);
                    assert(c * hw + y * side + x == k);
                    assert(byte == canvas_byte(small@, *p, x as int, y as int, c as int));
                    assert(whole[k] == v);
                    assert(whole.take(k + 1) =~= whole.take(k).push(v));
                }
                x = x + 1;
            }
            assert((y + 1) * side == y * side + side) by (nonlinear_arith);
            y = y + 1;
        }
        assert(c * hw + side * side == (c + 1) * hw) by (nonlinear_arith)
            requires
                hw == side * side,
        ;
        c = c + 1;
    }
    assert(whole.take(3 * hw) =~= whole);
    t
}

/// `t` is the canvas with the image on it, which has been resampled to `small`.
pub open spec fn is_letterbox<R: Number>(
    rgba: Seq<u8>,
    w: int,
    h: int,
    side: int,
    p: Placement<R>,
    small: Seq<u8>,
    t: Seq<R>,
) -> bool {
    &&& small.len() == 3 * (p.nw * p.nh)
    &&& resampled(3, colors_of(rgba, w * h), w, h, p.nw as int, p.nh as int, false, small)
    &&& t == canvas_of(small, p, side)
}

/// Resize+pad an RGBA image into a square `side` RGB tensor (NCHW, /255), and
/// return the placement needed to map model coords back to original.
pub fn letterbox<R: Number>(rgba: &[u8], w: usize, h: usize, side: usize) -> (r: (
    Vec<R>,
    Placement<R>,
))
    requires
        consistent::<R>(),
        4 * (w * h) <= rgba@.len(),
        can_resample(w as int, h as int, side as int, side as int),
    ensures
        is_placement(w, h, side, r.1),
        exists|small: Seq<u8>|
            is_letterbox(rgba@, w as int, h as int, side as int, r.1, small, r.0@),
{
    let len: usize = rgba.len();
    let p: Placement<R> = place(w, h, side);
    proof {
        assert(0 <= w * h) by (nonlinear_arith);
        let (nw, nh, s) = (p.nw as int, p.nh as int, side as int);
        assert(w * nh <= w * s && nw * nh <= s * s) by (nonlinear_arith)
            requires
                0 <= w,
                1 <= nw <= s,
                1 <= nh <= s,
        ;
    }
    let rgb: Vec<u8> = strip_alpha(rgba, w * h);
    let small: Vec<u8> = resize_rgb(rgb, w, h, p.nw, p.nh, Filter::Triangle);
    let t: Vec<R> = fill_canvas(small.as_slice(), &p, side);
    let r: (Vec<R>, Placement<R>) = (t, p);
    assert(is_letterbox(rgba@, w as int, h as int, side as int, r.1, small@, r.0@));
    r
}

/// The detection at anchor `a`: a box given by its centre and size, a score, and the mask
/// coefficients.
pub open spec fn det_at<R: Number>(data: Seq<R>, layout: Layout, a: int) -> DetView<R> {
    let cx = data[position(layout, 0, a)];
    let cy = data[position(layout, 1, a)];
    let hw = quotient_of(data[position(layout, 2, a)], whole_of::<R>(2));
    let hh = quotient_of(data[position(layout, 3, a)], whole_of::<R>(2));
    (
        (difference_of(cx, hw), difference_of(cy, hh), sum_of(cx, hw), sum_of(cy, hh)),
        data[position(layout, 4, a)],
        Seq::new(layout.proto_c as nat, |k: int| data[position(layout, 5 + k, a)]),
    )
}

/// Those of the first `n` detections that are not below the confidence threshold.
pub open spec fn confident<R: Number>(data: Seq<R>, layout: Layout, conf: R, n: int) -> Seq<
    DetView<R>,
>
    decreases n,
{
    if n <= 0 {
        Seq::empty()
    } else {
        let before = confident(data, layout, conf, n - 1);
        if below(data[position(layout, 4, n - 1)], conf) {
            before
        } else {
            before.push(det_at(data, layout, n - 1))
        }
    }
}

fn read_det<R: Number>(data: &Vec<R>, layout: Layout, a: usize, Ghost(lens): Ghost<Seq<int>>) -> (d:
    Det<R>)
    requires
        consistent::<R>(),
        layout_fits(layout, lens),
        lens[layout.det as int] == data@.len(),
        a < layout.anchors,
    ensures
        d@ == det_at(data@, layout, a as int),
{
    let cx: R = element(layout, data, 0, a, Ghost(lens));
    let cy: R = element(layout, data, 1, a, Ghost(lens));
    let bw: R = element(layout, data, 2, a, Ghost(lens));
    let bh: R = element(layout, data, 3, a, Ghost(lens));
    let score: R = element(layout, data, 4, a, Ghost(lens));
    let two: R = from_index(2);
    let hw: R = over(bw, two);
    let hh: R = over(bh, two);
    let ghost goal = det_at(data@, layout, a as int).2;
    let mut coeffs: Vec<R> = Vec::new();
    let mut k: usize = 0;
    while k < layout.proto_c
        invariant
            layout_fits(layout, lens),
            lens[layout.det as int] == data@.len(),
            a < layout.anchors,
            goal == det_at(data@, layout, a as int).2,
            k <= layout.proto_c,
            coeffs@ == goal.take(k as int),
        decreases layout.proto_c - k,
    {
        let x: R = element(layout, data, 5 + k, a, Ghost(lens));
        coeffs.push(x);
        assert(goal.take(k + 1) =~= goal.take(k as int).push(x));
        k = k + 1;
    }
    assert(goal.take(layout.proto_c as int) =~= goal);
    Det {
        x1: minus(cx, hw),
        y1: minus(cy, hh),
        x2: plus(cx, hw),
        y2: plus(cy, hh),
        score,
        coeffs,
    }
}

/// Collect detections above the confidence threshold.
fn collect_dets<R: Number>(
    data: &Vec<R>,
    layout: Layout,
    conf: R,
    Ghost(lens): Ghost<Seq<int>>,
) -> (dets: Vec<Det<R>>)
    requires
        consistent::<R>(),
        layout_fits(layout, lens),
        lens[layout.det as int] == data@.len(),
    ensures
        det_views(dets@) == confident(data@, layout, conf, layout.anchors as int),
{
    let mut dets: Vec<Det<R>> = Vec::new();
    let mut a: usize = 0;
    assert(det_views(dets@) =~= Seq::<DetView<R>>::empty());
    while a < layout.anchors
        invariant
            consistent::<R>(),
            layout_fits(layout, lens),
            lens[layout.det as int] == data@.len(),
            a <= layout.anchors,
            det_views(dets@) == confident(data@, layout, conf, a as int),
        decreases layout.anchors - a,
    {
        let score: R = element(layout, data, 4, a, Ghost(lens));
        if !is_below(score, conf) {
            let d: Det<R> = read_det(data, layout, a, Ghost(lens));
            let ghost before = dets@;
            dets.push(d);
            assert(det_views(dets@) =~= det_views(before).push(d@));
        }
        a = a + 1;
    }
    dets
}

/// The logistic function.
pub open spec fn sigmoid_of<R: Number>(x: R) -> R {
    quotient_of(whole_of::<R>(1), sum_of(whole_of::<R>(1), exp_neg_of(x)))
}

pub fn sigmoid<R: Number>(x: R) -> (y: R)
    requires
        consistent::<R>(),
    ensures
        y == sigmoid_of(x),
{
    over(from_index(1), plus(from_index(1), exp_neg(x)))
}

/// The first `k` coefficients times the prototypes' values at cell `i`, added up in order.
pub open spec fn blended<R: Number>(
    coeffs: Seq<R>,
    protos: Seq<R>,
    hw: int,
    i: int,
    k: int,
) -> R
    decreases k,
{
    if k <= 0 {
        whole_of::<R>(0)
    } else {
        sum_of(
            blended(coeffs, protos, hw, i, k - 1),
            product_of(coeffs[k - 1], protos[(k - 1) * hw + i]),
        )
    }
}

/// The soft mask of a detection: sigmoid(coeffs · prototypes), cell by cell.
pub open spec fn soft_mask<R: Number>(coeffs: Seq<R>, protos: Seq<R>, hw: int) -> Seq<R> {
    Seq::new(
        hw as nat,
        |i: int| sigmoid_of(blended(coeffs, protos, hw, i, coeffs.len() as int)),
    )
}

/// The soft mask of a detection.
pub fn blend_prototypes<R: Number>(coeffs: &[R], protos: &[R], hw: usize) -> (mask: Vec<R>)
    requires
        consistent::<R>(),
        protos@.len() == coeffs@.len() * hw,
    ensures
        mask@ == soft_mask(coeffs@, protos@, hw as int),
{
    let n: usize = coeffs.len();
    let len: usize = protos.len();
    let ghost goal = soft_mask(coeffs@, protos@, hw as int);
    let mut mask: Vec<R> = Vec::new();
    let mut i: usize = 0;
    while i < hw
        invariant
            consistent::<R>(),
            n == coeffs@.len(),
            len == protos@.len(),
            len == n * hw,
            goal == soft_mask(coeffs@, protos@, hw as int),
            i <= hw,
            mask@ == goal.take(i as int),
        decreases hw - i,
    {
        let mut acc: R = from_index(0);
        let mut k: usize = 0;
        while k < n
            invariant
                consistent::<R>(),
                n == coeffs@.len(),
                len == protos@.len(),
                len == n * hw,
                i < hw,
                k <= n,
                acc == blended(coeffs@, protos@, hw as int, i as int, k as int),
            decreases n - k,
        {
            assert(0 <= k * hw && k * hw + i < n * hw) by (nonlinear_arith)
                requires
                    0 <= k < n,
                    0 <= i < hw,
            ;
            acc = plus(acc, times(coeffs[k], protos[k * hw + i]));
            k = k + 1;
        }
        let v: R = sigmoid(acc);
        mask.push(v);
        assert(goal.take(i + 1) =~= goal.take(i as int).push(v));
        i = i + 1;
    }
    assert(goal.take(hw as int) =~= goal);
    mask
}

/// A canvas coordinate in image pixels.
pub open spec fn unboxed<R: Number>(v: R, pad: usize, scale: R) -> R {
    quotient_of(difference_of(v, whole_of::<R>(pad)), scale)
}

/// The pixels `(x1, y1, x2, y2)` that a detection's box covers, clamped to the image.
pub open spec fn crop_of<R: Number>(d: DetView<R>, p: Placement<R>, w: int, h: int) -> (
    int,
    int,
    int,
    int,
) {
    let (x1, y1, x2, y2) = d.0;
    (
        floor_index_of(unboxed(x1, p.padx, p.scale)) as int,
        floor_index_of(unboxed(y1, p.pady, p.scale)) as int,
        clamped(ceil_int_of(unboxed(x2, p.padx, p.scale)) as int, 0, w),
        clamped(ceil_int_of(unboxed(y2, p.pady, p.scale)) as int, 0, h),
    )
}

/// The prototype cell that an image coordinate falls into, along one axis.
pub open spec fn cell_of<R: Number>(
    o: usize,
    scale: R,
    pad: usize,
    cells: usize,
    side: usize,
) -> usize {
    let i = sum_of(product_of(whole_of::<R>(o), scale), whole_of::<R>(pad));
    trunc_index_of(product_of(i, quotient_of(whole_of::<R>(cells), whole_of::<R>(side))))
}

/// Whether pixel `(x, y)` belongs to an object with this soft mask and this crop.
pub open spec fn is_set<R: Number>(
    soft: Seq<R>,
    crop: (int, int, int, int),
    p: Placement<R>,
    layout: Layout,
    side: usize,
    threshold: R,
    x: int,
    y: int,
) -> bool {
    let px = cell_of(x as usize, p.scale, p.padx, layout.pw, side);
    let py = cell_of(y as usize, p.scale, p.pady, layout.ph, side);
    &&& crop.0 <= x < crop.2
    &&& crop.1 <= y < crop.3
    &&& px < layout.pw
    &&& py < layout.ph
    &&& at_least(soft[py * layout.pw + px], threshold)
}

/// The binary mask of an object.
pub open spec fn mask_of<R: Number>(
    soft: Seq<R>,
    crop: (int, int, int, int),
    p: Placement<R>,
    layout: Layout,
    side: usize,
    threshold: R,
    w: int,
    h: int,
) -> Seq<u8> {
    Seq::new(
        (w * h) as nat,
        |q: int|
            if is_set(soft, crop, p, layout, side, threshold, q % w, q / w) {
                1u8
            } else {
                0u8
            },
    )
}

/// The number of set pixels of a mask.
pub open spec fn mask_area(mask: Seq<u8>) -> nat
    decreases mask.len(),
{
    if mask.len() == 0 {
        0
    } else {
        mask_area(mask.drop_last()) + if mask.last() == 1 {
            1nat
        } else {
            0nat
        }
    }
}

proof fn lemma_mask_area(mask: Seq<u8>, v: u8)
    ensures
        mask_area(mask.push(v)) == mask_area(mask) + if v == 1 {
            1nat
        } else {
            0nat
        },
{
    assert(mask.push(v).drop_last() =~= mask);
}

/// Rasterizes the mask of an object and counts its pixels.
fn draw_mask<R: Number>(
    soft: &Vec<R>,
    crop: (usize, usize, usize, usize),
    p: &Placement<R>,
    layout: Layout,
    side: usize,
    threshold: R,
    w: usize,
    h: usize,
) -> (r: (Vec<u8>, u32))
    requires
        consistent::<R>(),
        soft@.len() == layout.ph * layout.pw,
        layout.ph * layout.pw <= usize::MAX,
        0 < w,
        w * h <= u32::MAX,
    ensures
        ({
            let c = (crop.0 as int, crop.1 as int, crop.2 as int, crop.3 as int);
            &&& r.0@ == mask_of(soft@, c, *p, layout, side, threshold, w as int, h as int)
            &&& r.1 == mask_area(r.0@)
        }),
{
    let len: usize = soft.len();
    let ghost c = (crop.0 as int, crop.1 as int, crop.2 as int, crop.3 as int);
    let ghost goal = mask_of(soft@, c, *p, layout, side, threshold, w as int, h as int);
    let sx: R = over(from_index(layout.pw), from_index(side));
    let sy: R = over(from_index(layout.ph), from_index(side));
    let padx: R = from_index(p.padx);
    let pady: R = from_index(p.pady);
    let mut mask: Vec<u8> = Vec::new();
    let mut area: u32 = 0;
    let mut y: usize = 0;
    proof {
        assert(0 <= w * h) by (nonlinear_arith);
        assert(goal.take(0) =~= Seq::<u8>::empty());
    }
    while y < h
        invariant
            consistent::<R>(),
            len == soft@.len(),
            len == layout.ph * layout.pw,
            c == (crop.0 as int, crop.1 as int, crop.2 as int, crop.3 as int),
            goal == mask_of(soft@, c, *p, layout, side, threshold, w as int, h as int),
            goal.len() == w * h,
            sx == quotient_of(whole_of::<R>(layout.pw), whole_of::<R>(side)),
            sy == quotient_of(whole_of::<R>(layout.ph), whole_of::<R>(side)),
            padx == whole_of::<R>(p.padx),
            pady == whole_of::<R>(p.pady),
            0 < w,
            w * h <= u32::MAX,
            y <= h,
            mask@ == goal.take(y * w),
            area == mask_area(mask@),
            mask@.len() == y * w,
            area <= mask@.len(),
        decreases h - y,
    {
        let iy: R = plus(times(from_index(y), p.scale), pady);
        let py: usize = trunc_index(times(iy, sy));
        let row: bool = crop.1 <= y && y < crop.3 && py < layout.ph;
        let mut x: usize = 0;
        while x < w
            invariant
                consistent::<R>(),
                len == soft@.len(),
                len == layout.ph * layout.pw,
                c == (crop.0 as int, crop.1 as int, crop.2 as int, crop.3 as int),
                goal == mask_of(soft@, c, *p, layout, side, threshold, w as int, h as int),
                goal.len() == w * h,
                sx == quotient_of(whole_of::<R>(layout.pw), whole_of::<R>(side)),
                padx == whole_of::<R>(p.padx),
                0 < w,
                w * h <= u32::MAX,
                y < h,
                py == cell_of(y, p.scale, p.pady, layout.ph, side),
                row == (crop.1 <= y < crop.3 && py < layout.ph),
                x <= w,
                mask@ == goal.take(y * w + x),
                mask@.len() == y * w + x,
                area == mask_area(mask@),
                area <= mask@.len(),
            decreases w - x,
        {
            let mut set: bool = false;
            if row && crop.0 <= x && x < crop.2 {
                let ix: R = plus(times(from_index(x), p.scale), padx);
                let px: usize = trunc_index(times(ix, sx));
                if px < layout.pw {
                    proof {
                        lemma_pixel_index(layout.pw as int, layout.ph as int, px as int, py as int);
                        assert(layout.pw * layout.ph == layout.ph * layout.pw) by (nonlinear_arith);
                    }
                    set = is_at_least(soft[py * layout.pw + px], threshold);
                }
            }
            let v: u8 = if set {
                1
            } else {
                0
            };
            proof {
                lemma_pixel_index(w as int, h as int, x as int, y as int);
                let q = y * w + x;
                assert(set == is_set(
                    soft@,
                    c,
                    *p,
                    layout,
                    side,
                    threshold,
                    x as int,
                    y as int,
                ));
                assert(goal[q] == v);
                assert(goal.take(q + 1) =~= goal.take(q).push(v));
                lemma_mask_area(mask@, v);
            }
            mask.push(v);
            if set {
                area = area + 1;
            }
            x = x + 1;
        }
        assert((y + 1) * w == y * w + w) by (nonlinear_arith);
        y = y + 1;
    }
    proof {
        assert(h * w == w * h) by (nonlinear_arith);
        assert(goal.take(w * h) =~= goal);
    }
    (mask, area)
}

/// What the assembly of masks goes by: the prototypes, the placement of the image on the
/// canvas, and the thresholds.
pub open spec fn instance_of<R: Number>(
    d: DetView<R>,
    protos: Seq<R>,
    p: Placement<R>,
    layout: Layout,
    side: usize,
    threshold: R,
    min_area: u32,
    w: int,
    h: int,
) -> Option<InstanceView<R>> {
    let crop = crop_of(d, p, w, h);
    let soft = soft_mask(d.2, protos, layout.ph * layout.pw);
    let mask = mask_of(soft, crop, p, layout, side, threshold, w, h);
    let area = mask_area(mask);
    if crop.2 <= crop.0 || crop.3 <= crop.1 || area < min_area || area < 1 {
        None
    } else {
        Some(
            (
                mask,
                (crop.0 as u32, crop.1 as u32, crop.2 as u32, crop.3 as u32),
                d.1,
                area as u32,
            ),
        )
    }
}

/// The instances of the first `n` kept detections, in their order.
pub open spec fn found<R: Number>(
    dets: Seq<DetView<R>>,
    keep: Seq<usize>,
    protos: Seq<R>,
    p: Placement<R>,
    layout: Layout,
    side: usize,
    threshold: R,
    min_area: u32,
    w: int,
    h: int,
    n: int,
) -> Seq<InstanceView<R>>
    decreases n,
{
    if n <= 0 {
        Seq::empty()
    } else {
        let before = found(
            dets,
            keep,
            protos,
            p,
            layout,
            side,
            threshold,
            min_area,
            w,
            h,
            n - 1,
        );
        match instance_of(
            dets[keep[n - 1] as int],
            protos,
            p,
            layout,
            side,
            threshold,
            min_area,
            w,
            h,
        ) {
            Some(i) => before.push(i),
            None => before,
        }
    }
}

/// Keys that order instances from the largest to the smallest.
pub open spec fn area_keys<R>(instances: Seq<InstanceView<R>>) -> Seq<u32> {
    instances.map_values(|i: InstanceView<R>| (u32::MAX - i.3) as u32)
}

/// Instances from the largest to the smallest, equal ones in their order.
pub open spec fn largest_first<R>(instances: Seq<InstanceView<R>>) -> Seq<InstanceView<R>> {
    stable_order(area_keys(instances)).map_values(|i: usize| instances[i as int])
}

/// The instances that the outputs `all` stand for.
pub open spec fn assembled<R: Number>(
    all: Seq<(Vec<i64>, Vec<R>)>,
    layout: Layout,
    cfg: &SegConfig<R>,
    p: Placement<R>,
    side: usize,
    w: int,
    h: int,
) -> Seq<InstanceView<R>> {
    let dets = confident(all[layout.det as int].1@, layout, cfg.conf, layout.anchors as int);
    let keep = kept_by_nms(dets, cfg.iou, cfg.max_objects);
    let min_area = trunc_count_of(product_of(cfg.min_area_frac, whole_of::<R>((w * h) as usize)));
    largest_first(
        found(
            dets,
            keep,
            all[layout.proto as int].1@,
            p,
            layout,
            side,
            cfg.mask_threshold,
            min_area,
            w,
            h,
            keep.len() as int,
        ),
    )
}

fn clamp_end(v: i64, limit: usize) -> (r: usize)
    requires
        limit <= i64::MAX,
    ensures
        r == clamped(v as int, 0, limit as int),
{
    if v < 0 {
        0
    } else if v as u128 > limit as u128 {
        limit
    } else {
        v as usize
    }
}

/// Assemble a full-resolution mask for one detection.
fn make_instance<R: Number>(
    d: &Det<R>,
    protos: &Vec<R>,
    p: &Placement<R>,
    layout: Layout,
    side: usize,
    threshold: R,
    min_area: u32,
    w: usize,
    h: usize,
) -> (r: Option<Instance<R>>)
    requires
        consistent::<R>(),
        d.coeffs@.len() == layout.proto_c,
        protos@.len() == layout.proto_c * (layout.ph * layout.pw),
        layout.ph * layout.pw <= usize::MAX,
        0 < w <= u32::MAX,
        0 < h <= u32::MAX,
        w * h <= u32::MAX,
    ensures
        match r {
            Some(i) => instance_of(
                d@,
                protos@,
                *p,
                layout,
                side,
                threshold,
                min_area,
                w as int,
                h as int,
            ) == Some(i@),
            None => instance_of(
                d@,
                protos@,
                *p,
                layout,
                side,
                threshold,
                min_area,
                w as int,
                h as int,
            ) is None,
        },
{
    let padx: R = from_index(p.padx);
    let pady: R = from_index(p.pady);
    // Original-space bbox (un-letterbox), clamped.
    let ox1: usize = floor_index(over(minus(d.x1, padx), p.scale));
    let oy1: usize = floor_index(over(minus(d.y1, pady), p.scale));
    let ox2: usize = clamp_end(ceil_int(over(minus(d.x2, padx), p.scale)), w);
    let oy2: usize = clamp_end(ceil_int(over(minus(d.y2, pady), p.scale)), h);
    if ox2 <= ox1 || oy2 <= oy1 {
        return None;
    }
    let soft: Vec<R> = blend_prototypes(
        d.coeffs.as_slice(),
        protos.as_slice(),
        layout.ph * layout.pw,
    );
    let (mask, area): (Vec<u8>, u32) = draw_mask(
        &soft,
        (ox1, oy1, ox2, oy2),
        p,
        layout,
        side,
        threshold,
        w,
        h,
    );
    if area < min_area || area < 1 {
        return None;
    }
    Some(
        Instance {
            mask,
            bbox: (ox1 as u32, oy1 as u32, ox2 as u32, oy2 as u32),
            score: d.score,
            area,
        },
    )
}

/// Every detection has as many coefficients as there are prototypes.
proof fn lemma_coeffs<R: Number>(data: Seq<R>, layout: Layout, conf: R, n: int)
    ensures
        forall|i: int|
            0 <= i < confident(data, layout, conf, n).len() ==> (#[trigger] confident(
                data,
                layout,
                conf,
                n,
            )[i]).2.len() == layout.proto_c,
    decreases n,
{
    if n > 0 {
        lemma_coeffs(data, layout, conf, n - 1);
        let before = confident(data, layout, conf, n - 1);
        let now = confident(data, layout, conf, n);
        assert forall|i: int| 0 <= i < now.len() implies (#[trigger] now[i]).2.len()
            == layout.proto_c by {
            if i < before.len() {
                assert(now[i] == before[i]);
            }
        }
    }
}

/// The instances sorted, the largest first: a useful default z-order (big objects underneath).
fn sort_instances<R: Number>(instances: &Vec<Instance<R>>) -> (sorted: Vec<Instance<R>>)
    ensures
        instance_views(sorted@) == largest_first(instance_views(instances@)),
{
    let n: usize = instances.len();
    let ghost views = instance_views(instances@);
    let mut keys: Vec<u32> = Vec::new();
    let mut i: usize = 0;
    while i < n
        invariant
            n == instances@.len(),
            views == instance_views(instances@),
            i <= n,
            keys@ == area_keys(views).take(i as int),
        decreases n - i,
    {
        let key: u32 = u32::MAX - instances[i].area;
        keys.push(key);
        assert(area_keys(views).take(i + 1) =~= area_keys(views).take(i as int).push(key));
        i = i + 1;
    }
    assert(area_keys(views).take(n as int) =~= area_keys(views));
    let order: Vec<usize> = sort_indices(keys.as_slice());
    let mut sorted: Vec<Instance<R>> = Vec::new();
    let mut i: usize = 0;
    while i < n
        invariant
            n == instances@.len(),
            views == instance_views(instances@),
            is_stable_order(area_keys(views), order@),
            order@.len() == n,
            i <= n,
            sorted@.len() == i,
            forall|j: int| 0 <= j < i ==> (#[trigger] sorted@[j])@ == views[order@[j] as int],
        decreases n - i,
    {
        let from: &Instance<R> = &instances[order[i]];
        let copy: Instance<R> = Instance {
            mask: slice_to_vec(from.mask.as_slice()),
            bbox: from.bbox,
            score: from.score,
            area: from.area,
        };
        assert(copy@ == views[order@[i as int] as int]);
        sorted.push(copy);
        i = i + 1;
    }
    assert(instance_views(sorted@) =~= largest_first(views));
    sorted
}

/// The instances that a model's outputs stand for, largest first.
pub fn assemble<R: Number>(
    all: &[(Vec<i64>, Vec<R>)],
    layout: Layout,
    cfg: &SegConfig<R>,
    p: &Placement<R>,
    side: usize,
    width: usize,
    height: usize,
) -> (instances: Vec<Instance<R>>)
    requires
        consistent::<R>(),
        layout_fits(layout, lens_of(all@)),
        0 < width <= u32::MAX,
        0 < height <= u32::MAX,
        width * height <= u32::MAX,
    ensures
        instance_views(instances@) == assembled(
            all@,
            layout,
            cfg,
            *p,
            side,
            width as int,
            height as int,
        ),
{
    let ghost lens = lens_of(all@);
    assert(lens[layout.det as int] == all@[layout.det as int].1@.len());
    assert(lens[layout.proto as int] == all@[layout.proto as int].1@.len());
    let data: &Vec<R> = &all[layout.det].1;
    let protos: &Vec<R> = &all[layout.proto].1;
    let dets: Vec<Det<R>> = collect_dets(data, layout, cfg.conf, Ghost(lens));
    let ghost views = det_views(dets@);
    let keep: Vec<usize> = nms(dets.as_slice(), cfg.iou, cfg.max_objects);
    proof {
        lemma_coeffs(data@, layout, cfg.conf, layout.anchors as int);
        assert(0 <= width * height) by (nonlinear_arith);
    }
    let min_area: u32 = trunc_count(times(cfg.min_area_frac, from_index(width * height)));
    let mut instances: Vec<Instance<R>> = Vec::new();
    let mut i: usize = 0;
    assert(instance_views(instances@) =~= Seq::<InstanceView<R>>::empty());
    while i < keep.len()
        invariant
            consistent::<R>(),
            0 < width <= u32::MAX,
            0 < height <= u32::MAX,
            width * height <= u32::MAX,
            layout.ph * layout.pw <= usize::MAX,
            protos@.len() == layout.proto_c * (layout.ph * layout.pw),
            views == det_views(dets@),
            forall|j: int| 0 <= j < views.len() ==> (#[trigger] views[j]).2.len() == layout.proto_c,
            forall|j: int| 0 <= j < keep@.len() ==> (#[trigger] keep@[j]) < views.len(),
            i <= keep@.len(),
            instance_views(instances@) == found(
                views,
                keep@,
                protos@,
                *p,
                layout,
                side,
                cfg.mask_threshold,
                min_area,
                width as int,
                height as int,
                i as int,
            ),
        decreases keep@.len() - i,
    {
        let d: &Det<R> = &dets[keep[i]];
        proof {
            assert(views[keep@[i as int] as int] == d@);
            assert(views[keep@[i as int] as int].2.len() == layout.proto_c);
        }
        let ghost before = instances@;
        match make_instance(
            d,
            protos,
            p,
            layout,
            side,
            cfg.mask_threshold,
            min_area,
            width,
            height,
        ) {
            Some(instance) => {
                instances.push(instance);
                assert(instance_views(instances@) =~= instance_views(before).push(instance@));
            },
            None => {},
        }
        i = i + 1;
    }
    sort_instances(&instances)
}

/// What the model runner is handed and what comes of its reply: the image is resampled to
/// `small` and placed on the canvas, `input` is the tensor made of it, and `reply` what the
/// runner returned.
pub open spec fn is_segmentation<
    R: Number,
    E,
    F: FnOnce(Vec<R>) -> Result<Vec<(Vec<i64>, Vec<R>)>, E>,
>(
    rgba: Seq<u8>,
    width: usize,
    height: usize,
    side: usize,
    cfg: &SegConfig<R>,
    infer: F,
    p: Placement<R>,
    small: Seq<u8>,
    input: Vec<R>,
    reply: Result<Vec<(Vec<i64>, Vec<R>)>, E>,
    out: Result<Vec<Instance<R>>, SegError<E>>,
) -> bool {
    &&& is_placement(width, height, side, p)
    &&& is_letterbox(rgba, width as int, height as int, side as int, p, small, input@)
    &&& call_ensures(infer, (input,), reply)
    &&& match reply {
        Err(e) => out == Err::<Vec<Instance<R>>, SegError<E>>(SegError::Model(e)),
        Ok(all) => match layout_of(shapes_of(all@), lens_of(all@)) {
            Err(e) => out == Err::<Vec<Instance<R>>, SegError<E>>(SegError::Layout(e)),
            Ok(layout) => out matches Ok(instances) && instance_views(instances@) == assembled(
                all@,
                layout,
                cfg,
                p,
                side,
                width as int,
                height as int,
            ),
        },
    }
}

/// Run the model and return one [`Instance`] per detected object, largest first.
///
/// `infer` runs the model, whose input side is `side`: it takes the
/// `[1, 3, side, side]` input tensor and returns the shape and the numbers of
/// every output.
pub fn segment_everything<
    R: Number,
    E,
    F: FnOnce(Vec<R>) -> Result<Vec<(Vec<i64>, Vec<R>)>, E>,
>(rgba: &[u8], width: usize, height: usize, side: usize, cfg: &SegConfig<R>, infer: F) -> (out:
    Result<Vec<Instance<R>>, SegError<E>>)
    requires
        consistent::<R>(),
        forall|input: Vec<R>| #[trigger] call_requires(infer, (input,)),
        raster_error(rgba@.len() as int, width as int, height as int) is None ==> can_resample(
            width as int,
            height as int,
            side as int,
            side as int,
        ) && width * height <= u32::MAX,
    ensures
        match raster_error(rgba@.len() as int, width as int, height as int) {
            Some(e) => out == Err::<Vec<Instance<R>>, SegError<E>>(SegError::Raster(e)),
            None => exists|
                p: Placement<R>,
                small: Seq<u8>,
                input: Vec<R>,
                reply: Result<Vec<(Vec<i64>, Vec<R>)>, E>,
            | #[trigger]
                is_segmentation(
                    rgba@,
                    width,
                    height,
                    side,
                    cfg,
                    infer,
                    p,
                    small,
                    input,
                    reply,
                    out,
                ),
        },
{
    match pixel_count(rgba.len(), width, height) {
        Ok(_) => {},
        Err(e) => return Err(SegError::Raster(e)),
    }
    let (input, p): (Vec<R>, Placement<R>) = letterbox(rgba, width, height, side);
    let ghost small = choose|small: Seq<u8>|
        is_letterbox(rgba@, width as int, height as int, side as int, p, small, input@);
    let ghost given = input;
    let reply: Result<Vec<(Vec<i64>, Vec<R>)>, E> = infer(input);
    let ghost returned = reply;
    let all: Vec<(Vec<i64>, Vec<R>)> = match reply {
        Ok(all) => all,
        Err(e) => {
            let out: Result<Vec<Instance<R>>, SegError<E>> = Err(SegError::Model(e));
            assert(is_segmentation(
                rgba@,
                width,
                height,
                side,
                cfg,
                infer,
                p,
                small,
                given,
                returned,
                out,
            ));
            return out;
        },
    };
    let layout: Layout = match read_layout(all.as_slice()) {
        Ok(layout) => layout,
        Err(e) => {
            let out: Result<Vec<Instance<R>>, SegError<E>> = Err(SegError::Layout(e));
            assert(is_segmentation(
                rgba@,
                width,
                height,
                side,
                cfg,
                infer,
                p,
                small,
                given,
                returned,
                out,
            ));
            return out;
        },
    };
    let instances: Vec<Instance<R>> = assemble(
        all.as_slice(),
        layout,
        cfg,
        &p,
        side,
        width,
        height,
    );
    let out: Result<Vec<Instance<R>>, SegError<E>> = Ok(instances);
    assert(is_segmentation(
        rgba@,
        width,
        height,
        side,
        cfg,
        infer,
        p,
        small,
        given,
        returned,
        out,
    ));
    out
}

/// There are no more confident detections than detections, and none scores below the threshold.
pub proof fn lemma_confident<R: Number>(data: Seq<R>, layout: Layout, conf: R, n: int)
    requires
        0 <= n,
    ensures
        confident(data, layout, conf, n).len() <= n,
        forall|i: int|
            0 <= i < confident(data, layout, conf, n).len() ==> !below(
                (#[trigger] confident(data, layout, conf, n)[i]).1,
                conf,
            ),
    decreases n,
{
    if n > 0 {
        lemma_confident(data, layout, conf, n - 1);
        let before = confident(data, layout, conf, n - 1);
        let now = confident(data, layout, conf, n);
        assert forall|i: int| 0 <= i < now.len() implies !below((#[trigger] now[i]).1, conf) by {
            if i < before.len() {
                assert(now[i] == before[i]);
            }
        }
    }
}

/// Each instance has the score of a kept detection, and they come in the order of those.
proof fn lemma_found_origin<R: Number>(
    dets: Seq<DetView<R>>,
    keep: Seq<usize>,
    protos: Seq<R>,
    p: Placement<R>,
    layout: Layout,
    side: usize,
    threshold: R,
    min_area: u32,
    w: int,
    h: int,
    n: int,
) -> (from: Seq<int>)
    requires
        0 <= n,
    ensures
        ({
            let all = found(
                dets,
                keep,
                protos,
                p,
                layout,
                side,
                threshold,
                min_area,
                w,
                h,
                n,
            );
            &&& from.len() == all.len()
            &&& forall|k: int| 0 <= k < from.len() ==> 0 <= #[trigger] from[k] < n
            &&& forall|k: int, l: int|
                0 <= k < l < from.len() ==> #[trigger] from[k] < #[trigger] from[l]
            &&& forall|k: int|
                0 <= k < from.len() ==> all[k].2 == dets[keep[#[trigger] from[k]] as int].1
        }),
    decreases n,
{
    if n <= 0 {
        Seq::empty()
    } else {
        let from = lemma_found_origin(
            dets,
            keep,
            protos,
            p,
            layout,
            side,
            threshold,
            min_area,
            w,
            h,
            n - 1,
        );
        let before = found(
            dets,
            keep,
            protos,
            p,
            layout,
            side,
            threshold,
            min_area,
            w,
            h,
            n - 1,
        );
        let d = dets[keep[n - 1] as int];
        match instance_of(d, protos, p, layout, side, threshold, min_area, w, h) {
            Some(i) => {
                let more = from.push(n - 1);
                assert forall|k: int| 0 <= k < more.len() implies before.push(i)[k].2
                    == dets[keep[#[trigger] more[k]] as int].1 by {
                    if k < from.len() {
                        assert(more[k] == from[k]);
                    }
                }
                more
            },
            None => from,
        }
    }
}

pub proof fn lemma_mask_area_bound(mask: Seq<u8>)
    ensures
        mask_area(mask) <= mask.len(),
    decreases mask.len(),
{
    if mask.len() > 0 {
        lemma_mask_area_bound(mask.drop_last());
    }
}

/// An instance of an image of `w` by `h` pixels as callers may take it to be: a binary mask of
/// the image's size, a box inside the image that holds every set pixel, and the number of set
/// pixels, of which there are some, and no fewer than asked for.
pub open spec fn sound_instance<R>(i: InstanceView<R>, min_area: u32, w: int, h: int) -> bool {
    let (x1, y1, x2, y2) = i.1;
    &&& i.0.len() == w * h
    &&& x1 < x2 <= w
    &&& y1 < y2 <= h
    &&& forall|q: int|
        0 <= q < i.0.len() ==> {
            ||| (#[trigger] i.0[q]) == 0
            ||| i.0[q] == 1 && x1 <= q % w < x2 && y1 <= q / w < y2
        }
    &&& i.3 == mask_area(i.0)
    &&& i.3 >= 1
    &&& i.3 >= min_area
}

proof fn lemma_found_sound<R: Number>(
    dets: Seq<DetView<R>>,
    keep: Seq<usize>,
    protos: Seq<R>,
    p: Placement<R>,
    layout: Layout,
    side: usize,
    threshold: R,
    min_area: u32,
    w: int,
    h: int,
    n: int,
)
    requires
        0 <= n,
        0 < w <= u32::MAX,
        0 < h <= u32::MAX,
        w * h <= u32::MAX,
    ensures
        ({
            let all = found(
                dets,
                keep,
                protos,
                p,
                layout,
                side,
                threshold,
                min_area,
                w,
                h,
                n,
            );
            &&& all.len() <= n
            &&& forall|k: int| 0 <= k < all.len() ==> sound_instance(#[trigger] all[k], min_area, w, h)
        }),
    decreases n,
{
    if n > 0 {
        lemma_found_sound(
            dets,
            keep,
            protos,
            p,
            layout,
            side,
            threshold,
            min_area,
            w,
            h,
            n - 1,
        );
        let d = dets[keep[n - 1] as int];
        match instance_of(d, protos, p, layout, side, threshold, min_area, w, h) {
            Some(i) => {
                assert(0 <= w * h) by (nonlinear_arith)
                    requires
                        0 < w,
                        0 < h,
                ;
                lemma_mask_area_bound(i.0);
                assert(sound_instance(i, min_area, w, h));
            },
            None => {},
        }
    }
}

/// Of every image the objects come largest first, of equally large ones the best score first,
/// and there are no more of them than asked for. None scores below the confidence asked for.
/// Each has a binary mask of the image's size, a box inside the image that holds the mask's set
/// pixels, and their number as its area, which is no less than the least area asked for.
pub proof fn law_objects_are_sound<R: Number>(
    all: Seq<(Vec<i64>, Vec<R>)>,
    layout: Layout,
    cfg: &SegConfig<R>,
    p: Placement<R>,
    side: usize,
    w: int,
    h: int,
)
    requires
        0 < w <= u32::MAX,
        0 < h <= u32::MAX,
        w * h <= u32::MAX,
    ensures
        ({
            let objects = assembled(all, layout, cfg, p, side, w, h);
            let min_area = trunc_count_of(
                product_of(cfg.min_area_frac, whole_of::<R>((w * h) as usize)),
            );
            &&& objects.len() <= cfg.max_objects
            &&& forall|i: int|
                0 <= i < objects.len() ==> sound_instance(#[trigger] objects[i], min_area, w, h)
            &&& forall|i: int, j: int|
                0 <= i < j < objects.len() ==> {
                    ||| (#[trigger] objects[i]).3 > (#[trigger] objects[j]).3
                    ||| objects[i].3 == objects[j].3 && rank_of(objects[i].2) >= rank_of(
                        objects[j].2,
                    ) && (ranked::<R>() ==> !below(objects[i].2, objects[j].2))
                }
            &&& forall|i: int|
                0 <= i < objects.len() ==> !below((#[trigger] objects[i]).2, cfg.conf)
        }),
{
    let dets = confident(all[layout.det as int].1@, layout, cfg.conf, layout.anchors as int);
    lemma_confident(all[layout.det as int].1@, layout, cfg.conf, layout.anchors as int);
    let keep = kept_by_nms(dets, cfg.iou, cfg.max_objects);
    law_nms_keeps_the_best(dets, cfg.iou, cfg.max_objects);
    let min_area = trunc_count_of(product_of(cfg.min_area_frac, whole_of::<R>((w * h) as usize)));
    let protos = all[layout.proto as int].1@;
    lemma_found_sound(
        dets,
        keep,
        protos,
        p,
        layout,
        side,
        cfg.mask_threshold,
        min_area,
        w,
        h,
        keep.len() as int,
    );
    let from = lemma_found_origin(
        dets,
        keep,
        protos,
        p,
        layout,
        side,
        cfg.mask_threshold,
        min_area,
        w,
        h,
        keep.len() as int,
    );
    let instances = found(
        dets,
        keep,
        protos,
        p,
        layout,
        side,
        cfg.mask_threshold,
        min_area,
        w,
        h,
        keep.len() as int,
    );
    let keys = area_keys(instances);
    lemma_order_exists(keys);
    let order = stable_order(keys);
    let objects = largest_first(instances);
    assert forall|i: int| 0 <= i < objects.len() implies sound_instance(
        #[trigger] objects[i],
        min_area,
        w,
        h,
    ) by {
        assert(objects[i] == instances[order[i] as int]);
    }
    assert forall|i: int, j: int| 0 <= i < j < objects.len() implies {
        ||| (#[trigger] objects[i]).3 > (#[trigger] objects[j]).3
        ||| objects[i].3 == objects[j].3 && rank_of(objects[i].2) >= rank_of(objects[j].2) && (
        ranked::<R>() ==> !below(objects[i].2, objects[j].2))
    } by {
        let (a, b) = (order[i] as int, order[j] as int);
        assert(before(keys, order[i], order[j]));
        assert(keys[a] <= keys[b]);
        if a < b {
            assert(from[a] < from[b]);
            assert(instances[a].2 == dets[keep[from[a]] as int].1);
            assert(instances[b].2 == dets[keep[from[b]] as int].1);
        }
    }
    assert forall|i: int| 0 <= i < objects.len() implies !below(
        (#[trigger] objects[i]).2,
        cfg.conf,
    ) by {
        let a = order[i] as int;
        assert(instances[a].2 == dets[keep[from[a]] as int].1);
        assert(keep[from[a]] < dets.len());
    }
}

} // verus!
