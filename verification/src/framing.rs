//! The way between the image and the model's canvas, and back.

use vstd::prelude::*;

use crate::arithmetic::{
    comparable, finite, keeps_all, lemma_difference_order, lemma_extreme, lemma_finite,
    lemma_order, lemma_product_order, lemma_quotient_order, lemma_rounding, lemma_wholes,
};
use crate::detect::DetView;
use crate::grid::lemma_pixel_index;
use crate::number::{
    at_least, below, ceil_int_of, difference_of, floor_index_of, ordered, product_of, quotient_of,
    round_index_of, sum_of, trunc_index_of, whole_of, Number,
};
use crate::objseg::{canvas_of, cell_of, crop_of, instance_of, is_placement, unboxed, Placement};
use crate::outputs::Layout;
use crate::superres::{fraction_of, lemma_plane_index};

verus! {

/// Where the image coordinate `o` lies on the canvas, along one axis: scaled, and moved by the
/// padding.
pub open spec fn on_canvas<R: Number>(o: R, scale: R, pad: usize) -> R {
    sum_of(product_of(o, scale), whole_of::<R>(pad))
}

/// Arithmetic is exact at `o`: what is added comes off again, and what is scaled up comes down
/// again.
pub open spec fn exact_at<R: Number>(o: R, scale: R, pad: usize) -> bool {
    let m = product_of(o, scale);
    let b = whole_of::<R>(pad);
    difference_of(sum_of(m, b), b) == m && quotient_of(m, scale) == o
}

/// A whole number is rounded to itself.
pub open spec fn rounds_to<R: Number>(n: usize) -> bool {
    floor_index_of(whole_of::<R>(n)) == n && ceil_int_of(whole_of::<R>(n)) == n
}

/// Coordinates go back to where they came from: the canvas coordinate that an image coordinate is
/// placed at is mapped back to it, wherever arithmetic is exact.
pub proof fn law_coordinates_go_back<R: Number>(o: R, scale: R, pad: usize)
    requires
        exact_at(o, scale, pad),
    ensures
        unboxed(on_canvas(o, scale, pad), pad, scale) == o,
{
}

/// A canvas coordinate that is farther along stands for an image coordinate that is no less far
/// along.
pub proof fn law_unboxing_keeps_the_order<R: Number>(a: R, b: R, scale: R, pad: usize)
    requires
        ordered::<R>(),
        keeps_all::<R>(),
        at_least(a, b),
        finite(a),
        finite(b),
        finite(scale),
        below(whole_of::<R>(0), scale),
        finite(difference_of(a, whole_of::<R>(pad))),
        finite(difference_of(b, whole_of::<R>(pad))),
    ensures
        at_least(unboxed(a, pad, scale), unboxed(b, pad, scale)),
{
    let m = whole_of::<R>(pad);
    lemma_wholes::<R>(pad, pad);
    lemma_finite(a, m);
    lemma_finite(b, m);
    lemma_difference_order(a, b, m);
    lemma_finite(difference_of(a, m), scale);
    lemma_finite(difference_of(b, m), scale);
    lemma_quotient_order(difference_of(a, m), difference_of(b, m), scale);
}

/// Boxes go back to where they came from: a detection whose corners lie where the image pixels
/// `(x1, y1)` and `(x2, y2)` are placed on the canvas, each axis with its own padding, crops
/// exactly these pixels, and an object that is made of it has this box.
pub proof fn law_boxes_go_back<R: Number>(
    d: DetView<R>,
    x1: usize,
    y1: usize,
    x2: usize,
    y2: usize,
    protos: Seq<R>,
    p: Placement<R>,
    layout: Layout,
    side: usize,
    threshold: R,
    min_area: u32,
    w: int,
    h: int,
)
    requires
        x1 <= x2 <= w <= u32::MAX,
        y1 <= y2 <= h <= u32::MAX,
        d.0 == (
            on_canvas(whole_of::<R>(x1), p.scale, p.padx),
            on_canvas(whole_of::<R>(y1), p.scale, p.pady),
            on_canvas(whole_of::<R>(x2), p.scale, p.padx),
            on_canvas(whole_of::<R>(y2), p.scale, p.pady),
        ),
        exact_at(whole_of::<R>(x1), p.scale, p.padx) && rounds_to::<R>(x1),
        exact_at(whole_of::<R>(y1), p.scale, p.pady) && rounds_to::<R>(y1),
        exact_at(whole_of::<R>(x2), p.scale, p.padx) && rounds_to::<R>(x2),
        exact_at(whole_of::<R>(y2), p.scale, p.pady) && rounds_to::<R>(y2),
    ensures
        crop_of(d, p, w, h) == (x1 as int, y1 as int, x2 as int, y2 as int),
        instance_of(d, protos, p, layout, side, threshold, min_area, w, h) matches Some(i) ==> i.1
            == (x1 as u32, y1 as u32, x2 as u32, y2 as u32),
{
    law_coordinates_go_back(whole_of::<R>(x1), p.scale, p.padx);
    law_coordinates_go_back(whole_of::<R>(y1), p.scale, p.pady);
    law_coordinates_go_back(whole_of::<R>(x2), p.scale, p.padx);
    law_coordinates_go_back(whole_of::<R>(y2), p.scale, p.pady);
}

/// A box that reaches past the image on the right and below is cut off there, and one that starts
/// before it starts at its edge: the crop of a detection lies inside the image.
pub proof fn law_crops_stay_inside<R: Number>(d: DetView<R>, p: Placement<R>, w: int, h: int)
    requires
        0 <= w,
        0 <= h,
    ensures
        ({
            let (x1, y1, x2, y2) = crop_of(d, p, w, h);
            0 <= x1 && 0 <= y1 && 0 <= x2 <= w && 0 <= y2 <= h
        }),
{
}

/// The image fits the canvas, is centred on it to within a pixel, and the longer side of the image
/// is the longer side on the canvas; where arithmetic is exact it fills the canvas.
pub proof fn law_placements_fit_and_centre<R: Number>(
    w: usize,
    h: usize,
    side: usize,
    p: Placement<R>,
)
    requires
        ordered::<R>(),
        keeps_all::<R>(),
        side >= 1,
        w >= 1,
        h >= 1,
        is_placement(w, h, side, p),
    ensures
        1 <= p.nw <= side,
        1 <= p.nh <= side,
        0 <= side - p.nw - 2 * p.padx <= 1,
        0 <= side - p.nh - 2 * p.pady <= 1,
        finite(p.scale) && below(whole_of::<R>(0), p.scale) ==> {
            &&& w >= h ==> p.nw >= p.nh && p.padx <= p.pady
            &&& h >= w ==> p.nh >= p.nw && p.pady <= p.padx
        },
        ({
            let across = quotient_of(whole_of::<R>(side), whole_of::<R>(w));
            let down = quotient_of(whole_of::<R>(side), whole_of::<R>(h));
            &&& below(across, down) && round_index_of(product_of(whole_of::<R>(w), across)) == side
                ==> p.nw == side && p.padx == 0
            &&& below(down, across) && round_index_of(product_of(whole_of::<R>(h), down)) == side
                ==> p.nh == side && p.pady == 0
            &&& across == down && round_index_of(product_of(whole_of::<R>(w), across)) == side
                && comparable(across) ==> p.nw == side && p.padx == 0
        }),
{
    let across = quotient_of(whole_of::<R>(side), whole_of::<R>(w));
    let down = quotient_of(whole_of::<R>(side), whole_of::<R>(h));
    lemma_order(across, down, across);
    lemma_order(down, across, down);
    if comparable(across) && comparable(down) {
        lemma_extreme(across, down);
    }
    let (rw, rh) = (whole_of::<R>(w), whole_of::<R>(h));
    if finite(p.scale) && below(whole_of::<R>(0), p.scale) {
        lemma_wholes::<R>(h, w);
        lemma_wholes::<R>(w, h);
        lemma_finite(rw, p.scale);
        lemma_finite(rh, p.scale);
        if w >= h {
            lemma_product_order(rw, rh, p.scale);
            lemma_rounding(product_of(rw, p.scale), product_of(rh, p.scale));
        }
        if h >= w {
            lemma_product_order(rh, rw, p.scale);
            lemma_rounding(product_of(rh, p.scale), product_of(rw, p.scale));
        }
    }
}

/// The picture can be cut out of the canvas again, channel by channel: what lies `i` to the right
/// and `j` below where the image starts is pixel `(i, j)` of the resampled image, and everywhere
/// else is the gray of the padding.
pub proof fn law_canvases_hold_the_picture<R: Number>(
    small: Seq<u8>,
    p: Placement<R>,
    side: int,
    x: int,
    y: int,
    c: int,
)
    requires
        p.padx + p.nw <= side,
        p.pady + p.nh <= side,
        0 <= x < side,
        0 <= y < side,
        0 <= c < 3,
    ensures
        canvas_of(small, p, side).len() == 3 * (side * side),
        ({
            let shown = canvas_of(small, p, side)[c * (side * side) + (y * side + x)];
            let (i, j) = (x - p.padx, y - p.pady);
            if 0 <= i < p.nw && 0 <= j < p.nh {
                shown == fraction_of::<R>(small[3 * (j * p.nw + i) + c])
            } else {
                shown == fraction_of::<R>(114)
            }
        }),
{
    assert(0 < side * side) by (nonlinear_arith)
        requires
            0 < side,
    ;
    lemma_pixel_index(side, side, x, y);
    lemma_plane_index(c, side * side, y * side + x);
}

/// A pixel reads the cell that its place on the canvas falls into: with `v` canvas pixels before
/// it, and `cells` cells over `side` canvas pixels, that is cell `v * cells / side`.
pub proof fn law_pixels_read_the_cell_below_them<R: Number>(
    o: usize,
    scale: R,
    pad: usize,
    cells: usize,
    side: usize,
    v: usize,
)
    requires
        side > 0,
        on_canvas(whole_of::<R>(o), scale, pad) == whole_of::<R>(v),
        trunc_index_of(
            product_of(whole_of::<R>(v), quotient_of(whole_of::<R>(cells), whole_of::<R>(side))),
        ) == v * cells / side as int,
    ensures
        cell_of(o, scale, pad, cells, side) == v * cells / side as int,
        v < side ==> cell_of(o, scale, pad, cells, side) < cells || cells == 0,
{
    if v < side && cells > 0 {
        let (m, n, s) = (v as int, cells as int, side as int);
        assert(m * n / s < n) by (nonlinear_arith)
            requires
                0 <= m < s,
                0 < n,
        ;
    }
}

} // verus!
