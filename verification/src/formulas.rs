//! What the library's formulas compute, where arithmetic is exact.

use vstd::prelude::*;

use crate::color::{dist2_of, Lab};
use crate::contour::Pt;
use crate::detect::{extent, overlap, Corners, DetView};
use crate::exact::{
    exact, lemma_exact, lemma_exact_whole, lemma_prod_assoc, lemma_prod_cancel, lemma_prod_order,
    lemma_prod_positive, lemma_prod_ring, lemma_prod_square, lemma_prod_units, prod,
};
use crate::number::{
    ceil_int_of, difference_of, exp_neg_of, floor_index_of, greater_of, int_of, lesser_of,
    product_of, quotient_of, round_index_of, sum_of, trunc_index_of, whole_of, Number, Precise,
};
use crate::objseg::{
    blended, cell_of, crop_of, det_at, fit_scale, fit_side, sigmoid_of, unboxed, Placement,
};
use crate::outputs::{position, Layout};
use crate::simplify::perp_dist2_of;

verus! {

/// The corners of the box are in order, so that it covers some area.
pub open spec fn is_box<R: Number>(val: spec_fn(R) -> real, a: Corners<R>) -> bool {
    val(a.0) < val(a.2) && val(a.1) < val(a.3)
}

/// The area of a box.
pub open spec fn box_area<R: Number>(val: spec_fn(R) -> real, a: Corners<R>) -> real {
    prod(val(a.2) - val(a.0), val(a.3) - val(a.1))
}

/// Box `b` lies within box `a`.
pub open spec fn encloses<R: Number>(
    val: spec_fn(R) -> real,
    a: Corners<R>,
    b: Corners<R>,
) -> bool {
    &&& val(a.0) <= val(b.0)
    &&& val(a.1) <= val(b.1)
    &&& val(b.2) <= val(a.2)
    &&& val(b.3) <= val(a.3)
}

/// The boxes have no area in common.
pub open spec fn apart<R: Number>(val: spec_fn(R) -> real, a: Corners<R>, b: Corners<R>) -> bool {
    ||| val(a.2) <= val(b.0)
    ||| val(b.2) <= val(a.0)
    ||| val(a.3) <= val(b.1)
    ||| val(b.3) <= val(a.1)
}

spec fn max_of(a: real, b: real) -> real {
    if a >= b {
        a
    } else {
        b
    }
}

spec fn min_of(a: real, b: real) -> real {
    if a <= b {
        a
    } else {
        b
    }
}

proof fn lemma_extent<R: Number>(val: spec_fn(R) -> real, a: R, b: R)
    requires
        exact(val),
    ensures
        val(extent(a, b)) == max_of(val(b) - val(a), 0real),
{
    lemma_exact(val, b, a);
    lemma_exact_whole(val, 0);
    lemma_exact(val, difference_of(b, a), whole_of::<R>(0));
}

/// The length that two intervals share.
spec fn shared(a1: real, a2: real, b1: real, b2: real) -> real {
    max_of(min_of(a2, b2) - max_of(a1, b1), 0real)
}

proof fn lemma_overlap<R: Number>(val: spec_fn(R) -> real, a: Corners<R>, b: Corners<R>)
    requires
        exact(val),
        is_box(val, a),
        is_box(val, b),
    ensures
        ({
            let w = shared(val(a.0), val(a.2), val(b.0), val(b.2));
            let h = shared(val(a.1), val(a.3), val(b.1), val(b.3));
            let union = box_area(val, a) + box_area(val, b) - prod(w, h);
            &&& union > 0real
            &&& prod(w, h) <= box_area(val, a)
            &&& prod(w, h) <= box_area(val, b)
            &&& 0real <= prod(w, h)
            &&& prod(val(overlap(a, b)), union) == prod(w, h)
        }),
{
    let (gx, gy) = (greater_of(a.0, b.0), greater_of(a.1, b.1));
    let (lx, ly) = (lesser_of(a.2, b.2), lesser_of(a.3, b.3));
    lemma_exact(val, a.0, b.0);
    lemma_exact(val, a.1, b.1);
    lemma_exact(val, a.2, b.2);
    lemma_exact(val, a.3, b.3);
    lemma_extent(val, gx, lx);
    lemma_extent(val, gy, ly);
    lemma_extent(val, a.0, a.2);
    lemma_extent(val, a.1, a.3);
    lemma_extent(val, b.0, b.2);
    lemma_extent(val, b.1, b.3);
    let (iw, ih) = (extent(gx, lx), extent(gy, ly));
    lemma_exact(val, iw, ih);
    let inter = product_of(iw, ih);
    lemma_exact(val, extent(a.0, a.2), extent(a.1, a.3));
    lemma_exact(val, extent(b.0, b.2), extent(b.1, b.3));
    let area_a = product_of(extent(a.0, a.2), extent(a.1, a.3));
    let area_b = product_of(extent(b.0, b.2), extent(b.1, b.3));
    lemma_exact(val, area_a, area_b);
    let total = sum_of(area_a, area_b);
    lemma_exact(val, total, inter);
    let union = difference_of(total, inter);
    lemma_exact_whole(val, 0);
    lemma_exact(val, whole_of::<R>(0), union);
    lemma_exact(val, inter, union);
    let (w, h) = (val(iw), val(ih));
    let (aw, ah) = (val(a.2) - val(a.0), val(a.3) - val(a.1));
    let (bw, bh) = (val(b.2) - val(b.0), val(b.3) - val(b.1));
    lemma_products(w, h, aw, ah);
    lemma_products(w, h, bw, bh);
}

/// The product of smaller sides is smaller.
proof fn lemma_products(w: real, h: real, aw: real, ah: real)
    requires
        0real <= w <= aw,
        0real <= h <= ah,
        0real < aw,
        0real < ah,
    ensures
        0real <= prod(w, h) <= prod(aw, ah),
        0real < prod(aw, ah),
{
    lemma_prod_order(w, aw, h);
    lemma_prod_order(h, ah, aw);
    lemma_prod_order(0real, w, h);
    lemma_prod_units(h);
    lemma_prod_positive(aw, ah);
}

/// A share of a positive whole.
proof fn lemma_share(v: real, whole: real, part: real)
    requires
        prod(v, whole) == part,
        0real < whole,
        0real <= part <= whole,
    ensures
        0real <= v <= 1real,
        v == 0real <==> part == 0real,
        v == 1real <==> part == whole,
{
    lemma_prod_units(whole);
    lemma_prod_cancel(0real, v, whole);
    lemma_prod_cancel(v, 1real, whole);
    if part == 0real {
        lemma_prod_cancel(v, 0real, whole);
    }
    if part == whole {
        lemma_prod_cancel(1real, v, whole);
    }
}

/// How much two boxes overlap is the share that they have in common of all they cover: nothing
/// where they are apart, all where they are the same, the smaller area over the larger where one
/// lies within the other, and never less than nothing or more than all. Which of the two comes
/// first does not matter.
pub proof fn law_overlap_is_the_shared_part<R: Number>(
    val: spec_fn(R) -> real,
    a: Corners<R>,
    b: Corners<R>,
)
    requires
        exact(val),
        is_box(val, a),
        is_box(val, b),
    ensures
        val(overlap(a, b)) == val(overlap(b, a)),
        0real <= val(overlap(a, b)) <= 1real,
        val(overlap(a, b)) == 0real <==> apart(val, a, b),
        encloses(val, a, b) ==> prod(val(overlap(a, b)), box_area(val, a)) == box_area(val, b),
        encloses(val, a, b) && encloses(val, b, a) ==> val(overlap(a, b)) == 1real,
{
    lemma_overlap(val, a, b);
    lemma_overlap(val, b, a);
    let w = shared(val(a.0), val(a.2), val(b.0), val(b.2));
    let h = shared(val(a.1), val(a.3), val(b.1), val(b.3));
    let inter = prod(w, h);
    let (area_a, area_b) = (box_area(val, a), box_area(val, b));
    let union = area_a + area_b - inter;
    let (v, u) = (val(overlap(a, b)), val(overlap(b, a)));
    assert(w == shared(val(b.0), val(b.2), val(a.0), val(a.2)));
    assert(h == shared(val(b.1), val(b.3), val(a.1), val(a.3)));
    lemma_share(v, union, inter);
    lemma_prod_cancel(u, v, union);
    lemma_prod_cancel(v, u, union);
    if w > 0real && h > 0real {
        lemma_prod_positive(w, h);
    } else {
        lemma_prod_units(w);
        lemma_prod_units(h);
    }
    assert(apart(val, a, b) <==> w == 0real || h == 0real);
    if encloses(val, a, b) {
        assert(w == val(b.2) - val(b.0) && h == val(b.3) - val(b.1));
        assert(inter == area_b);
    }
    if encloses(val, b, a) {
        assert(w == val(a.2) - val(a.0) && h == val(a.3) - val(a.1));
        assert(inter == area_a);
    }
}

/// Twice the area of the triangle of three lattice points, with a sign for the way it goes round.
pub open spec fn doubled_area(p: Pt, a: Pt, b: Pt) -> real {
    let (px, py) = (p.0 as int as real, p.1 as int as real);
    let (ax, ay) = (a.0 as int as real, a.1 as int as real);
    let (bx, by) = (b.0 as int as real, b.1 as int as real);
    prod(ax, by - py) + prod(bx, py - ay) + prod(px, ay - by)
}

/// The square of the distance of two lattice points.
pub open spec fn lattice_dist2(p: Pt, q: Pt) -> real {
    let (x, y) = (q.0 as int as real - p.0 as int as real, q.1 as int as real - p.1 as int as real);
    prod(x, x) + prod(y, y)
}

proof fn lemma_doubled_area(px: real, py: real, ax: real, ay: real, bx: real, by: real)
    ensures
        prod(px - ax, by - ay) - prod(py - ay, bx - ax) == 0real - (prod(ax, by - py) + prod(
            bx,
            py - ay,
        ) + prod(px, ay - by)),
{
    lemma_prod_ring(px, ax, by - ay);
    lemma_prod_ring(by, ay, px);
    lemma_prod_ring(by, ay, ax);
    lemma_prod_ring(py, ay, bx - ax);
    lemma_prod_ring(bx, ax, py);
    lemma_prod_ring(bx, ax, ay);
    lemma_prod_ring(by, py, ax);
    lemma_prod_ring(py, ay, bx);
    lemma_prod_ring(ay, by, px);
    lemma_prod_ring(ax, py, ax);
    lemma_prod_ring(ax, ay, ax);
    lemma_prod_ring(bx, ay, ax);
    lemma_prod_ring(bx, py, ax);
}

/// The distance of a vertex from a chord is the height of the triangle over it: its square times
/// that of the chord's length is that of twice the triangle's area. Where the ends of the chord
/// are one point, it is the distance from that point.
pub proof fn law_distances_are_heights<W: Precise>(val: spec_fn(W) -> real, p: Pt, a: Pt, b: Pt)
    requires
        exact(val),
        forall|n: i32| val(#[trigger] int_of::<W>(n)) == n as int as real,
    ensures
        a != b ==> prod(val(perp_dist2_of::<W>(p, a, b)), lattice_dist2(a, b)) == prod(
            doubled_area(p, a, b),
            doubled_area(p, a, b),
        ),
        a == b ==> val(perp_dist2_of::<W>(p, a, b)) == lattice_dist2(a, p),
{
    let (px, py) = (int_of::<W>(p.0), int_of::<W>(p.1));
    let (ax, ay) = (int_of::<W>(a.0), int_of::<W>(a.1));
    let (bx, by) = (int_of::<W>(b.0), int_of::<W>(b.1));
    let dx = difference_of(bx, ax);
    let dy = difference_of(by, ay);
    lemma_exact(val, bx, ax);
    lemma_exact(val, by, ay);
    lemma_exact(val, dx, dx);
    lemma_exact(val, dy, dy);
    lemma_exact(val, product_of(dx, dx), product_of(dy, dy));
    let len2 = sum_of(product_of(dx, dx), product_of(dy, dy));
    let ex = difference_of(px, ax);
    let ey = difference_of(py, ay);
    lemma_exact(val, px, ax);
    lemma_exact(val, py, ay);
    lemma_exact(val, ex, ex);
    lemma_exact(val, ey, ey);
    lemma_exact(val, product_of(ex, ex), product_of(ey, ey));
    lemma_exact(val, ex, dy);
    lemma_exact(val, ey, dx);
    lemma_exact(val, product_of(ex, dy), product_of(ey, dx));
    let cross = difference_of(product_of(ex, dy), product_of(ey, dx));
    lemma_exact(val, cross, cross);
    lemma_exact(val, product_of(cross, cross), len2);
    lemma_exact_whole(val, 0);
    lemma_exact(val, whole_of::<W>(0), len2);
    let (u, v) = (val(dx), val(dy));
    lemma_prod_square(u);
    lemma_prod_square(v);
    lemma_doubled_area(val(px), val(py), val(ax), val(ay), val(bx), val(by));
    assert(val(cross) == 0real - doubled_area(p, a, b));
    lemma_prod_square(doubled_area(p, a, b));
    if a != b {
        if val(len2) <= 0real {
            assert(a.0 == b.0 && a.1 == b.1);
        }
    } else {
        lemma_prod_units(u);
        lemma_prod_units(v);
    }
}

/// Twice a number is the number and itself again.
proof fn lemma_twice(x: real)
    ensures
        prod(x, 2real) == x + x,
{
    lemma_prod_ring(1real, 1real, x);
    lemma_prod_units(x);
    assert(1real + 1real == 2real);
}

/// A detection's box has the centre and the size that the model gave for it, along both axes.
pub proof fn law_boxes_have_their_centre_and_size<R: Number>(
    val: spec_fn(R) -> real,
    data: Seq<R>,
    layout: Layout,
    a: int,
)
    requires
        exact(val),
    ensures
        ({
            let (x1, y1, x2, y2) = det_at(data, layout, a).0;
            &&& val(x1) + val(x2) == 2real * val(data[position(layout, 0, a)])
            &&& val(y1) + val(y2) == 2real * val(data[position(layout, 1, a)])
            &&& val(x2) - val(x1) == val(data[position(layout, 2, a)])
            &&& val(y2) - val(y1) == val(data[position(layout, 3, a)])
        }),
{
    let two = whole_of::<R>(2);
    lemma_exact_whole(val, 2);
    let (cx, cy) = (data[position(layout, 0, a)], data[position(layout, 1, a)]);
    let (bw, bh) = (data[position(layout, 2, a)], data[position(layout, 3, a)]);
    let (hw, hh) = (quotient_of(bw, two), quotient_of(bh, two));
    lemma_exact(val, bw, two);
    lemma_exact(val, bh, two);
    lemma_twice(val(hw));
    lemma_twice(val(hh));
    lemma_exact(val, cx, hw);
    lemma_exact(val, cy, hh);
}

/// A canvas coordinate is its image coordinate scaled up and moved by the padding.
pub proof fn law_unboxing_inverts_the_placement<R: Number>(
    val: spec_fn(R) -> real,
    v: R,
    pad: usize,
    scale: R,
)
    requires
        exact(val),
        val(scale) != 0real,
    ensures
        prod(val(unboxed(v, pad, scale)), val(scale)) + pad as int as real == val(v),
{
    lemma_exact_whole(val, pad);
    lemma_exact(val, v, whole_of::<R>(pad));
    lemma_exact(val, difference_of(v, whole_of::<R>(pad)), scale);
}

/// The image is scaled to just fit the canvas: both sides fit, and one fills it.
pub proof fn law_scales_just_fit<R: Number>(
    val: spec_fn(R) -> real,
    w: usize,
    h: usize,
    side: usize,
)
    requires
        exact(val),
        w > 0,
        h > 0,
        side > 0,
    ensures
        ({
            let s = val(fit_scale::<R>(w, h, side));
            let (rw, rh) = (w as int as real, h as int as real);
            &&& 0real < s
            &&& prod(s, rw) <= side as int as real
            &&& prod(s, rh) <= side as int as real
            &&& prod(s, rw) == side as int as real || prod(s, rh) == side as int as real
        }),
{
    let (a, b) = (
        quotient_of(whole_of::<R>(side), whole_of::<R>(w)),
        quotient_of(whole_of::<R>(side), whole_of::<R>(h)),
    );
    lemma_exact_whole(val, side);
    lemma_exact_whole(val, w);
    lemma_exact_whole(val, h);
    lemma_exact(val, whole_of::<R>(side), whole_of::<R>(w));
    lemma_exact(val, whole_of::<R>(side), whole_of::<R>(h));
    lemma_exact(val, a, b);
    let (rw, rh) = (w as int as real, h as int as real);
    let s = val(fit_scale::<R>(w, h, side));
    lemma_prod_order(s, val(a), rw);
    lemma_prod_order(s, val(b), rh);
    if s <= 0real {
        lemma_prod_order(s, 0real, rw);
        lemma_prod_order(s, 0real, rh);
        lemma_prod_units(rw);
        lemma_prod_units(rh);
    }
}

/// The square of a real number.
pub open spec fn squared(x: real) -> real {
    prod(x, x)
}

proof fn lemma_dist2<R: Number>(val: spec_fn(R) -> real, a: Lab<R>, b: Lab<R>)
    requires
        exact(val),
    ensures
        val(dist2_of(a, b)) == squared(val(a[0]) - val(b[0])) + squared(val(a[1]) - val(b[1]))
            + squared(val(a[2]) - val(b[2])),
{
    let d0 = difference_of(a[0], b[0]);
    let d1 = difference_of(a[1], b[1]);
    let d2 = difference_of(a[2], b[2]);
    lemma_exact(val, a[0], b[0]);
    lemma_exact(val, a[1], b[1]);
    lemma_exact(val, a[2], b[2]);
    lemma_exact(val, d0, d0);
    lemma_exact(val, d1, d1);
    lemma_exact(val, d2, d2);
    lemma_exact(val, product_of(d0, d0), product_of(d1, d1));
    lemma_exact(val, sum_of(product_of(d0, d0), product_of(d1, d1)), product_of(d2, d2));
}

/// The squared distance of two colours adds up what they differ by in each coordinate, squared:
/// it is the same both ways, never negative, and zero for equal colours alone.
pub proof fn law_color_distances_are_squares<R: Number>(
    val: spec_fn(R) -> real,
    a: Lab<R>,
    b: Lab<R>,
)
    requires
        exact(val),
    ensures
        val(dist2_of(a, b)) == val(dist2_of(b, a)),
        val(dist2_of(a, b)) >= 0real,
        val(dist2_of(a, b)) == 0real <==> val(a[0]) == val(b[0]) && val(a[1]) == val(b[1]) && val(
            a[2],
        ) == val(b[2]),
        val(dist2_of(a, b)) == squared(val(a[0]) - val(b[0])) + squared(val(a[1]) - val(b[1]))
            + squared(val(a[2]) - val(b[2])),
{
    lemma_dist2(val, a, b);
    lemma_dist2(val, b, a);
    let (x, y, z) = (val(a[0]) - val(b[0]), val(a[1]) - val(b[1]), val(a[2]) - val(b[2]));
    lemma_prod_square(x);
    lemma_prod_square(y);
    lemma_prod_square(z);
    assert(0real - x == val(b[0]) - val(a[0]));
    assert(0real - y == val(b[1]) - val(a[1]));
    assert(0real - z == val(b[2]) - val(a[2]));
}

/// Blending with a single coefficient of one shows that prototype, and every prototype lies where
/// the one before it ends.
pub proof fn law_prototypes_show_through<R: Number>(
    val: spec_fn(R) -> real,
    coeffs: Seq<R>,
    protos: Seq<R>,
    hw: int,
    i: int,
    j: int,
    k: int,
)
    requires
        exact(val),
        0 <= j < coeffs.len(),
        0 <= k <= coeffs.len(),
        forall|m: int|
            0 <= m < coeffs.len() ==> val(#[trigger] coeffs[m]) == if m == j {
                1real
            } else {
                0real
            },
    ensures
        val(blended(coeffs, protos, hw, i, k)) == if j < k {
            val(protos[j * hw + i])
        } else {
            0real
        },
    decreases k,
{
    lemma_exact_whole(val, 0);
    if k > 0 {
        law_prototypes_show_through(val, coeffs, protos, hw, i, j, k - 1);
        let before = blended(coeffs, protos, hw, i, k - 1);
        let p = protos[(k - 1) * hw + i];
        lemma_exact(val, coeffs[k - 1], p);
        lemma_exact(val, before, product_of(coeffs[k - 1], p));
        lemma_prod_units(val(p));
    }
}

/// Blending with sums of coefficients adds up what blending with each gives.
pub proof fn law_blending_adds_up<R: Number>(
    val: spec_fn(R) -> real,
    a: Seq<R>,
    b: Seq<R>,
    c: Seq<R>,
    protos: Seq<R>,
    hw: int,
    i: int,
    k: int,
)
    requires
        exact(val),
        0 <= k,
        forall|m: int|
            0 <= m < k ==> val(#[trigger] c[m]) == val(#[trigger] a[m]) + val(#[trigger] b[m]),
    ensures
        val(blended(c, protos, hw, i, k)) == val(blended(a, protos, hw, i, k)) + val(
            blended(b, protos, hw, i, k),
        ),
    decreases k,
{
    lemma_exact_whole(val, 0);
    if k > 0 {
        law_blending_adds_up(val, a, b, c, protos, hw, i, k - 1);
        let p = protos[(k - 1) * hw + i];
        let m = k - 1;
        assert(val(c[m]) == val(a[m]) + val(b[m]));
        lemma_exact(val, a[m], p);
        lemma_exact(val, b[m], p);
        lemma_exact(val, c[m], p);
        lemma_exact(val, blended(a, protos, hw, i, m), product_of(a[m], p));
        lemma_exact(val, blended(b, protos, hw, i, m), product_of(b[m], p));
        lemma_exact(val, blended(c, protos, hw, i, m), product_of(c[m], p));
        lemma_prod_ring(val(a[m]), val(b[m]), val(p));
    }
}

/// What exponentials are, as far as the logistic function goes by it: positive, one for zero, and
/// falling with what is negated.
pub open spec fn exponential<R: Number>(val: spec_fn(R) -> real) -> bool {
    &&& forall|x: R| val(#[trigger] exp_neg_of(x)) > 0real
    &&& forall|x: R| val(x) == 0real ==> val(#[trigger] exp_neg_of(x)) == 1real
    &&& forall|x: R, y: R|
        #![trigger exp_neg_of(x), exp_neg_of(y)]
        val(x) < val(y) ==> val(exp_neg_of(x)) > val(exp_neg_of(y))
}

/// The logistic function lies between nothing and all, halfway for zero, and grows.
pub proof fn law_sigmoid_grows<R: Number>(val: spec_fn(R) -> real, x: R, y: R)
    requires
        exact(val),
        exponential(val),
    ensures
        0real < val(sigmoid_of(x)) < 1real,
        val(x) == 0real ==> val(sigmoid_of(x)) + val(sigmoid_of(x)) == 1real,
        val(x) < val(y) ==> val(sigmoid_of(x)) < val(sigmoid_of(y)),
{
    lemma_sigmoid(val, x);
    lemma_sigmoid(val, y);
    let (e, f) = (val(exp_neg_of(x)), val(exp_neg_of(y)));
    let (s, t) = (val(sigmoid_of(x)), val(sigmoid_of(y)));
    if val(x) == 0real {
        lemma_twice(s);
    }
    if val(x) < val(y) {
        lemma_prod_ring(1real + f, e - f, s);
        assert((1real + f) + (e - f) == 1real + e);
        lemma_prod_ring(s, 1real + e, s);
        lemma_prod_ring(s, 1real + f, s);
        lemma_prod_ring(e - f, s, s);
        lemma_prod_positive(e - f, s);
        if t <= s {
            lemma_prod_order(t, s, 1real + f);
        }
    }
}

proof fn lemma_sigmoid<R: Number>(val: spec_fn(R) -> real, x: R)
    requires
        exact(val),
        exponential(val),
    ensures
        prod(val(sigmoid_of(x)), 1real + val(exp_neg_of(x))) == 1real,
        0real < val(sigmoid_of(x)) < 1real,
{
    lemma_exact_whole(val, 1);
    let one = whole_of::<R>(1);
    let e = exp_neg_of(x);
    let d = sum_of(one, e);
    lemma_exact(val, one, e);
    lemma_exact(val, one, d);
    let s = val(sigmoid_of(x));
    if s <= 0real {
        lemma_prod_order(s, 0real, val(d));
        lemma_prod_units(val(d));
    }
    if s >= 1real {
        lemma_prod_order(1real, s, val(d));
        lemma_prod_units(val(d));
    }
}

/// Numbers are rounded to the whole numbers next to them, as far as a thousand million goes.
pub open spec fn rounds<R: Number>(val: spec_fn(R) -> real) -> bool {
    &&& forall|x: R|
        #![trigger floor_index_of(x)]
        (val(x) < 0real ==> floor_index_of(x) == 0) && (0real <= val(x) <= 1000000000real ==> whole(
            floor_index_of(x) as int,
        ) <= val(x) < whole(floor_index_of(x) as int) + 1real)
    &&& forall|x: R|
        #![trigger ceil_int_of(x)]
        -1000000000real <= val(x) <= 1000000000real ==> whole(ceil_int_of(x) as int) - 1real < val(x)
            <= whole(ceil_int_of(x) as int)
    &&& forall|x: R|
        #![trigger round_index_of(x)]
        0real <= val(x) <= 1000000000real ==> whole(round_index_of(x) as int) - 1real <= 2real * val(
            x,
        ) - whole(round_index_of(x) as int) <= whole(round_index_of(x) as int) + 1real
    &&& forall|x: R|
        #![trigger trunc_index_of(x)]
        0real <= val(x) <= 1000000000real ==> whole(trunc_index_of(x) as int) <= val(x) < whole(
            trunc_index_of(x) as int,
        ) + 1real
}

/// A whole number as a real one.
pub open spec fn whole(n: int) -> real {
    n as real
}

/// The real number `u` is an image coordinate whose place on the canvas is `v`.
pub open spec fn placed_at(u: real, scale: real, pad: usize, v: real) -> bool {
    prod(u, scale) + whole(pad as int) == v
}

proof fn lemma_unboxed<R: Number>(val: spec_fn(R) -> real, u: real, v: R, pad: usize, scale: R)
    requires
        exact(val),
        val(scale) > 0real,
        placed_at(u, val(scale), pad, val(v)),
    ensures
        val(unboxed(v, pad, scale)) == u,
{
    law_unboxing_inverts_the_placement(val, v, pad, scale);
    let w = val(unboxed(v, pad, scale));
    lemma_prod_cancel(u, w, val(scale));
    lemma_prod_cancel(w, u, val(scale));
}

/// The crop of a detection covers its box to the pixel, inside the image: along each axis it
/// starts at the pixel that the box starts in and ends with the one that the box ends in.
pub proof fn law_crops_cover_their_box<R: Number>(
    val: spec_fn(R) -> real,
    d: DetView<R>,
    p: Placement<R>,
    w: int,
    h: int,
    x1: real,
    y1: real,
    x2: real,
    y2: real,
)
    requires
        exact(val),
        rounds(val),
        val(p.scale) > 0real,
        0 <= w,
        0 <= h,
        placed_at(x1, val(p.scale), p.padx, val(d.0.0)),
        placed_at(y1, val(p.scale), p.pady, val(d.0.1)),
        placed_at(x2, val(p.scale), p.padx, val(d.0.2)),
        placed_at(y2, val(p.scale), p.pady, val(d.0.3)),
        0real <= x1 <= x2 <= whole(w),
        0real <= y1 <= y2 <= whole(h),
        w <= 1000000000,
        h <= 1000000000,
    ensures
        ({
            let c = crop_of(d, p, w, h);
            &&& whole(c.0) <= x1 < whole(c.0) + 1real
            &&& whole(c.1) <= y1 < whole(c.1) + 1real
            &&& whole(c.2) - 1real < x2 <= whole(c.2)
            &&& whole(c.3) - 1real < y2 <= whole(c.3)
        }),
{
    lemma_unboxed(val, x1, d.0.0, p.padx, p.scale);
    lemma_unboxed(val, y1, d.0.1, p.pady, p.scale);
    lemma_unboxed(val, x2, d.0.2, p.padx, p.scale);
    lemma_unboxed(val, y2, d.0.3, p.pady, p.scale);
}

/// A side of the image comes to within half a pixel of its scaled length on the canvas, if that is
/// at least one pixel and no more than the canvas.
pub proof fn law_sides_are_scaled<R: Number>(
    val: spec_fn(R) -> real,
    v: usize,
    scale: R,
    side: usize,
)
    requires
        exact(val),
        rounds(val),
        1real <= prod(whole(v as int), val(scale)) <= whole(side as int),
        side <= 1000000000,
    ensures
        ({
            let n = whole(fit_side(v, scale, side));
            n - 1real <= 2real * prod(whole(v as int), val(scale)) - n <= n + 1real
        }),
{
    lemma_exact_whole(val, v);
    lemma_exact(val, whole_of::<R>(v), scale);
}

/// A pixel reads the cell over its place on the canvas: with `at` canvas pixels before it, and
/// `cells` cells over the canvas's `side` pixels, the cell holds `at * cells / side`.
pub proof fn law_pixels_read_the_cell_over_them<R: Number>(
    val: spec_fn(R) -> real,
    o: usize,
    scale: R,
    pad: usize,
    cells: usize,
    side: usize,
    at: real,
    place: real,
)
    requires
        exact(val),
        rounds(val),
        side > 0,
        placed_at(whole(o as int), val(scale), pad, at),
        prod(place, whole(side as int)) == prod(at, whole(cells as int)),
        0real <= place <= 1000000000real,
    ensures
        ({
            let c = whole(cell_of(o, scale, pad, cells, side) as int);
            c <= place < c + 1real
        }),
{
    lemma_exact_whole(val, o);
    lemma_exact_whole(val, pad);
    lemma_exact_whole(val, cells);
    lemma_exact_whole(val, side);
    let m = product_of(whole_of::<R>(o), scale);
    lemma_exact(val, whole_of::<R>(o), scale);
    let i = sum_of(m, whole_of::<R>(pad));
    lemma_exact(val, m, whole_of::<R>(pad));
    assert(val(i) == at);
    let q = quotient_of(whole_of::<R>(cells), whole_of::<R>(side));
    lemma_exact(val, whole_of::<R>(cells), whole_of::<R>(side));
    lemma_exact(val, i, q);
    let got = val(product_of(i, q));
    lemma_prod_assoc(at, val(q), whole(side as int));
    lemma_prod_cancel(place, got, whole(side as int));
    lemma_prod_cancel(got, place, whole(side as int));
}

} // verus!
