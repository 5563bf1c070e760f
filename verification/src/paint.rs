//! What the tracer's polygons paint: exactly the pixels of their regions.

use vstd::prelude::*;

use crate::contour::{box_fits, region_of, Pt};
use crate::grid::count_of;
use crate::loops::{
    covers, crossing, law_contours_enclose_the_region, law_contours_wind_round_the_region,
    lemma_degenerate_winding, lemma_over_sides_push, total_area, winding,
};
use crate::merge::lemma_num_bound;
use crate::number::{at_least, whole_of, Precise};
use crate::segment::{is_bbox, lemma_bbox_exists, Segmentation};
use crate::trace::{
    background_of, bbox_of, component_loops, drawn, kept_loops, lemma_bbox_fits, raw_loops,
    TraceConfig,
};

verus! {

/// The bounding box of a component covers it.
proof fn lemma_bbox_covers(seg: &Segmentation, c: int)
    requires
        seg.wf(),
        seg.width <= i32::MAX,
        seg.height <= i32::MAX,
        0 <= c < seg.num_components,
    ensures
        c <= u32::MAX,
        box_fits(seg.width as int, seg.height as int, bbox_of(seg, c)),
        bbox_of(seg, c).2 < i32::MAX,
        bbox_of(seg, c).3 < i32::MAX,
        covers(
            bbox_of(seg, c),
            region_of(seg.labels@, seg.width as int, seg.height as int, c as u32),
        ),
{
    let labels = seg.labels@;
    let (w, h) = (seg.width as int, seg.height as int);
    let n = labels.len() as int;
    lemma_num_bound(seg);
    lemma_bbox_exists(labels, seg.width, seg.height, n, c);
    let bbox = bbox_of(seg, c);
    assert(is_bbox(labels, w, n, c, bbox));
    lemma_bbox_fits(seg, c, bbox);
    assert(labels.contains(c as u32));
    let p = choose|p: int| 0 <= p < n && labels[p] == c as u32;
    assert(labels[p] == c);
    let inside = region_of(labels, w, h, c as u32);
    assert forall|x: int, y: int| #[trigger] inside(x, y) implies bbox.0 <= x <= bbox.2 && bbox.1
        <= y <= bbox.3 by {
        let p = y * w + x;
        vstd::arithmetic::div_mod::lemma_fundamental_div_mod_converse(p, w, y, x);
        assert(0 <= p < w * h) by (nonlinear_arith)
            requires
                p == y * w + x,
                0 <= x < w,
                0 <= y < h,
        ;
        assert(labels[p] == c);
    }
}

/// The contours of a component enclose it: their signed areas, before simplification, add up to
/// its number of pixels.
pub proof fn law_outlines_enclose_their_component(seg: &Segmentation, c: int)
    requires
        seg.wf(),
        seg.width <= i32::MAX,
        seg.height <= i32::MAX,
        0 <= c < seg.num_components,
    ensures
        total_area(raw_loops(seg, c)) == 2 * seg.component_area@[c],
{
    lemma_bbox_covers(seg, c);
    law_contours_enclose_the_region(
        seg.labels@,
        seg.width as int,
        seg.height as int,
        c as u32,
        bbox_of(seg, c),
    );
    assert(seg.component_area@[c] == count_of(seg.labels@, c as u32));
}

/// Leaving out collapsed loops changes no winding.
proof fn lemma_kept_winding<W: Precise>(raw: Seq<Seq<Pt>>, epsilon: W, n: int, x: int, y: int)
    requires
        at_least(whole_of::<W>(0), epsilon),
        0 <= n <= raw.len(),
    ensures
        winding(kept_loops(raw, epsilon, n), x, y) == winding(raw.take(n), x, y),
    decreases n,
{
    if n > 0 {
        lemma_kept_winding(raw, epsilon, n - 1, x, y);
        let last = raw[n - 1];
        assert(raw.take(n) =~= raw.take(n - 1).push(last));
        lemma_over_sides_push(crossing(x, y), raw.take(n - 1), last);
        if last.len() >= 3 {
            lemma_over_sides_push(crossing(x, y), kept_loops(raw, epsilon, n - 1), last);
        } else {
            lemma_degenerate_winding(last, x, y);
        }
    } else {
        assert(raw.take(0) =~= Seq::<Seq<Pt>>::empty());
    }
}

/// With a tolerance that is not positive, the polygons that are drawn for a component paint
/// exactly its pixels under the nonzero fill rule: they wind round each of them once, and round
/// no other.
pub proof fn law_exact_polygons_paint_their_component<W: Precise>(
    seg: &Segmentation,
    c: int,
    epsilon: W,
    x: int,
    y: int,
)
    requires
        seg.wf(),
        seg.width <= i32::MAX,
        seg.height <= i32::MAX,
        0 <= c < seg.num_components,
        at_least(whole_of::<W>(0), epsilon),
    ensures
        winding(component_loops(seg, epsilon, c), x, y) == if 0 <= x < seg.width && 0 <= y
            < seg.height && seg.labels@[y * seg.width + x] == c {
            1int
        } else {
            0
        },
{
    let raw = raw_loops(seg, c);
    lemma_bbox_covers(seg, c);
    law_contours_wind_round_the_region(
        region_of(seg.labels@, seg.width as int, seg.height as int, c as u32),
        bbox_of(seg, c),
        x,
        y,
    );
    lemma_kept_winding(raw, epsilon, raw.len() as int, x, y);
    assert(raw.take(raw.len() as int) =~= raw);
}

/// Shape `k` alone covers cell `(x, y)`, in this colour.
pub open spec fn paints_alone(
    shapes: Seq<(u32, Seq<Seq<Pt>>)>,
    k: int,
    color: u32,
    x: int,
    y: int,
) -> bool {
    &&& 0 <= k < shapes.len()
    &&& shapes[k].0 == color
    &&& winding(shapes[k].1, x, y) == 1
    &&& forall|i: int|
        0 <= i < shapes.len() && i != k ==> winding((#[trigger] shapes[i]).1, x, y) == 0
}

/// No shape covers cell `(x, y)`.
pub open spec fn paints_nothing(shapes: Seq<(u32, Seq<Seq<Pt>>)>, x: int, y: int) -> bool {
    forall|i: int| 0 <= i < shapes.len() ==> winding((#[trigger] shapes[i]).1, x, y) == 0
}

proof fn lemma_painted<W: Precise>(
    seg: &Segmentation,
    palette: Seq<u32>,
    cfg: &TraceConfig<W>,
    n: int,
    x: int,
    y: int,
) -> (k: int)
    requires
        seg.wf(),
        seg.width <= i32::MAX,
        seg.height <= i32::MAX,
        at_least(whole_of::<W>(0), cfg.simplify),
        0 <= n <= seg.num_components,
        0 <= x < seg.width,
        0 <= y < seg.height,
    ensures
        ({
            let shapes = drawn(seg, palette, cfg, n);
            let c = seg.labels@[y * seg.width + x] as int;
            if c >= n || seg.component_color@[c] == 0 || background_of(seg, cfg.background) == Some(
                c,
            ) {
                paints_nothing(shapes, x, y)
            } else {
                paints_alone(shapes, k, palette[seg.component_color@[c] - 1], x, y)
            }
        }),
    decreases n,
{
    if n == 0 {
        0
    } else {
        let k = lemma_painted(seg, palette, cfg, n - 1, x, y);
        let before = drawn(seg, palette, cfg, n - 1);
        let now = drawn(seg, palette, cfg, n);
        let c = seg.labels@[y * seg.width + x] as int;
        let loops = component_loops(seg, cfg.simplify, n - 1);
        law_exact_polygons_paint_their_component(seg, n - 1, cfg.simplify, x, y);
        if loops.len() == 0 {
            assert(winding(loops, x, y) == 0);
        }
        assert forall|i: int| 0 <= i < before.len() implies now[i] == #[trigger] before[i] by {}
        if now.len() > before.len() {
            assert(now[before.len() as int].1 == loops);
        }
        if c == n - 1 && now.len() > before.len() {
            let k = before.len() as int;
            assert forall|i: int| 0 <= i < now.len() && i != k implies winding(
                (#[trigger] now[i]).1,
                x,
                y,
            ) == 0 by {
                assert(now[i] == before[i]);
            }
            k
        } else {
            assert forall|i: int| 0 <= i < now.len() && i < before.len() implies winding(
                (#[trigger] now[i]).1,
                x,
                y,
            ) == winding(before[i].1, x, y) by {
                assert(now[i] == before[i]);
            }
            k
        }
    }
}

/// With a tolerance that is not positive, what is drawn of a segmentation paints every pixel
/// once, in the colour of its region. Pixels of transparent regions and of the background, which
/// is laid down as a rectangle, are left alone.
pub proof fn law_exact_drawing_paints_every_pixel<W: Precise>(
    seg: &Segmentation,
    palette: Seq<u32>,
    cfg: &TraceConfig<W>,
    x: int,
    y: int,
)
    requires
        seg.wf(),
        seg.width <= i32::MAX,
        seg.height <= i32::MAX,
        at_least(whole_of::<W>(0), cfg.simplify),
        0 <= x < seg.width,
        0 <= y < seg.height,
    ensures
        ({
            let shapes = drawn(seg, palette, cfg, seg.num_components as int);
            let c = seg.labels@[y * seg.width + x] as int;
            let color = palette[seg.component_color@[c] - 1];
            if seg.component_color@[c] == 0 || background_of(seg, cfg.background) == Some(c) {
                paints_nothing(shapes, x, y)
            } else {
                exists|k: int| paints_alone(shapes, k, color, x, y)
            }
        }),
{
    let (w, h) = (seg.width as int, seg.height as int);
    let n = seg.num_components as int;
    let p = y * w + x;
    assert(0 <= p < w * h) by (nonlinear_arith)
        requires
            p == y * w + x,
            0 <= x < w,
            0 <= y < h,
    ;
    assert(seg.labels@[p] < n);
    let k = lemma_painted(seg, palette, cfg, n, x, y);
    let c = seg.labels@[p] as int;
    let color = seg.component_color@[c];
    if color != 0 && background_of(seg, cfg.background) != Some(c) {
        assert(paints_alone(drawn(seg, palette, cfg, n), k, palette[color - 1], x, y));
    }
}

} // verus!
