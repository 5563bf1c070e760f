//! What a trace leaves out: nothing that can be drawn.

use vstd::prelude::*;

use crate::contour::Pt;
use crate::merge::{
    law_large_regions_stay, law_transparent_is_never_merged, lemma_count_occurs, lemma_num_bound,
};
use crate::number::{at_least, whole_of, Precise};
use crate::paint::{law_exact_drawing_paints_every_pixel, paints_alone, paints_nothing};
use crate::quantize::{opaque, packed};
use crate::segment::Segmentation;
use crate::simplify::simplified;
use crate::svg::{skip_number, Region};
use crate::trace::{
    background_of, color_indices, component_loops, drawn, is_largest, is_trace, kept_loops,
    lemma_in_palette, lemma_palette, palette_of, place, raw_loops, TraceConfig,
};

verus! {

/// The polygons are the simplifications of the contours at the places `from`, in their order,
/// each with at least three points, and no contour is left out whose simplification has as many.
pub open spec fn simplifies_all<W: Precise>(
    contours: Seq<Seq<Pt>>,
    epsilon: W,
    polygons: Seq<Seq<Pt>>,
    from: Seq<int>,
) -> bool {
    &&& from.len() == polygons.len()
    &&& forall|k: int| 0 <= k < from.len() ==> 0 <= #[trigger] from[k] < contours.len()
    &&& forall|k: int, l: int| 0 <= k < l < from.len() ==> #[trigger] from[k] < #[trigger] from[l]
    &&& forall|k: int|
        0 <= k < from.len() ==> polygons[k] == simplified(contours[#[trigger] from[k]], epsilon)
            && polygons[k].len() >= 3
    &&& forall|j: int|
        0 <= j < contours.len() && simplified(#[trigger] contours[j], epsilon).len() >= 3
            ==> from.contains(j)
}

proof fn lemma_simplifies_all<W: Precise>(
    raw: Seq<Seq<Pt>>,
    epsilon: W,
    n: int,
) -> (from: Seq<int>)
    requires
        0 <= n <= raw.len(),
    ensures
        simplifies_all(raw.take(n), epsilon, kept_loops(raw, epsilon, n), from),
    decreases n,
{
    if n == 0 {
        Seq::empty()
    } else {
        let before = lemma_simplifies_all(raw, epsilon, n - 1);
        let (was, now) = (raw.take(n - 1), raw.take(n));
        let s = simplified(raw[n - 1], epsilon);
        let from = if s.len() >= 3 {
            before.push(n - 1)
        } else {
            before
        };
        let kept = kept_loops(raw, epsilon, n);
        assert forall|k: int| 0 <= k < from.len() implies kept[k] == simplified(
            now[#[trigger] from[k]],
            epsilon,
        ) && kept[k].len() >= 3 by {
            if k < before.len() {
                assert(from[k] == before[k]);
                assert(was[before[k]] == now[before[k]]);
            }
        }
        assert forall|j: int|
            0 <= j < now.len() && simplified(#[trigger] now[j], epsilon).len() >= 3 implies from.contains(
            j,
        ) by {
            if j < n - 1 {
                assert(was[j] == now[j]);
                let k = choose|k: int| 0 <= k < before.len() && before[k] == j;
                assert(from[k] == j);
            } else {
                assert(from[before.len() as int] == j);
            }
        }
        assert forall|k: int, l: int| 0 <= k < l < from.len() implies #[trigger] from[k]
            < #[trigger] from[l] by {
            assert(from[k] == before[k]);
            if l < before.len() {
                assert(from[l] == before[l]);
            }
        }
        from
    }
}

/// For every tolerance: the polygons that are drawn for a component are the simplifications of
/// all its contours, the outer ones and those of its holes, in their order, leaving out exactly
/// those whose simplification has fewer than three points.
pub proof fn law_every_contour_is_drawn<W: Precise>(seg: &Segmentation, epsilon: W, c: int)
    ensures
        exists|from: Seq<int>|
            simplifies_all(
                raw_loops(seg, c),
                epsilon,
                component_loops(seg, epsilon, c),
                from,
            ),
        forall|j: int|
            0 <= j < raw_loops(seg, c).len() && simplified(
                #[trigger] raw_loops(seg, c)[j],
                epsilon,
            ).len() >= 3 ==> component_loops(seg, epsilon, c).contains(
                simplified(raw_loops(seg, c)[j], epsilon),
            ),
{
    let raw = raw_loops(seg, c);
    let n = raw.len() as int;
    let from = lemma_simplifies_all(raw, epsilon, n);
    let polygons = component_loops(seg, epsilon, c);
    assert(raw.take(n) =~= raw);
    assert(simplifies_all(raw, epsilon, polygons, from));
    assert forall|j: int|
        0 <= j < raw.len() && simplified(#[trigger] raw[j], epsilon).len()
            >= 3 implies polygons.contains(simplified(raw[j], epsilon)) by {
        let k = choose|k: int| 0 <= k < from.len() && from[k] == j;
        assert(polygons[k] == simplified(raw[from[k]], epsilon));
    }
}

/// The component is shown as polygons: it is neither transparent nor the background.
pub open spec fn is_shown<W: Precise>(seg: &Segmentation, cfg: &TraceConfig<W>, c: int) -> bool {
    seg.component_color@[c] != 0 && background_of(seg, cfg.background) != Some(c)
}

/// The shapes are those of the components at the places `from`, in their order, each in its colour
/// and with its polygons, and no component below `n` is left out that is shown and has polygons.
pub open spec fn shapes_all<W: Precise>(
    seg: &Segmentation,
    palette: Seq<u32>,
    cfg: &TraceConfig<W>,
    n: int,
    shapes: Seq<(u32, Seq<Seq<Pt>>)>,
    from: Seq<int>,
) -> bool {
    &&& from.len() == shapes.len()
    &&& forall|k: int|
        0 <= k < from.len() ==> 0 <= #[trigger] from[k] < n && is_shown(seg, cfg, from[k])
    &&& forall|k: int, l: int| 0 <= k < l < from.len() ==> #[trigger] from[k] < #[trigger] from[l]
    &&& forall|k: int|
        0 <= k < from.len() ==> shapes[k].0 == palette[seg.component_color@[#[trigger] from[k]] - 1]
            && shapes[k].1 == component_loops(seg, cfg.simplify, from[k]) && shapes[k].1.len() > 0
    &&& forall|c: int|
        0 <= c < n && #[trigger] is_shown(seg, cfg, c) && component_loops(
            seg,
            cfg.simplify,
            c,
        ).len() > 0 ==> from.contains(c)
}

proof fn lemma_shapes_all<W: Precise>(
    seg: &Segmentation,
    palette: Seq<u32>,
    cfg: &TraceConfig<W>,
    n: int,
) -> (from: Seq<int>)
    requires
        0 <= n,
    ensures
        shapes_all(seg, palette, cfg, n, drawn(seg, palette, cfg, n), from),
    decreases n,
{
    if n == 0 {
        Seq::empty()
    } else {
        let before = lemma_shapes_all(seg, palette, cfg, n - 1);
        let was = drawn(seg, palette, cfg, n - 1);
        let now = drawn(seg, palette, cfg, n);
        let loops = component_loops(seg, cfg.simplify, n - 1);
        let from = if is_shown(seg, cfg, n - 1) && loops.len() > 0 {
            before.push(n - 1)
        } else {
            before
        };
        assert forall|k: int| 0 <= k < from.len() implies 0 <= #[trigger] from[k] < n && is_shown(
            seg,
            cfg,
            from[k],
        ) && now[k].0 == palette[seg.component_color@[from[k]] - 1] && now[k].1 == component_loops(
            seg,
            cfg.simplify,
            from[k],
        ) && now[k].1.len() > 0 by {
            if k < before.len() {
                assert(from[k] == before[k]);
                assert(now[k] == was[k]);
            }
        }
        assert forall|c: int|
            0 <= c < n && #[trigger] is_shown(seg, cfg, c) && component_loops(
                seg,
                cfg.simplify,
                c,
            ).len() > 0 implies from.contains(c) by {
            if c < n - 1 {
                let k = choose|k: int| 0 <= k < before.len() && before[k] == c;
                assert(from[k] == c);
            } else {
                assert(from[before.len() as int] == c);
            }
        }
        assert forall|k: int, l: int| 0 <= k < l < from.len() implies #[trigger] from[k]
            < #[trigger] from[l] by {
            assert(from[k] == before[k]);
            if l < before.len() {
                assert(from[l] == before[l]);
            }
        }
        from
    }
}

/// For every tolerance: each component that is neither transparent nor the background, and of
/// which simplification leaves something, is drawn once, in its colour and with all its polygons.
pub proof fn law_every_region_is_drawn<W: Precise>(
    seg: &Segmentation,
    palette: Seq<u32>,
    cfg: &TraceConfig<W>,
)
    ensures
        exists|from: Seq<int>|
            shapes_all(
                seg,
                palette,
                cfg,
                seg.num_components as int,
                drawn(seg, palette, cfg, seg.num_components as int),
                from,
            ),
{
    let from = lemma_shapes_all(seg, palette, cfg, seg.num_components as int);
    assert(shapes_all(
        seg,
        palette,
        cfg,
        seg.num_components as int,
        drawn(seg, palette, cfg, seg.num_components as int),
        from,
    ));
}

/// Every component has pixels.
proof fn lemma_areas_positive(seg: &Segmentation, c: int)
    requires
        seg.wf(),
        0 <= c < seg.num_components,
    ensures
        seg.component_area@[c] > 0,
{
    lemma_num_bound(seg);
    assert(seg.labels@.contains(c as u32));
    let p = choose|p: int| 0 <= p < seg.labels@.len() && seg.labels@[p] == c as u32;
    lemma_count_occurs(seg.labels@, p);
}

/// A pixel of a transparent component stays in one.
proof fn lemma_transparent_stays(
    before: &Segmentation,
    min_area: u32,
    after: &Segmentation,
    p: int,
)
    requires
        before.labelled(),
        before.regrouped(before.merge_map(min_area), after),
        0 <= p < before.labels@.len(),
        before.component_color@[before.labels@[p] as int] == 0,
    ensures
        after.component_color@[after.labels@[p] as int] == 0,
{
    law_transparent_is_never_merged(before, min_area);
    assert(before.labels@[p] < before.num_components);
}

/// Some component is the largest of those that are not transparent among the first `n`.
proof fn lemma_largest_exists(colors: Seq<u32>, areas: Seq<u32>, n: int) -> (c: int)
    requires
        0 <= n <= colors.len(),
        areas.len() == colors.len(),
        forall|d: int| 0 <= d < colors.len() ==> #[trigger] areas[d] > 0,
        exists|d: int| 0 <= d < n && colors[d] != 0,
    ensures
        0 <= c < n,
        colors[c] != 0,
        forall|d: int| 0 <= d < n && #[trigger] colors[d] != 0 ==> areas[d] <= areas[c],
        forall|d: int| 0 <= d < c && #[trigger] colors[d] != 0 ==> areas[d] < areas[c],
    decreases n,
{
    let last = n - 1;
    if exists|d: int| 0 <= d < last && colors[d] != 0 {
        let c = lemma_largest_exists(colors, areas, last);
        if colors[last] != 0 && areas[last] > areas[c] {
            last
        } else {
            c
        }
    } else {
        last
    }
}

/// A background that is wanted is laid down wherever something is opaque; it is a component that
/// is opaque itself, and no other opaque one has more pixels. One that is not wanted is not laid
/// down.
pub proof fn law_backgrounds_are_the_largest(seg: &Segmentation, wanted: bool)
    requires
        seg.wf(),
    ensures
        background_of(seg, wanted) is Some <==> wanted && exists|d: int|
            0 <= d < seg.num_components && seg.component_color@[d] != 0,
        background_of(seg, wanted) matches Some(c) ==> {
            &&& 0 <= c < seg.num_components
            &&& seg.component_color@[c] != 0
            &&& forall|d: int|
                0 <= d < seg.num_components && #[trigger] seg.component_color@[d] != 0
                    ==> seg.component_area@[d] <= seg.component_area@[c]
        },
{
    let (colors, areas) = (seg.component_color@, seg.component_area@);
    let n = seg.num_components as int;
    if exists|d: int| 0 <= d < n && colors[d] != 0 {
        assert forall|d: int| 0 <= d < colors.len() implies #[trigger] areas[d] > 0 by {
            lemma_areas_positive(seg, d);
        }
        let c = lemma_largest_exists(colors, areas, n);
        assert(is_largest(colors, areas, c));
    }
    if exists|c: int| is_largest(colors, areas, c) {
        let c = choose|c: int| is_largest(colors, areas, c);
        assert(0 <= c < n && colors[c] != 0);
    }
}

/// Pixels are indexed by colour: those that are not opaque get 0, and an opaque one gets the
/// number, counted from 1, of its colour in the palette. The palette holds the colours of the
/// opaque pixels, each once, and no others.
pub proof fn law_indices_name_the_colors(pixels: Seq<u8>, threshold: u8, n: int, p: int)
    requires
        0 <= p < n <= u32::MAX,
    ensures
        ({
            let palette = palette_of(pixels, threshold, n);
            let idx = color_indices(pixels, threshold, n);
            &&& idx.len() == n
            &&& palette.no_duplicates()
            &&& opaque(pixels, threshold, p) ==> 1 <= idx[p] <= palette.len() && palette[idx[p] - 1]
                == packed(pixels, p)
            &&& !opaque(pixels, threshold, p) ==> idx[p] == 0
            &&& forall|k: int|
                0 <= k < palette.len() ==> has_color(pixels, threshold, n, #[trigger] palette[k])
        }),
{
    let palette = palette_of(pixels, threshold, n);
    lemma_palette(pixels, threshold, n);
    if opaque(pixels, threshold, p) {
        lemma_in_palette(pixels, threshold, n, p);
        let k = place(palette, packed(pixels, p));
        assert(0 <= k < palette.len() && palette[k] == packed(pixels, p));
    }
    assert forall|k: int| 0 <= k < palette.len() implies has_color(
        pixels,
        threshold,
        n,
        #[trigger] palette[k],
    ) by {
        lemma_palette_origin(pixels, threshold, n, k);
    }
}

/// One of the first `n` pixels is opaque and has this colour.
pub open spec fn has_color(pixels: Seq<u8>, threshold: u8, n: int, color: u32) -> bool {
    exists|p: int| 0 <= p < n && opaque(pixels, threshold, p) && #[trigger] packed(pixels, p) == color
}

proof fn lemma_palette_origin(pixels: Seq<u8>, threshold: u8, n: int, k: int)
    requires
        0 <= k < palette_of(pixels, threshold, n).len(),
    ensures
        has_color(pixels, threshold, n, palette_of(pixels, threshold, n)[k]),
    decreases n,
{
    if n > 0 {
        let before = palette_of(pixels, threshold, n - 1);
        let now = palette_of(pixels, threshold, n);
        if k < before.len() {
            lemma_palette_origin(pixels, threshold, n - 1, k);
            let p = choose|p: int|
                0 <= p < n - 1 && opaque(pixels, threshold, p) && #[trigger] packed(pixels, p)
                    == before[k];
            assert(packed(pixels, p) == now[k]);
        } else {
            assert(packed(pixels, n - 1) == now[k]);
        }
    }
}

/// A trace with a tolerance that is not positive shows the image: a pixel that is not opaque is
/// covered by no polygon, and an opaque one, of a region that was not too small to stay, is
/// covered by one polygon alone, in its colour, or by none, where its colour is that of the
/// background.
pub proof fn law_exact_traces_show_the_image<W: Precise>(
    pixels: Seq<u8>,
    width: usize,
    height: usize,
    cfg: &TraceConfig<W>,
    before: &Segmentation,
    after: &Segmentation,
    background: Option<[u8; 3]>,
    regions: Seq<Region>,
    doc: Seq<char>,
    x: int,
    y: int,
)
    requires
        is_trace(pixels, width, height, cfg, before, after, background, regions, doc),
        at_least(whole_of::<W>(0), cfg.simplify),
        width <= i32::MAX,
        height <= i32::MAX,
        width * height <= u32::MAX,
        0 <= x < width,
        0 <= y < height,
    ensures
        ({
            let n = width * height;
            let p = y * width + x;
            let palette = palette_of(pixels, cfg.alpha_threshold, n);
            let shapes = drawn(after, palette, cfg, after.num_components as int);
            let color = packed(pixels, p);
            &&& !opaque(pixels, cfg.alpha_threshold, p) ==> paints_nothing(shapes, x, y)
            &&& opaque(pixels, cfg.alpha_threshold, p)
                && before.component_area@[before.labels@[p] as int] >= cfg.min_area ==> {
                ||| exists|k: int| paints_alone(shapes, k, color, x, y)
                ||| paints_nothing(shapes, x, y) && skip_number(background) == Some(color)
            }
        }),
{
    let (w, h) = (width as int, height as int);
    let n = w * h;
    let p = y * w + x;
    let t = cfg.alpha_threshold;
    assert(0 <= p < n) by (nonlinear_arith)
        requires
            p == y * w + x,
            n == w * h,
            0 <= x < w,
            0 <= y < h,
    ;
    let palette = palette_of(pixels, t, n);
    let idx = color_indices(pixels, t, n);
    law_indices_name_the_colors(pixels, t, n, p);
    law_large_regions_stay(before, cfg.min_area, after);
    law_exact_drawing_paints_every_pixel(after, palette, cfg, x, y);
    let c = after.labels@[p] as int;
    assert(before.component_color@[before.labels@[p] as int] == idx[p]);
    if !opaque(pixels, t, p) {
        lemma_transparent_stays(before, cfg.min_area, after, p);
    }
    if opaque(pixels, t, p) && before.component_area@[before.labels@[p] as int] >= cfg.min_area {
        assert(after.component_color@[after.labels@[p] as int] == idx[p]);
        assert(palette[after.component_color@[c] - 1] == packed(pixels, p));
    }
}

} // verus!
