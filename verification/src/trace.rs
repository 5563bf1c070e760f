//! The tracer — orchestrates the pipeline end to end: quantized raster → palette
//! indices → connected-components segmentation → contour extraction → RDP
//! simplification → layered polygon SVG.
//!
//! The input is expected to already be color-reduced (see [`crate::quantize`]);
//! the tracer derives its palette from the distinct colors present, so feeding
//! it a full-color photo would produce one region per unique color.

use std::collections::HashMap;
use vstd::prelude::*;

use crate::contour::{boundary, box_fits, contours_of, loops_view, outlines, region_of, Pt};
use crate::grid::{connected, lemma_coords};
use crate::merge::{lemma_merge_map_range, lemma_num_bound};
use crate::quantize::{opaque, packed};
use crate::segment::{column, is_bbox, row, segment, Segmentation};
use crate::number::{precise, Precise};
use crate::simplify::{simplified, simplify_closed};
use crate::svg::{
    color_number, corner_point, polygon_subpath, skip_number, svg_text, to_svg, Fill, Region, Seg,
    Subpath,
};

verus! {

#[derive(Debug, Clone)]
pub struct TraceConfig<W> {
    /// Pixels with alpha at or below this are treated as transparent (not drawn).
    pub alpha_threshold: u8,
    /// Merge regions smaller than this many pixels into their largest neighbour.
    pub min_area: u32,
    /// RDP simplification tolerance in pixels (0 = keep exact staircase edges).
    pub simplify: W,
    /// Emit the largest region as a background rect instead of a full polygon.
    pub background: bool,
}

impl<W: Precise> Default for TraceConfig<W> {
    fn default() -> (cfg: Self)
        ensures
            cfg.alpha_threshold == 0,
            cfg.min_area == 4,
            call_ensures(W::ratio, (12, 10), cfg.simplify),
            cfg.background,
    {
        TraceConfig {
            alpha_threshold: 0,
            min_area: 4,
            simplify: W::ratio(12, 10),
            background: true,
        }
    }
}

/// The distinct colours of the opaque ones among the first `n` pixels, in the order in which
/// they first occur.
pub open spec fn palette_of(pixels: Seq<u8>, threshold: u8, n: int) -> Seq<u32>
    decreases n,
{
    if n <= 0 {
        Seq::empty()
    } else {
        let before = palette_of(pixels, threshold, n - 1);
        let c = packed(pixels, n - 1);
        if opaque(pixels, threshold, n - 1) && !before.contains(c) {
            before.push(c)
        } else {
            before
        }
    }
}

/// The place of a colour in the palette.
pub open spec fn place(palette: Seq<u32>, c: u32) -> int {
    choose|k: int| 0 <= k < palette.len() && palette[k] == c
}

/// The palette index of each pixel: 0 = transparent, 1.. = opaque colours.
pub open spec fn color_indices(pixels: Seq<u8>, threshold: u8, n: int) -> Seq<u32> {
    Seq::new(
        n as nat,
        |i: int|
            if opaque(pixels, threshold, i) {
                (place(palette_of(pixels, threshold, n), packed(pixels, i)) + 1) as u32
            } else {
                0
            },
    )
}

pub proof fn lemma_palette(pixels: Seq<u8>, threshold: u8, n: int)
    requires
        0 <= n,
    ensures
        palette_of(pixels, threshold, n).len() <= n,
        palette_of(pixels, threshold, n).no_duplicates(),
    decreases n,
{
    if n > 0 {
        lemma_palette(pixels, threshold, n - 1);
    }
}

/// Every opaque pixel knows the place of its colour.
spec fn placed_upto(
    pixels: Seq<u8>,
    threshold: u8,
    palette: Seq<u32>,
    idx: Seq<u32>,
    n: int,
) -> bool {
    forall|j: int|
        0 <= j < n ==> if opaque(pixels, threshold, j) {
            1 <= #[trigger] idx[j] <= palette.len() && palette[idx[j] - 1] == packed(pixels, j)
        } else {
            idx[j] == 0
        }
}

/// The palette is filed in the map.
spec fn filed(palette: Seq<u32>, map: Map<u32, u32>) -> bool {
    &&& forall|c: u32| #[trigger] map.contains_key(c) <==> palette.contains(c)
    &&& forall|c: u32| #[trigger]
        map.contains_key(c) ==> 1 <= map[c] <= palette.len() && palette[map[c] - 1] == c
}

/// Build palette indices: 0 = transparent, 1.. = opaque colors.
fn index_colors(pixels: &[u8], threshold: u8, n: usize) -> (r: (Vec<u32>, Vec<[u8; 3]>))
    requires
        pixels@.len() >= 4 * n,
        n <= u32::MAX,
    ensures
        r.0@ == color_indices(pixels@, threshold, n as int),
        r.1@.map_values(|c: [u8; 3]| color_number(c)) == palette_of(pixels@, threshold, n as int),
{
    let len: usize = pixels.len();
    let mut idx: Vec<u32> = Vec::new();
    let mut palette: Vec<[u8; 3]> = Vec::new();
    let mut map: HashMap<u32, u32> = HashMap::new();
    let ghost to_number = |c: [u8; 3]| color_number(c);
    let mut i: usize = 0;
    assert(palette@.map_values(to_number) =~= Seq::<u32>::empty());
    while i < n
        invariant
            len == pixels@.len(),
            len >= 4 * n,
            n <= u32::MAX,
            to_number == (|c: [u8; 3]| color_number(c)),
            i <= n,
            idx@.len() == i,
            palette@.map_values(to_number) == palette_of(pixels@, threshold, i as int),
            filed(palette_of(pixels@, threshold, i as int), map@),
            placed_upto(
                pixels@,
                threshold,
                palette_of(pixels@, threshold, i as int),
                idx@,
                i as int,
            ),
        decreases n - i,
    {
        let ghost before = palette_of(pixels@, threshold, i as int);
        let ghost now = palette_of(pixels@, threshold, i + 1);
        proof {
            lemma_palette(pixels@, threshold, i as int);
            assert(palette@.len() == before.len());
        }
        let ghost idx0 = idx@;
        if pixels[4 * i + 3] > threshold {
            let (r, g, b): (u8, u8, u8) = (pixels[4 * i], pixels[4 * i + 1], pixels[4 * i + 2]);
            let key: u32 = r as u32 * 0x1_0000 + g as u32 * 0x100 + b as u32;
            assert(key == packed(pixels@, i as int));
            let known: Option<u32> = match map.get(&key) {
                Some(k) => Some(*k),
                None => None,
            };
            match known {
                Some(k) => {
                    idx.push(k);
                },
                None => {
                    let ghost map0 = map@;
                    let color: [u8; 3] = [r, g, b];
                    let ghost palette0 = palette@;
                    palette.push(color);
                    proof {
                        assert(now == before.push(key));
                        assert(palette@.map_values(to_number) =~= palette0.map_values(
                            to_number,
                        ).push(color_number(color)));
                        assert(now[before.len() as int] == key);
                    }
                    let k: u32 = palette.len() as u32;
                    map.insert(key, k);
                    idx.push(k);
                    proof {
                        assert forall|c: u32| #[trigger] map@.contains_key(c) <==> now.contains(
                            c,
                        ) by {
                            if before.contains(c) {
                                let j = choose|j: int| 0 <= j < before.len() && before[j] == c;
                                assert(now[j] == c);
                            }
                            if now.contains(c) {
                                let j = choose|j: int| 0 <= j < now.len() && now[j] == c;
                                if j < before.len() {
                                    assert(before[j] == c);
                                }
                            }
                            assert(map0.contains_key(c) <==> before.contains(c));
                        }
                        assert forall|c: u32| #[trigger] map@.contains_key(c) implies 1 <= map@[c]
                            <= now.len() && now[map@[c] - 1] == c by {
                            if c != key {
                                assert(map0.contains_key(c));
                            }
                        }
                    }
                },
            }
        } else {
            idx.push(0);
        }
        proof {
            assert forall|j: int| 0 <= j < i + 1 implies if opaque(pixels@, threshold, j) {
                1 <= #[trigger] idx@[j] <= now.len() && now[idx@[j] - 1] == packed(pixels@, j)
            } else {
                idx@[j] == 0
            } by {
                if j < i {
                    assert(idx@[j] == idx0[j]);
                    if opaque(pixels@, threshold, j) {
                        assert(before[idx0[j] - 1] == packed(pixels@, j));
                    }
                }
            }
        }
        i = i + 1;
    }
    proof {
        let pal = palette_of(pixels@, threshold, n as int);
        lemma_palette(pixels@, threshold, n as int);
        assert forall|j: int| 0 <= j < n implies #[trigger] idx@[j] == color_indices(
            pixels@,
            threshold,
            n as int,
        )[j] by {
            if opaque(pixels@, threshold, j) {
                let c = packed(pixels@, j);
                assert(pal[idx@[j] - 1] == c);
                let k = place(pal, c);
                assert(pal[k] == c);
                assert(k == idx@[j] - 1);
            }
        }
        assert(idx@ =~= color_indices(pixels@, threshold, n as int));
    }
    (idx, palette)
}

/// What [`segment`] makes of the palette indices.
pub open spec fn segments(idx: Seq<u32>, width: usize, height: usize, seg: &Segmentation) -> bool {
    &&& seg.wf()
    &&& seg.width == width
    &&& seg.height == height
    &&& forall|p: int, q: int|
        0 <= p < idx.len() && 0 <= q < idx.len() ==> (#[trigger] seg.labels@[p]
            == #[trigger] seg.labels@[q] <==> connected(idx, width as int, p, q))
    &&& forall|p: int|
        0 <= p < idx.len() ==> seg.component_color@[#[trigger] seg.labels@[p] as int] == idx[p]
}

/// Component `c` is the largest that is not transparent, of equally large ones the first.
pub open spec fn is_largest(colors: Seq<u32>, areas: Seq<u32>, c: int) -> bool {
    &&& 0 <= c < colors.len()
    &&& colors[c] != 0
    &&& areas[c] > 0
    &&& forall|d: int|
        0 <= d < colors.len() && #[trigger] colors[d] != 0 ==> areas[d] <= areas[c]
    &&& forall|d: int| 0 <= d < c && #[trigger] colors[d] != 0 ==> areas[d] < areas[c]
}

/// The component that is laid down as a background, if one is wanted.
pub open spec fn background_of(seg: &Segmentation, wanted: bool) -> Option<int> {
    let (colors, areas) = (seg.component_color@, seg.component_area@);
    if wanted && exists|c: int| is_largest(colors, areas, c) {
        Some(choose|c: int| is_largest(colors, areas, c))
    } else {
        None
    }
}

/// The bounding box of a component.
pub open spec fn bbox_of(seg: &Segmentation, c: int) -> (usize, usize, usize, usize) {
    choose|b: (usize, usize, usize, usize)|
        is_bbox(seg.labels@, seg.width as int, seg.labels@.len() as int, c, b)
}

/// The contours of a component, before simplification.
pub open spec fn raw_loops(seg: &Segmentation, c: int) -> Seq<Seq<Pt>> {
    outlines(
        boundary(
            region_of(seg.labels@, seg.width as int, seg.height as int, c as u32),
            bbox_of(seg, c),
        ),
    )
}

/// The first `n` contours simplified, without those that have collapsed.
pub open spec fn kept_loops<W: Precise>(
    raw: Seq<Seq<Pt>>,
    epsilon: W,
    n: int,
) -> Seq<Seq<Pt>>
    decreases n,
{
    if n <= 0 {
        Seq::empty()
    } else {
        let before = kept_loops(raw, epsilon, n - 1);
        let s = simplified(raw[n - 1], epsilon);
        if s.len() >= 3 {
            before.push(s)
        } else {
            before
        }
    }
}

/// The polygons that are drawn for a component.
pub open spec fn component_loops<W: Precise>(
    seg: &Segmentation,
    epsilon: W,
    c: int,
) -> Seq<Seq<Pt>> {
    let raw = raw_loops(seg, c);
    kept_loops(raw, epsilon, raw.len() as int)
}

/// The colour and the polygons of each of the first `n` components that is drawn: those that
/// are neither transparent nor the background and have polygons left.
pub open spec fn drawn<W: Precise>(
    seg: &Segmentation,
    palette: Seq<u32>,
    cfg: &TraceConfig<W>,
    n: int,
) -> Seq<(u32, Seq<Seq<Pt>>)>
    decreases n,
{
    if n <= 0 {
        Seq::empty()
    } else {
        let before = drawn(seg, palette, cfg, n - 1);
        let c = n - 1;
        let loops = component_loops(seg, cfg.simplify, c);
        if seg.component_color@[c] == 0 || background_of(seg, cfg.background) == Some(c)
            || loops.len() == 0 {
            before
        } else {
            before.push((palette[seg.component_color@[c] - 1], loops))
        }
    }
}

/// The subpath is the polygon through these corners.
pub open spec fn is_polygon(sp: Subpath, pts: Seq<Pt>) -> bool {
    &&& sp.start == corner_point(pts[0])
    &&& sp.segs@ == pts.drop_first().map_values(|p: Pt| Seg::Line(corner_point(p)))
}

/// The region shows these polygons in this flat colour.
pub open spec fn shows(r: Region, color: u32, loops: Seq<Seq<Pt>>) -> bool {
    &&& r.fill matches Fill::Solid(c) && color_number(c) == color
    &&& r.subpaths@.len() == loops.len()
    &&& forall|j: int| 0 <= j < loops.len() ==> is_polygon(#[trigger] r.subpaths@[j], loops[j])
}

/// The regions show what is drawn of a segmentation, over this background.
pub open spec fn pictures<W: Precise>(
    seg: &Segmentation,
    palette: Seq<u32>,
    cfg: &TraceConfig<W>,
    background: Option<[u8; 3]>,
    regions: Seq<Region>,
) -> bool {
    let shapes = drawn(seg, palette, cfg, seg.num_components as int);
    &&& skip_number(background) == match background_of(seg, cfg.background) {
        Some(c) => Some(palette[seg.component_color@[c] - 1]),
        None => None,
    }
    &&& regions.len() == shapes.len()
    &&& forall|i: int|
        0 <= i < regions.len() ==> shows(#[trigger] regions[i], shapes[i].0, shapes[i].1)
}

/// The document is a trace of the image: its pixels are indexed by colour, segmented, and
/// merged, and what is drawn of the outcome is written down.
pub open spec fn is_trace<W: Precise>(
    pixels: Seq<u8>,
    width: usize,
    height: usize,
    cfg: &TraceConfig<W>,
    before: &Segmentation,
    after: &Segmentation,
    background: Option<[u8; 3]>,
    regions: Seq<Region>,
    doc: Seq<char>,
) -> bool {
    let n = width * height;
    &&& segments(
        color_indices(pixels, cfg.alpha_threshold, n),
        width,
        height,
        before,
    )
    &&& after.wf()
    &&& before.regrouped(before.merge_map(cfg.min_area), after)
    &&& pictures(
        after,
        palette_of(pixels, cfg.alpha_threshold, n),
        cfg,
        background,
        regions,
    )
    &&& doc == svg_text(width, height, background, regions)
}

/// A bounding box is the only one.
pub proof fn lemma_bbox_unique(
    labels: Seq<u32>,
    w: int,
    k: int,
    c: int,
    a: (usize, usize, usize, usize),
    b: (usize, usize, usize, usize),
)
    requires
        is_bbox(labels, w, k, c, a),
        is_bbox(labels, w, k, c, b),
    ensures
        a == b,
{
}

/// A bounding box lies in the image and covers the cells of its label.
pub proof fn lemma_bbox_fits(seg: &Segmentation, c: int, b: (usize, usize, usize, usize))
    requires
        seg.labels@.len() == seg.width * seg.height,
        seg.width <= i32::MAX,
        seg.height <= i32::MAX,
        is_bbox(seg.labels@, seg.width as int, seg.labels@.len() as int, c, b),
    ensures
        box_fits(seg.width as int, seg.height as int, b),
{
    let (w, h) = (seg.width as int, seg.height as int);
    let n = seg.labels@.len() as int;
    if !(forall|p: int| 0 <= p < n ==> #[trigger] seg.labels@[p] != c) {
        let p = choose|p: int|
            0 <= p < n && #[trigger] seg.labels@[p] == c && column(p, w) == b.2;
        assert(w > 0) by (nonlinear_arith)
            requires
                w * h > 0,
                w >= 0,
        ;
        lemma_coords(w, h, p);
        let q = choose|q: int| 0 <= q < n && #[trigger] seg.labels@[q] == c && row(q, w) == b.3;
        lemma_coords(w, h, q);
    }
}

/// Choose a background region (largest opaque) to lay down as a rect.
fn pick_background(seg: &Segmentation, wanted: bool) -> (bg: Option<usize>)
    requires
        seg.wf(),
    ensures
        match bg {
            Some(c) => c < seg.num_components && background_of(seg, wanted) == Some(c as int),
            None => background_of(seg, wanted) is None,
        },
{
    let mut bg: Option<usize> = None;
    if !wanted {
        return bg;
    }
    let ghost (colors, areas) = (seg.component_color@, seg.component_area@);
    let mut best_area: u32 = 0;
    let mut c: usize = 0;
    while c < seg.num_components
        invariant
            seg.wf(),
            colors == seg.component_color@,
            areas == seg.component_area@,
            c <= seg.num_components,
            match bg {
                Some(b) => b < c && colors[b as int] != 0 && areas[b as int] == best_area
                    && best_area > 0 && (forall|d: int|
                    0 <= d < b && #[trigger] colors[d] != 0 ==> areas[d] < best_area),
                None => best_area == 0,
            },
            forall|d: int| 0 <= d < c && #[trigger] colors[d] != 0 ==> areas[d] <= best_area,
        decreases seg.num_components - c,
    {
        if seg.component_color[c] != 0 && seg.component_area[c] > best_area {
            best_area = seg.component_area[c];
            bg = Some(c);
        }
        c = c + 1;
    }
    proof {
        match bg {
            Some(b) => {
                assert(is_largest(colors, areas, b as int));
                let d = choose|d: int| is_largest(colors, areas, d);
                assert(areas[d] <= areas[b as int] && areas[b as int] <= areas[d]);
                assert(colors[b as int] != 0 && colors[d] != 0);
                assert(d == b as int);
            },
            None => {
                assert forall|d: int| !is_largest(colors, areas, d) by {
                    if is_largest(colors, areas, d) {
                        assert(colors[d] != 0);
                    }
                }
            },
        }
    }
    bg
}

/// The simplified polygons of one component as a list of subpaths.
fn trace_component<W: Precise>(
    seg: &Segmentation,
    c: usize,
    bbox: (usize, usize, usize, usize),
    epsilon: W,
) -> (subpaths: Vec<Subpath>)
    requires
        precise::<W>(),
        seg.wf(),
        seg.width <= i32::MAX,
        seg.height <= i32::MAX,
        c < seg.num_components,
        c <= u32::MAX,
        is_bbox(seg.labels@, seg.width as int, seg.labels@.len() as int, c as int, bbox),
    ensures
        subpaths@.len() == component_loops(seg, epsilon, c as int).len(),
        forall|j: int|
            0 <= j < subpaths@.len() ==> is_polygon(
                #[trigger] subpaths@[j],
                component_loops(seg, epsilon, c as int)[j],
            ),
{
    proof {
        lemma_bbox_fits(seg, c as int, bbox);
        lemma_bbox_unique(
            seg.labels@,
            seg.width as int,
            seg.labels@.len() as int,
            c as int,
            bbox,
            bbox_of(seg, c as int),
        );
    }
    let raw: Vec<Vec<Pt>> = contours_of(
        seg.labels.as_slice(),
        seg.width,
        seg.height,
        c as u32,
        bbox,
    );
    let ghost shapes = loops_view(raw@);
    assert(shapes == raw_loops(seg, c as int));
    let mut subpaths: Vec<Subpath> = Vec::new();
    let mut i: usize = 0;
    while i < raw.len()
        invariant
            precise::<W>(),
            shapes == loops_view(raw@),
            i <= raw@.len(),
            subpaths@.len() == kept_loops(shapes, epsilon, i as int).len(),
            forall|j: int|
                0 <= j < subpaths@.len() ==> is_polygon(
                    #[trigger] subpaths@[j],
                    kept_loops(shapes, epsilon, i as int)[j],
                ),
        decreases raw@.len() - i,
    {
        let ghost before = kept_loops(shapes, epsilon, i as int);
        let ghost subpaths0 = subpaths@;
        let simp: Vec<Pt> = simplify_closed(raw[i].as_slice(), epsilon);
        assert(simp@ == simplified(shapes[i as int], epsilon));
        if simp.len() >= 3 {
            subpaths.push(polygon_subpath(simp.as_slice()));
            proof {
                let now = kept_loops(shapes, epsilon, i + 1);
                assert(now == before.push(simp@));
                assert forall|j: int| 0 <= j < subpaths@.len() implies is_polygon(
                    #[trigger] subpaths@[j],
                    now[j],
                ) by {
                    if j < before.len() {
                        assert(subpaths@[j] == subpaths0[j]);
                    }
                }
            }
        }
        i = i + 1;
    }
    subpaths
}

/// Every component that is not transparent has a colour of the palette.
spec fn in_palette(colors: Seq<u32>, n: int) -> bool {
    forall|c: int| 0 <= c < colors.len() ==> #[trigger] colors[c] <= n
}

proof fn lemma_colors_in_palette(
    pixels: Seq<u8>,
    threshold: u8,
    idx: Seq<u32>,
    seg: &Segmentation,
    n: int,
)
    requires
        0 <= n <= u32::MAX,
        idx == color_indices(pixels, threshold, n),
        idx.len() == seg.labels@.len(),
        seg.wf(),
        forall|p: int|
            0 <= p < idx.len() ==> seg.component_color@[#[trigger] seg.labels@[p] as int] == idx[p],
    ensures
        in_palette(seg.component_color@, palette_of(pixels, threshold, n).len() as int),
{
    let pal = palette_of(pixels, threshold, n);
    lemma_palette(pixels, threshold, n);
    lemma_num_bound(seg);
    assert forall|c: int| 0 <= c < seg.component_color@.len() implies #[trigger] seg.component_color@[c]
        <= pal.len() by {
        assert(seg.labels@.contains(c as u32));
        let p = choose|p: int| 0 <= p < seg.labels@.len() && seg.labels@[p] == c as u32;
        assert(seg.component_color@[seg.labels@[p] as int] == idx[p]);
        if opaque(pixels, threshold, p) {
            lemma_in_palette(pixels, threshold, n, p);
            let k = place(pal, packed(pixels, p));
            assert(0 <= k < pal.len());
        }
    }
}

pub proof fn lemma_in_palette(pixels: Seq<u8>, threshold: u8, n: int, p: int)
    requires
        0 <= p < n,
        opaque(pixels, threshold, p),
    ensures
        palette_of(pixels, threshold, n).contains(packed(pixels, p)),
    decreases n,
{
    let c = packed(pixels, p);
    let before = palette_of(pixels, threshold, n - 1);
    let now = palette_of(pixels, threshold, n);
    if p < n - 1 {
        lemma_in_palette(pixels, threshold, n - 1, p);
    }
    if before.contains(c) {
        let k = choose|k: int| 0 <= k < before.len() && before[k] == c;
        assert(now[k] == c);
    } else {
        assert(now[before.len() as int] == c);
    }
}

/// Colours stay in the palette when components are merged.
proof fn lemma_merged_in_palette(seg: &Segmentation, root: Seq<u32>, after: &Segmentation, n: int)
    requires
        seg.wf(),
        after.wf(),
        seg.regrouped(root, after),
        root.len() == seg.num_components,
        forall|c: int| 0 <= c < root.len() ==> #[trigger] root[c] < seg.num_components,
        in_palette(seg.component_color@, n),
    ensures
        in_palette(after.component_color@, n),
{
    lemma_num_bound(after);
    assert forall|c: int| 0 <= c < after.component_color@.len() implies #[trigger] after.component_color@[c]
        <= n by {
        assert(after.labels@.contains(c as u32));
        let p = choose|p: int| 0 <= p < after.labels@.len() && after.labels@[p] == c as u32;
        let r = root[seg.labels@[p] as int];
        assert(after.component_color@[after.labels@[p] as int] == seg.component_color@[r as int]);
    }
}

/// Trace every opaque region (except the background).
fn trace_regions<W: Precise>(
    seg: &Segmentation,
    palette: &Vec<[u8; 3]>,
    bg: Option<usize>,
    cfg: &TraceConfig<W>,
) -> (regions: Vec<Region>)
    requires
        precise::<W>(),
        seg.wf(),
        seg.width <= i32::MAX,
        seg.height <= i32::MAX,
        in_palette(seg.component_color@, palette@.len() as int),
        match bg {
            Some(c) => background_of(seg, cfg.background) == Some(c as int),
            None => background_of(seg, cfg.background) is None,
        },
    ensures
        ({
            let shapes = drawn(
                seg,
                palette@.map_values(|c: [u8; 3]| color_number(c)),
                cfg,
                seg.num_components as int,
            );
            &&& regions@.len() == shapes.len()
            &&& forall|i: int|
                0 <= i < regions@.len() ==> shows(
                    #[trigger] regions@[i],
                    shapes[i].0,
                    shapes[i].1,
                )
        }),
{
    proof {
        lemma_num_bound(seg);
    }
    let ghost pal = palette@.map_values(|c: [u8; 3]| color_number(c));
    let bboxes: Vec<(usize, usize, usize, usize)> = seg.bboxes();
    let mut regions: Vec<Region> = Vec::new();
    let mut c: usize = 0;
    while c < seg.num_components
        invariant
            precise::<W>(),
            seg.wf(),
            seg.width <= i32::MAX,
            seg.height <= i32::MAX,
            seg.num_components <= u32::MAX,
            in_palette(seg.component_color@, palette@.len() as int),
            pal == palette@.map_values(|c: [u8; 3]| color_number(c)),
            bboxes@.len() == seg.num_components,
            forall|c: int|
                0 <= c < bboxes@.len() ==> is_bbox(
                    seg.labels@,
                    seg.width as int,
                    seg.labels@.len() as int,
                    c,
                    #[trigger] bboxes@[c],
                ),
            match bg {
                Some(c) => background_of(seg, cfg.background) == Some(c as int),
                None => background_of(seg, cfg.background) is None,
            },
            c <= seg.num_components,
            regions@.len() == drawn(seg, pal, cfg, c as int).len(),
            forall|i: int|
                0 <= i < regions@.len() ==> shows(
                    #[trigger] regions@[i],
                    drawn(seg, pal, cfg, c as int)[i].0,
                    drawn(seg, pal, cfg, c as int)[i].1,
                ),
        decreases seg.num_components - c,
    {
        let is_bg: bool = match bg {
            Some(b) => b == c,
            None => false,
        };
        let ghost before = drawn(seg, pal, cfg, c as int);
        let ghost regions0 = regions@;
        let number: u32 = seg.component_color[c];
        if number != 0 && !is_bg {
            assert(seg.component_color@[c as int] <= palette@.len());
            let color: [u8; 3] = palette[(number - 1) as usize];
            let subpaths: Vec<Subpath> = trace_component(seg, c, bboxes[c], cfg.simplify);
            if subpaths.len() > 0 {
                let region: Region = Region { fill: Fill::Solid(color), subpaths };
                proof {
                    let loops = component_loops(seg, cfg.simplify, c as int);
                    assert(pal[number - 1] == color_number(color));
                    assert(shows(region, pal[number - 1], loops));
                    assert(drawn(seg, pal, cfg, c + 1) == before.push(
                        (pal[number - 1], loops),
                    ));
                }
                regions.push(region);
                proof {
                    let now = drawn(seg, pal, cfg, c + 1);
                    assert forall|i: int| 0 <= i < regions@.len() implies shows(
                        #[trigger] regions@[i],
                        now[i].0,
                        now[i].1,
                    ) by {
                        if i < before.len() {
                            assert(regions@[i] == regions0[i]);
                        }
                    }
                }
            }
        }
        c = c + 1;
    }
    regions
}

/// Trace an (already quantized) RGBA buffer into a flat-color SVG document.
pub fn trace_rgba<W: Precise>(
    pixels: &[u8],
    width: usize,
    height: usize,
    cfg: &TraceConfig<W>,
) -> (doc: String)
    requires
        precise::<W>(),
        0 < 4 * (width * height) <= pixels@.len() ==> width * height <= u32::MAX && width
            <= i32::MAX && height <= i32::MAX,
    ensures
        width * height == 0 || pixels@.len() < 4 * (width * height) ==> doc@ == svg_text(
            width,
            height,
            None,
            Seq::empty(),
        ),
        0 < 4 * (width * height) <= pixels@.len() ==> exists|
            before: Segmentation,
            after: Segmentation,
            background: Option<[u8; 3]>,
            regions: Seq<Region>,
        | #[trigger]
            is_trace(
                pixels@,
                width,
                height,
                cfg,
                &before,
                &after,
                background,
                regions,
                doc@,
            ),
{
    let len: usize = pixels.len();
    let none: Vec<Region> = Vec::new();
    assert(none@ =~= Seq::<Region>::empty());
    proof {
        assert(width == 0 || height == 0 ==> width * height == 0) by (nonlinear_arith);
        assert(width > 0 && height > 0 ==> width * height > 0) by (nonlinear_arith);
    }
    if width == 0 || height == 0 || !fits(width, height, len / 4) {
        return to_svg(width, height, None, none.as_slice());
    }
    let n: usize = width * height;
    let (idx, palette): (Vec<u32>, Vec<[u8; 3]>) = index_colors(pixels, cfg.alpha_threshold, n);
    let mut seg: Segmentation = segment(idx.as_slice(), width, height);
    let ghost before = seg;
    proof {
        assert(segments(idx@, width, height, &before));
        lemma_colors_in_palette(pixels@, cfg.alpha_threshold, idx@, &before, n as int);
        lemma_merge_map_range(&before, cfg.min_area);
        assert(palette@.map_values(|c: [u8; 3]| color_number(c)).len() == palette@.len());
    }
    seg.merge_small(cfg.min_area);
    let ghost pal = palette_of(pixels@, cfg.alpha_threshold, n as int);
    proof {
        lemma_merged_in_palette(
            &before,
            before.merge_map(cfg.min_area),
            &seg,
            palette@.len() as int,
        );
    }
    let bg: Option<usize> = pick_background(&seg, cfg.background);
    let background: Option<[u8; 3]> = match bg {
        Some(c) => {
            proof {
                assert(is_largest(seg.component_color@, seg.component_area@, c as int));
                assert(seg.component_color@[c as int] != 0);
                assert(pal[seg.component_color@[c as int] - 1] == color_number(
                    palette@[seg.component_color@[c as int] - 1],
                ));
            }
            Some(palette[(seg.component_color[c] - 1) as usize])
        },
        None => None,
    };
    let regions: Vec<Region> = trace_regions(&seg, &palette, bg, cfg);
    let doc: String = to_svg(width, height, background, regions.as_slice());
    assert(is_trace(
        pixels@,
        width,
        height,
        cfg,
        &before,
        &seg,
        background,
        regions@,
        doc@,
    ));
    doc
}

/// Whether `width * height` is at most `limit`.
fn fits(width: usize, height: usize, limit: usize) -> (r: bool)
    requires
        width > 0,
    ensures
        r == (width * height <= limit),
{
    proof {
        let q = limit as int / width as int;
        vstd::arithmetic::div_mod::lemma_fundamental_div_mod(limit as int, width as int);
        vstd::arithmetic::div_mod::lemma_mod_bound(limit as int, width as int);
        assert(height <= q <==> width * height <= limit) by (nonlinear_arith)
            requires
                limit == width * q + limit as int % width as int,
                0 <= limit as int % width as int,
                (limit as int % width as int) < width,
                width > 0,
        ;
    }
    height <= limit / width
}

} // verus!
