//! What a traced document shows of an image.

use vstd::prelude::*;

use crate::drawing::{
    law_every_contour_is_drawn, law_every_region_is_drawn, shapes_all, simplifies_all,
};
use crate::elements::{
    holds, is_color, is_document, law_documents_hold_their_parts, law_flat_regions_are_painted,
    lemma_holds, paints, path_element, splits,
};
use crate::number::Precise;
use crate::paths::{commands, draws_all, law_regions_read_back};
use crate::segment::Segmentation;
use crate::svg::{
    body_text, color_number, defs_element, gradients_after, rect_text, region_text, skip_number,
    subpath_text, subpaths_text, svg_open, svg_text, Region, Subpath,
};
use crate::trace::{
    component_loops, drawn, is_polygon, is_trace, palette_of, raw_loops, TraceConfig,
};

verus! {

/// What the body paints the document paints.
proof fn lemma_document_paints(
    width: usize,
    height: usize,
    background: Option<[u8; 3]>,
    regions: Seq<Region>,
    part: Seq<char>,
    c: [u8; 3],
)
    requires
        paints(body_text(regions, skip_number(background), Seq::empty()), part, c),
    ensures
        paints(svg_text(width, height, background, regions), part, c),
{
    let t = svg_text(width, height, background, regions);
    let body = body_text(regions, skip_number(background), Seq::empty());
    let open = svg_open(width, height);
    let rect = rect_text(width, height, background);
    let defs = defs_element(gradients_after(regions, Seq::empty(), regions.len() as int));
    law_documents_hold_their_parts(width, height, background, regions, Seq::empty());
    assert(is_document(t, open, rect, defs, body));
    let end = "</svg>\n"@;
    let whole = open + rect + defs + body;
    let lead = choose|lead: Seq<char>| #[trigger]
        splits(t, lead, whole, end) && "<?xml"@.is_prefix_of(lead);
    let (d, fill) = choose|d: Seq<char>, fill: Seq<char>|
        #![trigger path_element(d, fill)]
        is_color(fill, c) && holds(d, part) && holds(body, path_element(d, fill));
    let element = path_element(d, fill);
    let (a, b) = choose|a: Seq<char>, b: Seq<char>| #[trigger] splits(body, a, element, b);
    lemma_inside(lead, open + rect + defs, a, element, b, end);
    assert(t == lead + (open + rect + defs + (a + element + b)) + end);
    lemma_holds(t, lead + (open + rect + defs) + a, element, b + end);
}

proof fn lemma_inside(
    lead: Seq<char>,
    head: Seq<char>,
    a: Seq<char>,
    element: Seq<char>,
    b: Seq<char>,
    end: Seq<char>,
)
    ensures
        lead + (head + (a + element + b)) + end == lead + head + a + element + (b + end),
{
    assert(lead + (head + (a + element + b)) + end =~= lead + head + a + element + (b + end));
}

/// A region whose first subpath has two segments or more draws something.
proof fn lemma_draws_something(sps: Seq<Subpath>, n: int)
    requires
        0 < n <= sps.len(),
        sps[0].segs@.len() >= 2,
    ensures
        subpaths_text(sps, n).len() > 0,
    decreases n,
{
    reveal_strlit("M");
    if n > 1 {
        lemma_draws_something(sps, n - 1);
    } else {
        assert(subpath_text(sps[0]).len() > 0);
    }
}

/// A traced document shows every region: each shape that is drawn is part of a path in its colour,
/// whose data reads back as all its polygons, the outer ones and the holes. Shapes of the colour
/// of the background, which covers the document, are left to it.
pub proof fn law_traces_show_every_region<W: Precise>(
    pixels: Seq<u8>,
    width: usize,
    height: usize,
    cfg: &TraceConfig<W>,
    before: &Segmentation,
    after: &Segmentation,
    background: Option<[u8; 3]>,
    regions: Seq<Region>,
    doc: Seq<char>,
    i: int,
)
    requires
        is_trace(pixels, width, height, cfg, before, after, background, regions, doc),
        0 <= i < regions.len(),
    ensures
        ({
            let palette = palette_of(pixels, cfg.alpha_threshold, width * height);
            let shapes = drawn(after, palette, cfg, after.num_components as int);
            let r = regions[i];
            &&& regions.len() == shapes.len()
            &&& r.fill is Solid
            &&& color_number(r.fill->Solid_0) == shapes[i].0
            &&& skip_number(background) != Some(shapes[i].0) ==> paints(
                doc,
                region_text(r),
                r.fill->Solid_0,
            )
            &&& draws_all(commands(region_text(r)), r.subpaths@, r.subpaths@.len() as int)
            &&& r.subpaths@.len() == shapes[i].1.len()
            &&& forall|j: int|
                0 <= j < r.subpaths@.len() ==> is_polygon(#[trigger] r.subpaths@[j], shapes[i].1[j])
                    && r.subpaths@[j].segs@.len() >= 2
        }),
{
    let palette = palette_of(pixels, cfg.alpha_threshold, width * height);
    let n = after.num_components as int;
    let shapes = drawn(after, palette, cfg, n);
    let r = regions[i];
    law_every_region_is_drawn(after, palette, cfg);
    let from = choose|from: Seq<int>| shapes_all(after, palette, cfg, n, shapes, from);
    assert(shapes_all(after, palette, cfg, n, shapes, from));
    let c = from[i];
    assert(0 <= from[i] < n);
    let loops = component_loops(after, cfg.simplify, c);
    assert(shapes[i].1 == loops);
    law_every_contour_is_drawn(after, cfg.simplify, c);
    let picked = choose|picked: Seq<int>|
        simplifies_all(raw_loops(after, c), cfg.simplify, loops, picked);
    assert(simplifies_all(raw_loops(after, c), cfg.simplify, loops, picked));
    assert forall|j: int| 0 <= j < r.subpaths@.len() implies is_polygon(
        #[trigger] r.subpaths@[j],
        loops[j],
    ) && r.subpaths@[j].segs@.len() >= 2 by {
        assert(0 <= picked[j] < raw_loops(after, c).len());
        assert(loops[j].len() >= 3);
    }
    assert(is_polygon(r.subpaths@[0], loops[0]) && r.subpaths@[0].segs@.len() >= 2);
    lemma_draws_something(r.subpaths@, r.subpaths@.len() as int);
    law_regions_read_back(r);
    if skip_number(background) != Some(shapes[i].0) {
        law_flat_regions_are_painted(regions, skip_number(background), Seq::empty(), i);
        lemma_document_paints(
            width,
            height,
            background,
            regions,
            region_text(r),
            r.fill->Solid_0,
        );
    }
}

} // verus!
