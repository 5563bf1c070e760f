//! The same image always traces to the same document.

use vstd::prelude::*;

use crate::contour::Pt;
use crate::grid::{count_of, is_first, lemma_first_place, numbered_by_first_occurrence};
use crate::merge::{class_area, lemma_joins_unique, lemma_num_bound};
use crate::number::Precise;
use crate::order::stable_order;
use crate::segment::{is_bbox, lemma_bbox_exists, Segmentation};
use crate::svg::{
    color_number, color_text, gradient_paths, gradients_after, region_text, skip_number,
    solid_paths, subpaths_text, svg_text, Fill, GradientKey, Region,
};
use crate::trace::{
    background_of, bbox_of, component_loops, drawn, is_polygon, is_trace, lemma_bbox_unique,
    palette_of, raw_loops, shows, TraceConfig,
};

verus! {

/// The two number their places by the same classes.
spec fn same_classes(a: Seq<u32>, b: Seq<u32>) -> bool {
    &&& a.len() == b.len()
    &&& forall|p: int, q: int|
        #![trigger a[p], b[q]]
        0 <= p < a.len() && 0 <= q < a.len() ==> (a[p] == a[q] <==> b[p] == b[q])
}

/// A new class cannot get a lower number on one side.
proof fn lemma_not_lower(a: Seq<u32>, b: Seq<u32>, num_b: int, p: int)
    requires
        same_classes(a, b),
        numbered_by_first_occurrence(b, num_b),
        0 <= p < a.len(),
        is_first(a, p),
        forall|q: int| 0 <= q < p ==> #[trigger] a[q] == b[q],
    ensures
        a[p] >= b[p],
{
    if a[p] < b[p] {
        let v = a[p];
        assert(v < num_b) by {
            assert(b[p] < num_b);
        }
        assert(b.contains(v));
        let s = choose|s: int| 0 <= s < b.len() && b[s] == v;
        let r = lemma_first_place(b, s);
        if r > p {
            assert(b[p] < b[r]);
        } else if r < p {
            assert(a[r] == b[r]);
        }
        assert(false);
    }
}

/// Classes can be numbered by their first occurrence in one way only.
proof fn lemma_numbers_agree(a: Seq<u32>, num_a: int, b: Seq<u32>, num_b: int, k: int)
    requires
        same_classes(a, b),
        numbered_by_first_occurrence(a, num_a),
        numbered_by_first_occurrence(b, num_b),
        0 <= k <= a.len(),
    ensures
        forall|q: int| 0 <= q < k ==> #[trigger] a[q] == b[q],
    decreases k,
{
    if k > 0 {
        lemma_numbers_agree(a, num_a, b, num_b, k - 1);
        let p = k - 1;
        if is_first(a, p) {
            assert(is_first(b, p)) by {
                assert forall|q: int| 0 <= q < p implies #[trigger] b[q] != b[p] by {
                    assert(a[q] != a[p]);
                }
            }
            lemma_not_lower(a, b, num_b, p);
            assert(same_classes(b, a)) by {
                assert forall|i: int, j: int|
                    #![trigger b[i], a[j]]
                    0 <= i < b.len() && 0 <= j < b.len() implies (b[i] == b[j] <==> a[i]
                    == a[j]) by {
                    assert(a[i] == a[j] <==> b[i] == b[j]);
                }
            }
            lemma_not_lower(b, a, num_a, p);
        } else {
            let q = choose|q: int| 0 <= q < p && #[trigger] a[q] == a[p];
            assert(b[q] == b[p]);
        }
    }
}

proof fn lemma_numbering_unique(a: Seq<u32>, num_a: int, b: Seq<u32>, num_b: int)
    requires
        same_classes(a, b),
        numbered_by_first_occurrence(a, num_a),
        numbered_by_first_occurrence(b, num_b),
        0 <= num_a <= u32::MAX,
        0 <= num_b <= u32::MAX,
    ensures
        a == b,
        num_a == num_b,
{
    lemma_numbers_agree(a, num_a, b, num_b, a.len() as int);
    assert(a =~= b);
    if num_a < num_b {
        assert(b.contains(num_a as u32));
        let r = choose|r: int| 0 <= r < b.len() && b[r] == num_a as u32;
        assert(a[r] < num_a);
    } else if num_b < num_a {
        assert(a.contains(num_b as u32));
        let r = choose|r: int| 0 <= r < a.len() && a[r] == num_b as u32;
        assert(b[r] < num_b);
    }
}

/// The two segmentations hold the same.
spec fn alike(a: &Segmentation, b: &Segmentation) -> bool {
    &&& a.width == b.width
    &&& a.height == b.height
    &&& a.labels@ == b.labels@
    &&& a.num_components == b.num_components
    &&& a.component_color@ == b.component_color@
    &&& a.component_area@ == b.component_area@
}

/// Segmentations with the same classes and the same colours hold the same.
proof fn lemma_alike(a: &Segmentation, b: &Segmentation)
    requires
        a.wf(),
        b.wf(),
        a.width == b.width,
        a.height == b.height,
        same_classes(a.labels@, b.labels@),
        forall|p: int|
            #![trigger a.labels@[p]]
            0 <= p < a.labels@.len() ==> a.component_color@[a.labels@[p] as int]
                == b.component_color@[b.labels@[p] as int],
    ensures
        alike(a, b),
{
    lemma_num_bound(a);
    lemma_num_bound(b);
    lemma_numbering_unique(
        a.labels@,
        a.num_components as int,
        b.labels@,
        b.num_components as int,
    );
    assert forall|c: int| 0 <= c < a.num_components implies #[trigger] a.component_color@[c]
        == b.component_color@[c] by {
        assert(a.labels@.contains(c as u32));
        let p = choose|p: int| 0 <= p < a.labels@.len() && a.labels@[p] == c as u32;
        assert(a.component_color@[a.labels@[p] as int] == b.component_color@[b.labels@[p] as int]);
    }
    assert(a.component_color@ =~= b.component_color@);
    assert forall|c: int| 0 <= c < a.num_components implies #[trigger] a.component_area@[c]
        == b.component_area@[c] by {
        assert(a.component_area@[c] == count_of(a.labels@, c as u32));
        assert(b.component_area@[c] == count_of(b.labels@, c as u32));
    }
    assert(a.component_area@ =~= b.component_area@);
}

proof fn lemma_joins_alike(a: &Segmentation, b: &Segmentation, root: Seq<u32>, c: u32)
    requires
        alike(a, b),
    ensures
        forall|nb: u32| a.joins(root, c, nb) <==> #[trigger] b.joins(root, c, nb),
{
    assert forall|nb: u32| a.touching(c, nb) <==> #[trigger] b.touching(c, nb) by {}
    assert forall|nb: u32| a.can_join(root, c, nb) <==> #[trigger] b.can_join(root, c, nb) by {
        assert(a.touching(c, nb) <==> b.touching(c, nb));
    }
    assert forall|nb: u32| a.joins(root, c, nb) <==> #[trigger] b.joins(root, c, nb) by {
        assert(a.can_join(root, c, nb) <==> b.can_join(root, c, nb));
        assert forall|m: u32| a.joins(root, c, nb) && #[trigger] b.can_join(root, c, m) implies ({
            let am = class_area(b.component_area@, root, root[m as int]);
            let an = class_area(b.component_area@, root, root[nb as int]);
            am < an || (am == an && m <= nb)
        }) by {
            assert(a.can_join(root, c, m));
        }
        assert forall|m: u32| b.joins(root, c, nb) && #[trigger] a.can_join(root, c, m) implies ({
            let am = class_area(a.component_area@, root, root[m as int]);
            let an = class_area(a.component_area@, root, root[nb as int]);
            am < an || (am == an && m <= nb)
        }) by {
            assert(b.can_join(root, c, m));
        }
    }
}

proof fn lemma_folded_alike(a: &Segmentation, b: &Segmentation, min_area: u32, k: int)
    requires
        alike(a, b),
    ensures
        a.folded(min_area, k) == b.folded(min_area, k),
    decreases k,
{
    if k > 0 {
        lemma_folded_alike(a, b, min_area, k - 1);
        let root = a.folded(min_area, k - 1);
        let c = stable_order(a.component_area@)[k - 1] as u32;
        lemma_joins_alike(a, b, root, c);
        if exists|nb: u32| a.joins(root, c, nb) {
            let x = choose|nb: u32| a.joins(root, c, nb);
            assert(b.joins(root, c, x));
            let y = choose|nb: u32| b.joins(root, c, nb);
            assert(a.joins(root, c, y));
            lemma_joins_unique(a, root, c, x, y);
        }
        assert(a.fold_one(min_area, root, c) == b.fold_one(min_area, root, c));
    }
}

/// Contours of alike segmentations.
proof fn lemma_loops_alike(a: &Segmentation, b: &Segmentation, c: int)
    requires
        alike(a, b),
        a.wf(),
    ensures
        raw_loops(a, c) == raw_loops(b, c),
{
    let (l, w, n) = (a.labels@, a.width as int, a.labels@.len() as int);
    lemma_bbox_exists(l, a.width, a.height, n, c);
    assert(is_bbox(l, w, n, c, bbox_of(a, c)));
    assert(is_bbox(l, w, n, c, bbox_of(b, c)));
    lemma_bbox_unique(l, w, n, c, bbox_of(a, c), bbox_of(b, c));
}

proof fn lemma_drawn_alike<W: Precise>(
    a: &Segmentation,
    b: &Segmentation,
    palette: Seq<u32>,
    cfg: &TraceConfig<W>,
    n: int,
)
    requires
        alike(a, b),
        a.wf(),
    ensures
        drawn(a, palette, cfg, n) == drawn(b, palette, cfg, n),
    decreases n,
{
    if n > 0 {
        lemma_drawn_alike(a, b, palette, cfg, n - 1);
        lemma_loops_alike(a, b, n - 1);
        assert(component_loops(a, cfg.simplify, n - 1) == component_loops(b, cfg.simplify, n - 1));
        assert(background_of(a, cfg.background) == background_of(b, cfg.background));
    }
}

/// Two regions look the same if they show the same polygons in the same flat colour.
proof fn lemma_look_alike(r: Region, s: Region, color: u32, loops: Seq<Seq<Pt>>, n: int)
    requires
        shows(r, color, loops),
        shows(s, color, loops),
        0 <= n <= loops.len(),
    ensures
        subpaths_text(r.subpaths@, n) == subpaths_text(s.subpaths@, n),
    decreases n,
{
    if n > 0 {
        lemma_look_alike(r, s, color, loops, n - 1);
        let (x, y) = (r.subpaths@[n - 1], s.subpaths@[n - 1]);
        assert(is_polygon(x, loops[n - 1]));
        assert(is_polygon(y, loops[n - 1]));
        assert(x.start == y.start && x.segs@ == y.segs@);
    }
}

/// All regions are flat, and in pairs they look the same.
spec fn in_pairs(r: Seq<Region>, s: Seq<Region>) -> bool {
    &&& r.len() == s.len()
    &&& forall|i: int|
        #![trigger r[i]]
        #![trigger s[i]]
        0 <= i < r.len() ==> {
            &&& region_text(r[i]) == region_text(s[i])
            &&& r[i].fill matches Fill::Solid(c) && s[i].fill matches Fill::Solid(d)
                && color_number(c) == color_number(d)
        }
}

proof fn lemma_colors_alike(r: Seq<Region>, s: Seq<Region>, c: u32, n: int)
    requires
        in_pairs(r, s),
        0 <= n <= r.len(),
    ensures
        color_text(r, c, n) == color_text(s, c, n),
    decreases n,
{
    if n > 0 {
        lemma_colors_alike(r, s, c, n - 1);
        assert(region_text(r[n - 1]) == region_text(s[n - 1]));
    }
}

proof fn lemma_solids_alike(r: Seq<Region>, s: Seq<Region>, skip: Option<u32>, c: int)
    requires
        in_pairs(r, s),
    ensures
        solid_paths(r, skip, c) == solid_paths(s, skip, c),
    decreases c,
{
    if c > 0 {
        lemma_solids_alike(r, s, skip, c - 1);
        lemma_colors_alike(r, s, (c - 1) as u32, r.len() as int);
    }
}

proof fn lemma_no_gradients(r: Seq<Region>, s: Seq<Region>, keys: Seq<GradientKey>, n: int)
    requires
        in_pairs(r, s),
        0 <= n <= r.len(),
    ensures
        gradients_after(r, keys, n) == keys,
        gradients_after(s, keys, n) == keys,
        gradient_paths(r, keys, n) == Seq::<char>::empty(),
        gradient_paths(s, keys, n) == Seq::<char>::empty(),
    decreases n,
{
    if n > 0 {
        lemma_no_gradients(r, s, keys, n - 1);
        assert(r[n - 1].fill is Solid && s[n - 1].fill is Solid);
    }
}

proof fn lemma_documents_alike(
    width: usize,
    height: usize,
    x: Option<[u8; 3]>,
    y: Option<[u8; 3]>,
    r: Seq<Region>,
    s: Seq<Region>,
)
    requires
        skip_number(x) == skip_number(y),
        in_pairs(r, s),
    ensures
        svg_text(width, height, x, r) == svg_text(width, height, y, s),
{
    lemma_solids_alike(r, s, skip_number(x), 0x100_0000);
    lemma_no_gradients(r, s, Seq::empty(), r.len() as int);
    if let (Some(c), Some(d)) = (x, y) {
        assert(color_number(c) == color_number(d));
        assert(c[0] == d[0] && c[1] == d[1] && c[2] == d[2]);
    }
}

/// The same image with the same settings always traces to the same document, whatever the order
/// in which regions are visited on the way.
pub proof fn law_tracing_is_repeatable<W: Precise>(
    pixels: Seq<u8>,
    width: usize,
    height: usize,
    cfg: &TraceConfig<W>,
    before: (Segmentation, Segmentation),
    after: (Segmentation, Segmentation),
    background: (Option<[u8; 3]>, Option<[u8; 3]>),
    regions: (Seq<Region>, Seq<Region>),
    doc: (Seq<char>, Seq<char>),
)
    requires
        is_trace(
            pixels,
            width,
            height,
            cfg,
            &before.0,
            &after.0,
            background.0,
            regions.0,
            doc.0,
        ),
        is_trace(
            pixels,
            width,
            height,
            cfg,
            &before.1,
            &after.1,
            background.1,
            regions.1,
            doc.1,
        ),
    ensures
        doc.0 == doc.1,
{
    let n = width * height;
    let palette = palette_of(pixels, cfg.alpha_threshold, n);
    let (b0, b1) = (&before.0, &before.1);
    let (a0, a1) = (&after.0, &after.1);
    lemma_alike(b0, b1);
    lemma_folded_alike(b0, b1, cfg.min_area, b0.num_components as int);
    let root = b0.merge_map(cfg.min_area);
    assert(root == b1.merge_map(cfg.min_area));
    lemma_alike(a0, a1);
    lemma_drawn_alike(a0, a1, palette, cfg, a0.num_components as int);
    assert(background_of(a0, cfg.background) == background_of(a1, cfg.background));
    let shapes = drawn(a0, palette, cfg, a0.num_components as int);
    let (r, s) = regions;
    assert forall|i: int| 0 <= i < r.len() implies ({
        &&& #[trigger] region_text(r[i]) == region_text(s[i])
        &&& r[i].fill matches Fill::Solid(c) && s[i].fill matches Fill::Solid(d)
            && color_number(c) == color_number(d)
    }) by {
        assert(shows(r[i], shapes[i].0, shapes[i].1));
        assert(shows(s[i], shapes[i].0, shapes[i].1));
        lemma_look_alike(r[i], s[i], shapes[i].0, shapes[i].1, shapes[i].1.len() as int);
    }
    assert(in_pairs(r, s)) by {
        assert forall|i: int|
            #![trigger r[i]]
            #![trigger s[i]]
            0 <= i < r.len() implies {
            &&& region_text(r[i]) == region_text(s[i])
            &&& r[i].fill matches Fill::Solid(c) && s[i].fill matches Fill::Solid(d)
                && color_number(c) == color_number(d)
        } by {
            assert(region_text(r[i]) == region_text(s[i]));
        }
    }
    lemma_documents_alike(width, height, background.0, background.1, r, s);
}

} // verus!
