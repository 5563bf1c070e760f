//! What becomes of a model's detections: none is lost on the way to an object.

use vstd::prelude::*;

use crate::arithmetic::lemma_order;
use crate::detect::{kept_by_nms, law_nms_keeps_the_best, DetView};
use crate::grid::lemma_pixel_index;
use crate::number::{at_least, below, ordered, product_of, trunc_count_of, whole_of, Number};
use crate::objseg::{
    area_keys, assembled, cell_of, confident, crop_of, det_at, found, instance_of, is_set,
    largest_first, lemma_confident, lemma_mask_area_bound, mask_area, mask_of, soft_mask,
    Placement, SegConfig,
};
use crate::order::{lemma_order_covers, lemma_order_exists, stable_order};
use crate::outputs::{
    area_of, channels, has_channels, is_detection, is_prototype, layout_of, Layout,
};

verus! {

/// The detections are those at the anchors `from`, in their order, none of which scores below the
/// threshold, and no anchor below `n` is left out that does not.
pub open spec fn selects_all<R: Number>(
    data: Seq<R>,
    layout: Layout,
    conf: R,
    n: int,
    dets: Seq<DetView<R>>,
    from: Seq<int>,
) -> bool {
    &&& from.len() == dets.len()
    &&& forall|k: int|
        0 <= k < from.len() ==> 0 <= #[trigger] from[k] < n && dets[k] == det_at(
            data,
            layout,
            from[k],
        ) && !below(dets[k].1, conf)
    &&& forall|k: int, l: int| 0 <= k < l < from.len() ==> #[trigger] from[k] < #[trigger] from[l]
    &&& forall|a: int|
        0 <= a < n && !below((#[trigger] det_at(data, layout, a)).1, conf) ==> from.contains(a)
}

proof fn lemma_selects_all<R: Number>(data: Seq<R>, layout: Layout, conf: R, n: int) -> (from: Seq<
    int,
>)
    requires
        0 <= n,
    ensures
        selects_all(data, layout, conf, n, confident(data, layout, conf, n), from),
    decreases n,
{
    if n == 0 {
        Seq::empty()
    } else {
        let before = lemma_selects_all(data, layout, conf, n - 1);
        let was = confident(data, layout, conf, n - 1);
        let now = confident(data, layout, conf, n);
        let last = det_at(data, layout, n - 1);
        let from = if below(last.1, conf) {
            before
        } else {
            before.push(n - 1)
        };
        assert forall|k: int| 0 <= k < from.len() implies 0 <= #[trigger] from[k] < n && now[k]
            == det_at(data, layout, from[k]) && !below(now[k].1, conf) by {
            if k < before.len() {
                assert(from[k] == before[k]);
                assert(now[k] == was[k]);
            }
        }
        assert forall|k: int, l: int| 0 <= k < l < from.len() implies #[trigger] from[k]
            < #[trigger] from[l] by {
            assert(from[k] == before[k]);
            if l < before.len() {
                assert(from[l] == before[l]);
            }
        }
        assert forall|a: int|
            0 <= a < n && !below((#[trigger] det_at(data, layout, a)).1, conf) implies from.contains(
            a,
        ) by {
            if a < n - 1 {
                let k = choose|k: int| 0 <= k < before.len() && before[k] == a;
                assert(from[k] == a);
            } else {
                assert(from[before.len() as int] == a);
            }
        }
        from
    }
}

/// Every detection that does not score below the confidence asked for is taken up, in the order of
/// the anchors, and no other is.
pub proof fn law_confident_detections_are_taken<R: Number>(
    data: Seq<R>,
    layout: Layout,
    conf: R,
    n: int,
)
    requires
        0 <= n,
    ensures
        exists|from: Seq<int>|
            selects_all(data, layout, conf, n, confident(data, layout, conf, n), from),
{
    let from = lemma_selects_all(data, layout, conf, n);
    assert(selects_all(data, layout, conf, n, confident(data, layout, conf, n), from));
}

/// The two layouts hold the same detections: one channel after the other in the first, one anchor
/// after the other in the second.
pub open spec fn transposed<R>(a: Seq<R>, b: Seq<R>, anchors: int, rows: int) -> bool {
    forall|ch: int, i: int|
        #![trigger a[ch * anchors + i]]
        #![trigger b[i * rows + ch]]
        0 <= ch < rows && 0 <= i < anchors ==> a[ch * anchors + i] == b[i * rows + ch]
}

/// It does not matter how the detections are laid out: from a tensor with one channel after the
/// other comes what comes from one with the same numbers, one anchor after the other. Of each
/// anchor the fifth number is the score, and the mask coefficients follow it.
pub proof fn law_layouts_read_alike<R: Number>(
    a: Seq<R>,
    b: Seq<R>,
    major: Layout,
    minor: Layout,
    i: int,
)
    requires
        major.channel_major,
        !minor.channel_major,
        major.anchors == minor.anchors,
        major.proto_c == minor.proto_c,
        0 <= i < major.anchors,
        transposed(a, b, major.anchors as int, channels(major)),
    ensures
        det_at(a, major, i) == det_at(b, minor, i),
        det_at(a, major, i).1 == a[4 * major.anchors + i],
        det_at(a, major, i).2.len() == major.proto_c,
        forall|k: int|
            0 <= k < major.proto_c ==> #[trigger] det_at(a, major, i).2[k] == a[(5 + k)
                * major.anchors + i],
{
    let (n, c) = (major.anchors as int, channels(major));
    assert(a[0 * n + i] == b[i * c + 0]);
    assert(a[1 * n + i] == b[i * c + 1]);
    assert(a[2 * n + i] == b[i * c + 2]);
    assert(a[3 * n + i] == b[i * c + 3]);
    assert(a[4 * n + i] == b[i * c + 4]);
    assert forall|k: int| 0 <= k < major.proto_c implies #[trigger] det_at(a, major, i).2[k]
        == det_at(b, minor, i).2[k] by {
        assert(a[(5 + k) * n + i] == b[i * c + (5 + k)]);
    }
    assert(det_at(a, major, i).2 =~= det_at(b, minor, i).2);
}

/// An object that a kept detection makes is among those that are found.
proof fn lemma_found_all<R: Number>(
    dets: Seq<DetView<R>>,
    keep: Seq<usize>,
    protos: Seq<R>,
    p: Placement<R>,
    layout: Layout,
    side: usize,
    threshold: R,
    min_area: u32,
    w: int,
    h: int,
    j: int,
    n: int,
) -> (k: int)
    requires
        0 <= j < n,
        instance_of(
            dets[keep[j] as int],
            protos,
            p,
            layout,
            side,
            threshold,
            min_area,
            w,
            h,
        ) is Some,
    ensures
        ({
            let all = found(dets, keep, protos, p, layout, side, threshold, min_area, w, h, n);
            &&& 0 <= k < all.len()
            &&& Some(all[k]) == instance_of(
                dets[keep[j] as int],
                protos,
                p,
                layout,
                side,
                threshold,
                min_area,
                w,
                h,
            )
        }),
    decreases n,
{
    let before = found(dets, keep, protos, p, layout, side, threshold, min_area, w, h, n - 1);
    if j == n - 1 {
        before.len() as int
    } else {
        lemma_found_all(dets, keep, protos, p, layout, side, threshold, min_area, w, h, j, n - 1)
    }
}

/// Every detection that is kept and whose mask is large enough becomes an object, with its mask,
/// its box and its score.
pub proof fn law_kept_detections_become_objects<R: Number>(
    all: Seq<(Vec<i64>, Vec<R>)>,
    layout: Layout,
    cfg: &SegConfig<R>,
    p: Placement<R>,
    side: usize,
    w: int,
    h: int,
    j: int,
)
    requires
        ({
            let dets = confident(
                all[layout.det as int].1@,
                layout,
                cfg.conf,
                layout.anchors as int,
            );
            let keep = kept_by_nms(dets, cfg.iou, cfg.max_objects);
            0 <= j < keep.len()
        }),
    ensures
        ({
            let dets = confident(
                all[layout.det as int].1@,
                layout,
                cfg.conf,
                layout.anchors as int,
            );
            let keep = kept_by_nms(dets, cfg.iou, cfg.max_objects);
            let min_area = trunc_count_of(
                product_of(cfg.min_area_frac, whole_of::<R>((w * h) as usize)),
            );
            instance_of(
                dets[keep[j] as int],
                all[layout.proto as int].1@,
                p,
                layout,
                side,
                cfg.mask_threshold,
                min_area,
                w,
                h,
            ) matches Some(i) ==> assembled(all, layout, cfg, p, side, w, h).contains(i)
        }),
{
    let data = all[layout.det as int].1@;
    let dets = confident(data, layout, cfg.conf, layout.anchors as int);
    lemma_confident(data, layout, cfg.conf, layout.anchors as int);
    let keep = kept_by_nms(dets, cfg.iou, cfg.max_objects);
    law_nms_keeps_the_best(dets, cfg.iou, cfg.max_objects);
    let protos = all[layout.proto as int].1@;
    let t = cfg.mask_threshold;
    let min_area = trunc_count_of(product_of(cfg.min_area_frac, whole_of::<R>((w * h) as usize)));
    let d = dets[keep[j] as int];
    let made = instance_of(d, protos, p, layout, side, t, min_area, w, h);
    if made is Some {
        let n = keep.len() as int;
        let k = lemma_found_all(dets, keep, protos, p, layout, side, t, min_area, w, h, j, n);
        let instances = found(dets, keep, protos, p, layout, side, t, min_area, w, h, n);
        lemma_found_len(dets, keep, protos, p, layout, side, t, min_area, w, h, n);
        let keys = area_keys(instances);
        lemma_order_exists(keys);
        let order = stable_order(keys);
        lemma_order_covers(keys, order, k as usize);
        let m = choose|m: int| 0 <= m < order.len() && order[m] == k as usize;
        let objects = largest_first(instances);
        assert(objects[m] == instances[k]);
    }
}

proof fn lemma_found_len<R: Number>(
    dets: Seq<DetView<R>>,
    keep: Seq<usize>,
    protos: Seq<R>,
    p: Placement<R>,
    layout: Layout,
    side: usize,
    threshold: R,
    min_area: u32,
    w: int,
    h: int,
    n: int,
)
    requires
        0 <= n,
    ensures
        found(dets, keep, protos, p, layout, side, threshold, min_area, w, h, n).len() <= n,
    decreases n,
{
    if n > 0 {
        lemma_found_len(dets, keep, protos, p, layout, side, threshold, min_area, w, h, n - 1);
    }
}

/// A higher threshold sets no more pixels.
pub proof fn law_higher_thresholds_set_fewer_pixels<R: Number>(
    soft: Seq<R>,
    crop: (int, int, int, int),
    p: Placement<R>,
    layout: Layout,
    side: usize,
    low: R,
    high: R,
    w: int,
    h: int,
    q: int,
)
    requires
        ordered::<R>(),
        at_least(high, low),
        0 <= q < w * h,
        mask_of(soft, crop, p, layout, side, high, w, h)[q] == 1,
    ensures
        mask_of(soft, crop, p, layout, side, low, w, h)[q] == 1,
        crop.0 <= q % w < crop.2,
        crop.1 <= q / w < crop.3,
{
    let px = cell_of((q % w) as usize, p.scale, p.padx, layout.pw, side);
    let py = cell_of((q / w) as usize, p.scale, p.pady, layout.ph, side);
    assert(is_set(soft, crop, p, layout, side, high, q % w, q / w));
    lemma_order(soft[py * layout.pw + px], high, low);
}

/// A layout that is read matches the shapes of the outputs: the prototypes are of rank 4, and none
/// of that rank is larger across and down; the detections are of rank 3, with a box, a score and a
/// coefficient for each prototype along one of the last two dimensions and the anchors along the
/// other.
pub proof fn law_layouts_match_the_shapes(shapes: Seq<Seq<i64>>, lens: Seq<int>, layout: Layout)
    requires
        layout_of(shapes, lens) == Ok::<Layout, crate::outputs::LayoutError>(layout),
        shapes.len() <= usize::MAX,
    ensures
        layout.proto < shapes.len(),
        layout.det < shapes.len(),
        ({
            let (p, d) = (shapes[layout.proto as int], shapes[layout.det as int]);
            &&& p.len() == 4
            &&& p[1] == layout.proto_c && p[2] == layout.ph && p[3] == layout.pw
            &&& lens[layout.proto as int] == layout.proto_c * (layout.ph * layout.pw)
            &&& forall|j: int|
                0 <= j < shapes.len() && (#[trigger] shapes[j]).len() == 4 ==> area_of(shapes[j])
                    <= area_of(p)
            &&& d.len() == 3
            &&& layout.channel_major ==> d[1] == layout.proto_c + 5 && d[2] == layout.anchors
            &&& !layout.channel_major ==> d[2] == layout.proto_c + 5 && d[1] == layout.anchors
            &&& lens[layout.det as int] >= (layout.proto_c + 5) * layout.anchors
        }),
{
    let p = choose|i: int| is_prototype(shapes, i);
    assert(is_prototype(shapes, p));
    let c = shapes[p][1] + 5;
    let d = choose|i: int| is_detection(shapes, c, i);
    assert(is_detection(shapes, c, d));
}

/// The places of the set pixels among the first `n`.
pub open spec fn set_pixels(mask: Seq<u8>, n: int) -> Set<int> {
    Set::new(|q: int| 0 <= q < n && mask[q] == 1)
}

/// The area of a mask is the number of its set pixels.
pub proof fn law_areas_count_set_pixels(mask: Seq<u8>)
    ensures
        set_pixels(mask, mask.len() as int).finite(),
        mask_area(mask) == set_pixels(mask, mask.len() as int).len(),
    decreases mask.len(),
{
    let n = mask.len() as int;
    let now = set_pixels(mask, n);
    if n == 0 {
        assert(now =~= Set::empty());
    } else {
        let head = mask.drop_last();
        law_areas_count_set_pixels(head);
        let before = set_pixels(head, n - 1);
        if mask.last() == 1 {
            assert(now =~= before.insert(n - 1));
        } else {
            assert(now =~= before);
        }
    }
}

/// A pixel is set exactly if it lies in the crop and the soft mask reaches the threshold in the cell
/// that the pixel falls into.
pub proof fn law_masks_are_cut_at_the_threshold<R: Number>(
    soft: Seq<R>,
    crop: (int, int, int, int),
    p: Placement<R>,
    layout: Layout,
    side: usize,
    threshold: R,
    w: int,
    h: int,
    x: int,
    y: int,
)
    requires
        0 <= x < w,
        0 <= y < h,
    ensures
        ({
            let mask = mask_of(soft, crop, p, layout, side, threshold, w, h);
            let px = cell_of(x as usize, p.scale, p.padx, layout.pw, side);
            let py = cell_of(y as usize, p.scale, p.pady, layout.ph, side);
            let set = crop.0 <= x < crop.2 && crop.1 <= y < crop.3 && px < layout.pw && py
                < layout.ph && at_least(soft[py * layout.pw + px], threshold);
            &&& mask.len() == w * h
            &&& mask[y * w + x] == if set {
                1u8
            } else {
                0u8
            }
        }),
{
    lemma_pixel_index(w, h, x, y);
}

/// A detection makes an object exactly if its crop is not empty and its mask has as many pixels as
/// asked for, and one at least; the object then has this mask, the crop as its box, the
/// detection's score and the mask's area.
pub proof fn law_large_masks_make_objects<R: Number>(
    d: DetView<R>,
    protos: Seq<R>,
    p: Placement<R>,
    layout: Layout,
    side: usize,
    threshold: R,
    min_area: u32,
    w: int,
    h: int,
)
    requires
        0 <= w <= u32::MAX,
        0 <= h <= u32::MAX,
        w * h <= u32::MAX,
    ensures
        ({
            let crop = crop_of(d, p, w, h);
            let soft = soft_mask(d.2, protos, layout.ph * layout.pw);
            let mask = mask_of(soft, crop, p, layout, side, threshold, w, h);
            let made = instance_of(d, protos, p, layout, side, threshold, min_area, w, h);
            &&& made is Some <==> crop.0 < crop.2 && crop.1 < crop.3 && mask_area(mask) >= min_area
                && mask_area(mask) >= 1
            &&& made matches Some(i) ==> {
                &&& i.0 == mask
                &&& i.1.0 == crop.0 && i.1.1 == crop.1 && i.1.2 == crop.2 && i.1.3 == crop.3
                &&& i.2 == d.1
                &&& i.3 == mask_area(mask)
            }
        }),
{
    let crop = crop_of(d, p, w, h);
    let soft = soft_mask(d.2, protos, layout.ph * layout.pw);
    let mask = mask_of(soft, crop, p, layout, side, threshold, w, h);
    lemma_mask_area_bound(mask);
    assert(0 <= w * h) by (nonlinear_arith)
        requires
            0 <= w,
            0 <= h,
    ;
}

/// Outputs are read wherever they can be: the prototypes and the detections are found where the
/// shapes say, if their sizes are sane and their lengths sufficient.
pub proof fn law_readable_outputs_are_read(
    shapes: Seq<Seq<i64>>,
    lens: Seq<int>,
    p: int,
    d: int,
    anchors: int,
)
    requires
        shapes.len() <= usize::MAX,
        is_prototype(shapes, p),
        0 < shapes[p][1] <= 1_000_000,
        0 < shapes[p][2] <= 1_000_000,
        0 < shapes[p][3] <= 1_000_000,
        lens[p] == shapes[p][1] * (shapes[p][2] * shapes[p][3]),
        lens[p] <= usize::MAX,
        is_detection(shapes, shapes[p][1] + 5, d),
        anchors == if shapes[d][1] == shapes[p][1] + 5 {
            shapes[d][2]
        } else {
            shapes[d][1]
        },
        0 < anchors <= 1_000_000,
        (shapes[p][1] + 5) * anchors <= lens[d] <= usize::MAX,
    ensures
        layout_of(shapes, lens) matches Ok(layout) && layout.proto == p && layout.det == d
            && layout.anchors == anchors && layout.proto_c == shapes[p][1],
{
    let q = choose|i: int| is_prototype(shapes, i);
    assert(is_prototype(shapes, q));
    if q < p {
        assert(area_of(shapes[p]) < area_of(shapes[q]));
        assert(area_of(shapes[q]) <= area_of(shapes[p]));
    } else if p < q {
        assert(area_of(shapes[q]) < area_of(shapes[p]));
        assert(area_of(shapes[p]) <= area_of(shapes[q]));
    }
    let c = shapes[p][1] + 5;
    let e = choose|i: int| is_detection(shapes, c, i);
    assert(is_detection(shapes, c, e));
    if e < d {
        assert(!has_channels(shapes, c, e));
    } else if d < e {
        assert(!has_channels(shapes, c, d));
    }
    let (a, b, k) = (shapes[p][2] as int, shapes[p][3] as int, shapes[p][1] as int);
    assert(a * b <= k * (a * b)) by (nonlinear_arith)
        requires
            0 < a,
            0 < b,
            0 < k,
    ;
}

} // verus!
