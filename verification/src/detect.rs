//! Detections and non-max suppression.

use vstd::prelude::*;

use crate::number::{
    at_least, below, consistent, difference_of, greater_of, lesser_of, product_of, quotient_of,
    rank_of, ranked, sum_of, whole_of,
};
use crate::number::{
    from_index, greater, is_at_least, lesser, minus, over, plus, rank, times, Number,
};
use crate::order::{
    before, is_stable_order, lemma_order_covers, lemma_order_exists, sort_indices, stable_order,
};

verus! {

/// A detection in letterboxed input space.
pub struct Det<R> {
    // xyxy in input pixels.
    pub x1: R,
    pub y1: R,
    pub x2: R,
    pub y2: R,
    pub score: R,
    pub coeffs: Vec<R>,
}

/// A box as its corners `(x1, y1, x2, y2)`.
pub type Corners<R> = (R, R, R, R);

/// A detection as its box, its score and its mask coefficients.
pub type DetView<R> = (Corners<R>, R, Seq<R>);

impl<R> View for Det<R> {
    type V = DetView<R>;

    open spec fn view(&self) -> DetView<R> {
        ((self.x1, self.y1, self.x2, self.y2), self.score, self.coeffs@)
    }
}

/// The views of some detections.
pub open spec fn det_views<R>(dets: Seq<Det<R>>) -> Seq<DetView<R>> {
    dets.map_values(|d: Det<R>| d@)
}

/// A side from `a` to `b`, at least zero.
pub open spec fn extent<R: Number>(a: R, b: R) -> R {
    greater_of(difference_of(b, a), whole_of::<R>(0))
}

/// The intersection of two boxes over their union, or zero where the union is empty.
pub open spec fn overlap<R: Number>(a: Corners<R>, b: Corners<R>) -> R {
    let iw = extent(greater_of(a.0, b.0), lesser_of(a.2, b.2));
    let ih = extent(greater_of(a.1, b.1), lesser_of(a.3, b.3));
    let inter = product_of(iw, ih);
    let area_a = product_of(extent(a.0, a.2), extent(a.1, a.3));
    let area_b = product_of(extent(b.0, b.2), extent(b.1, b.3));
    let union = difference_of(sum_of(area_a, area_b), inter);
    if at_least(whole_of::<R>(0), union) {
        whole_of::<R>(0)
    } else {
        quotient_of(inter, union)
    }
}

fn side<R: Number>(a: R, b: R) -> (s: R)
    requires
        consistent::<R>(),
    ensures
        s == extent(a, b),
{
    greater(minus(b, a), from_index(0))
}

/// Intersection over union of two detections' boxes.
pub fn iou<R: Number>(a: &Det<R>, b: &Det<R>) -> (v: R)
    requires
        consistent::<R>(),
    ensures
        v == overlap(a@.0, b@.0),
{
    let ix1: R = greater(a.x1, b.x1);
    let iy1: R = greater(a.y1, b.y1);
    let ix2: R = lesser(a.x2, b.x2);
    let iy2: R = lesser(a.y2, b.y2);
    let iw: R = side(ix1, ix2);
    let ih: R = side(iy1, iy2);
    let inter: R = times(iw, ih);
    let area_a: R = times(side(a.x1, a.x2), side(a.y1, a.y2));
    let area_b: R = times(side(b.x1, b.x2), side(b.y1, b.y2));
    let union: R = minus(plus(area_a, area_b), inter);
    if is_at_least(from_index(0), union) {
        from_index(0)
    } else {
        over(inter, union)
    }
}

/// Keys that order scores from the highest to the lowest.
pub open spec fn score_keys<R: Number>(dets: Seq<DetView<R>>) -> Seq<u32> {
    dets.map_values(|d: DetView<R>| (u32::MAX - rank_of(d.1)) as u32)
}

/// The detections from the highest score to the lowest, equal ones in their order.
pub open spec fn by_score<R: Number>(dets: Seq<DetView<R>>) -> Seq<usize> {
    stable_order(score_keys(dets))
}

/// Detection `a` suppresses detection `b`.
pub open spec fn suppresses<R: Number>(
    dets: Seq<DetView<R>>,
    threshold: R,
    a: usize,
    b: usize,
) -> bool {
    at_least(overlap(dets[a as int].0, dets[b as int].0), threshold)
}

/// One of `kept` suppresses detection `b`.
pub open spec fn suppressed<R: Number>(
    dets: Seq<DetView<R>>,
    threshold: R,
    kept: Seq<usize>,
    b: usize,
) -> bool {
    exists|k: int| 0 <= k < kept.len() && suppresses(dets, threshold, #[trigger] kept[k], b)
}

/// Those of the first `n` detections of `order` that no earlier survivor suppresses.
pub open spec fn survivors<R: Number>(
    dets: Seq<DetView<R>>,
    threshold: R,
    order: Seq<usize>,
    n: int,
) -> Seq<usize>
    decreases n,
{
    if n <= 0 {
        Seq::empty()
    } else {
        let before = survivors(dets, threshold, order, n - 1);
        if suppressed(dets, threshold, before, order[n - 1]) {
            before
        } else {
            before.push(order[n - 1])
        }
    }
}

/// The detections that non-max suppression keeps.
pub open spec fn kept_by_nms<R: Number>(dets: Seq<DetView<R>>, threshold: R, max: usize) -> Seq<
    usize,
> {
    let order = by_score(dets);
    let all = survivors(dets, threshold, order, order.len() as int);
    if all.len() <= max {
        all
    } else {
        all.take(max as int)
    }
}

/// Later survivors come behind earlier ones.
proof fn lemma_survivors_prefix<R: Number>(
    dets: Seq<DetView<R>>,
    threshold: R,
    order: Seq<usize>,
    m: int,
    n: int,
)
    requires
        m <= n,
    ensures
        survivors(dets, threshold, order, m).is_prefix_of(survivors(dets, threshold, order, n)),
    decreases n - m,
{
    if m < n {
        lemma_survivors_prefix(dets, threshold, order, m, n - 1);
    }
}

/// Greedy class-agnostic NMS. Returns kept indices into `dets`, highest score
/// first, capped at `max`.
pub fn nms<R: Number>(dets: &[Det<R>], iou_thresh: R, max: usize) -> (keep: Vec<usize>)
    requires
        consistent::<R>(),
    ensures
        keep@ == kept_by_nms(det_views(dets@), iou_thresh, max),
        forall|i: int| 0 <= i < keep@.len() ==> (#[trigger] keep@[i]) < dets@.len(),
{
    let ghost views = det_views(dets@);
    let n: usize = dets.len();
    let mut keys: Vec<u32> = Vec::new();
    let mut i: usize = 0;
    while i < n
        invariant
            consistent::<R>(),
            n == dets@.len(),
            views == det_views(dets@),
            i <= n,
            keys@ == score_keys(views).take(i as int),
        decreases n - i,
    {
        let key: u32 = u32::MAX - rank(dets[i].score);
        keys.push(key);
        assert(score_keys(views).take(i + 1) =~= score_keys(views).take(i as int).push(key));
        i = i + 1;
    }
    assert(score_keys(views).take(n as int) =~= score_keys(views));
    let order: Vec<usize> = sort_indices(keys.as_slice());
    assert(order@ == by_score(views));
    let mut keep: Vec<usize> = Vec::new();
    let mut removed: Vec<bool> = vec![false; n];
    let mut i: usize = 0;
    let mut full: bool = max == 0;
    while i < n && !full
        invariant
            consistent::<R>(),
            n == dets@.len(),
            views == det_views(dets@),
            order@ == by_score(views),
            is_stable_order(score_keys(views), order@),
            order@.len() == n,
            removed@.len() == n,
            i <= n,
            keep@ == survivors(views, iou_thresh, order@, i as int),
            forall|j: int| 0 <= j < keep@.len() ==> (#[trigger] keep@[j]) < n,
            full <==> keep@.len() >= max,
            keep@.len() <= max,
            !full ==> forall|j: int|
                i <= j < n ==> removed@[#[trigger] order@[j] as int] == suppressed(
                    views,
                    iou_thresh,
                    keep@,
                    order@[j],
                ),
        decreases n - i,
    {
        let a: usize = order[i];
        assert(removed@[order@[i as int] as int] == suppressed(
            views,
            iou_thresh,
            keep@,
            order@[i as int],
        ));
        if !removed[a] {
            let ghost kept = keep@;
            keep.push(a);
            if keep.len() >= max {
                full = true;
            } else {
                let ghost removed0 = removed@;
                let mut j: usize = i + 1;
                while j < n
                    invariant
                        consistent::<R>(),
                        n == dets@.len(),
                        views == det_views(dets@),
                        is_stable_order(score_keys(views), order@),
                        order@.len() == n,
                        removed@.len() == n,
                        removed0.len() == n,
                        i < j <= n,
                        a < n,
                        keep@ == kept.push(a),
                        forall|m: int|
                            i < m < n ==> removed0[#[trigger] order@[m] as int] == suppressed(
                                views,
                                iou_thresh,
                                kept,
                                order@[m],
                            ),
                        forall|m: int|
                            i < m < j ==> removed@[#[trigger] order@[m] as int] == (
                            removed0[order@[m] as int] || suppresses(
                                views,
                                iou_thresh,
                                a,
                                order@[m],
                            )),
                        forall|m: int|
                            j <= m < n ==> removed@[#[trigger] order@[m] as int]
                                == removed0[order@[m] as int],
                    decreases n - j,
                {
                    let b: usize = order[j];
                    let ghost at = removed@;
                    if !removed[b] && is_at_least(iou(&dets[a], &dets[b]), iou_thresh) {
                        removed.set(b, true);
                    }
                    proof {
                        assert(views[a as int] == dets@[a as int]@);
                        assert(views[b as int] == dets@[b as int]@);
                        assert forall|m: int| 0 <= m < n && m != j implies #[trigger] order@[m]
                            != b by {
                            if m < j {
                                assert(before(
                                    score_keys(views),
                                    order@[m],
                                    order@[j as int],
                                ));
                            } else {
                                assert(before(
                                    score_keys(views),
                                    order@[j as int],
                                    order@[m],
                                ));
                            }
                        }
                    }
                    j = j + 1;
                }
                proof {
                    assert forall|m: int| i < m < n implies removed@[#[trigger] order@[m] as int]
                        == suppressed(views, iou_thresh, keep@, order@[m]) by {
                        lemma_suppressed_push(views, iou_thresh, kept, a, order@[m]);
                    }
                }
            }
        }
        i = i + 1;
    }
    proof {
        let all = survivors(views, iou_thresh, order@, n as int);
        lemma_survivors_prefix(views, iou_thresh, order@, i as int, n as int);
        if full {
            assert(all.take(max as int) =~= keep@);
            if all.len() <= max {
                assert(all =~= keep@);
            }
        }
    }
    keep
}

proof fn lemma_suppressed_push<R: Number>(
    dets: Seq<DetView<R>>,
    threshold: R,
    kept: Seq<usize>,
    a: usize,
    b: usize,
)
    ensures
        suppressed(dets, threshold, kept.push(a), b) == (suppressed(dets, threshold, kept, b)
            || suppresses(dets, threshold, a, b)),
{
    let more = kept.push(a);
    if suppressed(dets, threshold, kept, b) {
        let k = choose|k: int|
            0 <= k < kept.len() && suppresses(dets, threshold, #[trigger] kept[k], b);
        assert(more[k] == kept[k]);
    }
    if suppresses(dets, threshold, a, b) {
        assert(more[kept.len() as int] == a);
    }
    if suppressed(dets, threshold, more, b) {
        let k = choose|k: int|
            0 <= k < more.len() && suppresses(dets, threshold, #[trigger] more[k], b);
        if k < kept.len() {
            assert(more[k] == kept[k]);
        }
    }
}

/// Of the survivors none suppresses a later one, and whatever is not among them is suppressed by
/// one of them.
proof fn lemma_survivors<R: Number>(
    dets: Seq<DetView<R>>,
    threshold: R,
    order: Seq<usize>,
    n: int,
)
    requires
        0 <= n <= order.len(),
    ensures
        forall|i: int, j: int|
            0 <= i < j < survivors(dets, threshold, order, n).len() ==> !suppresses(
                dets,
                threshold,
                #[trigger] survivors(dets, threshold, order, n)[i],
                #[trigger] survivors(dets, threshold, order, n)[j],
            ),
        forall|m: int|
            0 <= m < n && !survivors(dets, threshold, order, n).contains(#[trigger] order[m])
                ==> suppressed(
                dets,
                threshold,
                survivors(dets, threshold, order, n),
                order[m],
            ),
    decreases n,
{
    if n > 0 {
        lemma_survivors(dets, threshold, order, n - 1);
        let before = survivors(dets, threshold, order, n - 1);
        let now = survivors(dets, threshold, order, n);
        let c = order[n - 1];
        if suppressed(dets, threshold, before, c) {
        } else {
            assert forall|i: int, j: int| 0 <= i < j < now.len() implies !suppresses(
                dets,
                threshold,
                #[trigger] now[i],
                #[trigger] now[j],
            ) by {
                assert(now[i] == before[i]);
                if j < before.len() {
                    assert(now[j] == before[j]);
                } else {
                    assert(!suppresses(dets, threshold, before[i], c));
                }
            }
            assert forall|m: int| 0 <= m < n && !now.contains(#[trigger] order[m]) implies suppressed(
                dets,
                threshold,
                now,
                order[m],
            ) by {
                if m == n - 1 {
                    assert(now[before.len() as int] == c);
                } else {
                    if before.contains(order[m]) {
                        let k = choose|k: int| 0 <= k < before.len() && before[k] == order[m];
                        assert(now[k] == order[m]);
                    }
                    lemma_suppressed_push(dets, threshold, before, c, order[m]);
                }
            }
        }
    }
}

/// Survivors are detections of the order.
proof fn lemma_survivors_origin<R: Number>(
    dets: Seq<DetView<R>>,
    threshold: R,
    order: Seq<usize>,
    n: int,
) -> (from: Seq<int>)
    requires
        0 <= n <= order.len(),
    ensures
        from.len() == survivors(dets, threshold, order, n).len(),
        forall|i: int| 0 <= i < from.len() ==> 0 <= #[trigger] from[i] < n,
        forall|i: int, j: int| 0 <= i < j < from.len() ==> #[trigger] from[i] < #[trigger] from[j],
        forall|i: int|
            0 <= i < from.len() ==> survivors(dets, threshold, order, n)[i]
                == order[#[trigger] from[i]],
    decreases n,
{
    if n <= 0 {
        Seq::empty()
    } else {
        let from = lemma_survivors_origin(dets, threshold, order, n - 1);
        let before = survivors(dets, threshold, order, n - 1);
        if suppressed(dets, threshold, before, order[n - 1]) {
            from
        } else {
            let more = from.push(n - 1);
            assert forall|i: int| 0 <= i < more.len() implies before.push(order[n - 1])[i]
                == order[#[trigger] more[i]] by {
                if i < from.len() {
                    assert(more[i] == from[i]);
                }
            }
            more
        }
    }
}

/// The first `c` survivors are all the survivors at some point of the order.
proof fn lemma_survivors_cut<R: Number>(
    dets: Seq<DetView<R>>,
    threshold: R,
    order: Seq<usize>,
    n: int,
    c: int,
) -> (m: int)
    requires
        0 <= n <= order.len(),
        0 <= c <= survivors(dets, threshold, order, n).len(),
    ensures
        0 <= m <= n,
        survivors(dets, threshold, order, m) == survivors(dets, threshold, order, n).take(c),
    decreases n,
{
    let all = survivors(dets, threshold, order, n);
    if c == all.len() {
        assert(all.take(c) =~= all);
        n
    } else {
        let before = survivors(dets, threshold, order, n - 1);
        let m = lemma_survivors_cut(dets, threshold, order, n - 1, c);
        assert(all.take(c) =~= before.take(c));
        m
    }
}

/// At most the asked number of detections is kept, the highest score first: where the rank tells
/// numbers apart, no kept score is below a later one. No kept detection
/// suppresses one that is kept after it. Every detection that is dropped is suppressed by a kept
/// one, unless there is no room left and it ranks behind all that are kept.
pub proof fn law_nms_keeps_the_best<R: Number>(dets: Seq<DetView<R>>, threshold: R, max: usize)
    requires
        dets.len() <= usize::MAX,
    ensures
        kept_by_nms(dets, threshold, max).len() <= max,
        forall|i: int|
            0 <= i < kept_by_nms(dets, threshold, max).len() ==> (#[trigger] kept_by_nms(
                dets,
                threshold,
                max,
            )[i]) < dets.len(),
        forall|i: int, j: int|
            #![trigger kept_by_nms(dets, threshold, max)[i], kept_by_nms(dets, threshold, max)[j]]
            0 <= i < j < kept_by_nms(dets, threshold, max).len() ==> {
                let (a, b) = (
                    kept_by_nms(dets, threshold, max)[i],
                    kept_by_nms(dets, threshold, max)[j],
                );
                &&& rank_of(dets[a as int].1) >= rank_of(dets[b as int].1)
                &&& ranked::<R>() ==> !below(dets[a as int].1, dets[b as int].1)
                &&& !suppresses(dets, threshold, a, b)
            },
        forall|d: usize|
            #![trigger kept_by_nms(dets, threshold, max).contains(d)]
            d < dets.len() && !kept_by_nms(dets, threshold, max).contains(d) ==> {
                ||| suppressed(dets, threshold, kept_by_nms(dets, threshold, max), d)
                ||| {
                    &&& kept_by_nms(dets, threshold, max).len() == max
                    &&& forall|i: int|
                        0 <= i < kept_by_nms(dets, threshold, max).len() ==> before(
                            score_keys(dets),
                            #[trigger] kept_by_nms(dets, threshold, max)[i],
                            d,
                        )
                }
            },
{
    let keys = score_keys(dets);
    let order = by_score(dets);
    let n = order.len() as int;
    lemma_order_exists(keys);
    let all = survivors(dets, threshold, order, n);
    let kept = kept_by_nms(dets, threshold, max);
    let c = kept.len() as int;
    assert(all.take(all.len() as int) =~= all);
    let m = lemma_survivors_cut(dets, threshold, order, n, c);
    lemma_survivors(dets, threshold, order, m);
    let from = lemma_survivors_origin(dets, threshold, order, m);
    assert forall|i: int| 0 <= i < kept.len() implies (#[trigger] kept[i]) < dets.len() by {
        assert(kept[i] == order[from[i]]);
    }
    assert forall|i: int, j: int|
        #![trigger kept[i], kept[j]]
        0 <= i < j < kept.len() implies rank_of(dets[kept[i] as int].1) >= rank_of(
        dets[kept[j] as int].1,
    ) && !suppresses(dets, threshold, kept[i], kept[j]) by {
        assert(kept[i] == order[from[i]]);
        assert(kept[j] == order[from[j]]);
        assert(before(keys, order[from[i]], order[from[j]]));
        assert(keys[kept[i] as int] <= keys[kept[j] as int]);
    }
    assert forall|d: usize|
        #![trigger kept.contains(d)]
        d < dets.len() && !kept.contains(d) implies {
        ||| suppressed(dets, threshold, kept, d)
        ||| {
            &&& c == max
            &&& forall|i: int| 0 <= i < kept.len() ==> before(keys, #[trigger] kept[i], d)
        }
    } by {
        lemma_order_covers(keys, order, d);
        let x = choose|x: int| 0 <= x < order.len() && order[x] == d;
        if x >= m {
            if c < max {
                assert(kept == all);
                lemma_survivors(dets, threshold, order, n);
                assert(suppressed(dets, threshold, all, order[x]));
            } else {
                assert forall|i: int| 0 <= i < kept.len() implies before(
                    keys,
                    #[trigger] kept[i],
                    d,
                ) by {
                    assert(kept[i] == order[from[i]]);
                }
            }
        } else {
            assert(suppressed(dets, threshold, kept, order[x]));
        }
    }
}

/// The overlap decides: no two detections are kept whose boxes overlap by the threshold or more, and
/// where there is room left, a detection is dropped only if its box overlaps that of a kept one by
/// as much.
pub proof fn law_overlapping_boxes_are_dropped<R: Number>(
    dets: Seq<DetView<R>>,
    threshold: R,
    max: usize,
)
    requires
        dets.len() <= usize::MAX,
    ensures
        ({
            let keep = kept_by_nms(dets, threshold, max);
            &&& forall|i: int, j: int|
                0 <= i < j < keep.len() ==> !at_least(
                    overlap(dets[#[trigger] keep[i] as int].0, dets[#[trigger] keep[j] as int].0),
                    threshold,
                )
            &&& keep.len() < max ==> forall|d: usize|
                d < dets.len() && !#[trigger] keep.contains(d) ==> exists|k: int|
                    0 <= k < keep.len() && at_least(
                        overlap(dets[#[trigger] keep[k] as int].0, dets[d as int].0),
                        threshold,
                    )
        }),
{
    law_nms_keeps_the_best(dets, threshold, max);
    let keep = kept_by_nms(dets, threshold, max);
    assert forall|i: int, j: int| 0 <= i < j < keep.len() implies !at_least(
        overlap(dets[#[trigger] keep[i] as int].0, dets[#[trigger] keep[j] as int].0),
        threshold,
    ) by {
        assert(!suppresses(dets, threshold, keep[i], keep[j]));
    }
    if keep.len() < max {
        assert forall|d: usize|
            d < dets.len() && !#[trigger] keep.contains(d) implies exists|k: int|
            0 <= k < keep.len() && at_least(
                overlap(dets[#[trigger] keep[k] as int].0, dets[d as int].0),
                threshold,
            ) by {
            assert(suppressed(dets, threshold, keep, d));
            let k = choose|k: int|
                0 <= k < keep.len() && suppresses(dets, threshold, #[trigger] keep[k], d);
            assert(at_least(overlap(dets[keep[k] as int].0, dets[d as int].0), threshold));
        }
    }
}

} // verus!
