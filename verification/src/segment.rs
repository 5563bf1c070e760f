//! Connected-components segmentation of a paletted image (4-connectivity).
//!
//! After quantization flattens the image to a small palette, pixels are grouped
//! into maximal connected regions of the same palette index. A small-region
//! merge pass folds speckles into their largest neighbour so the trace stays
//! compact.

use vstd::prelude::*;

use crate::grid::{adjacent, connected, count_of, is_first, numbered_by_first_occurrence};
use crate::grid::{
    lemma_closed_labels, lemma_connected_colors, lemma_connected_self, lemma_connected_step,
    lemma_connected_sym, lemma_connected_trans, lemma_coords, lemma_count_bound,
    lemma_count_update, lemma_count_zero,
};

verus! {

/// A labeled image plus per-component metadata.
pub struct Segmentation {
    pub width: usize,
    pub height: usize,
    /// Component id per pixel (0..num_components).
    pub labels: Vec<u32>,
    pub num_components: usize,
    /// Palette index per component (0 is reserved for "transparent").
    pub component_color: Vec<u32>,
    /// Pixel count per component.
    pub component_area: Vec<u32>,
}

impl Segmentation {
    /// Every pixel has a component, and the per-component tables describe those components.
    pub open spec fn labelled(&self) -> bool {
        &&& self.labels@.len() == self.width * self.height
        &&& self.labels@.len() <= u32::MAX
        &&& self.num_components <= u32::MAX
        &&& self.component_color@.len() == self.num_components
        &&& self.component_area@.len() == self.num_components
        &&& forall|p: int|
            0 <= p < self.labels@.len() ==> #[trigger] self.labels@[p] < self.num_components
        &&& forall|c: int|
            0 <= c < self.num_components ==> #[trigger] self.component_area@[c] == count_of(
                self.labels@,
                c as u32,
            )
    }

    /// The segmentation is labelled, and its components are numbered as they first occur.
    pub open spec fn wf(&self) -> bool {
        &&& self.labelled()
        &&& numbered_by_first_occurrence(self.labels@, self.num_components as int)
    }
}

/// The flood so far: pixels labelled `id` were reached from `start` without leaving the colour,
/// and those no longer on the stack have handed the label on to all their neighbours.
spec fn flooded(
    colors: Seq<u32>,
    w: int,
    labels: Seq<u32>,
    before: Seq<u32>,
    stack: Seq<usize>,
    start: int,
    id: u32,
    skip: int,
) -> bool {
    &&& labels.len() == colors.len()
    &&& before.len() == colors.len()
    &&& labels[start] == id
    &&& forall|p: int|
        0 <= p < labels.len() ==> (#[trigger] labels[p] == before[p] || (before[p] == u32::MAX
            && labels[p] == id))
    &&& forall|p: int|
        0 <= p < labels.len() && #[trigger] labels[p] == id ==> connected(colors, w, start, p)
    &&& forall|i: int|
        0 <= i < stack.len() ==> (#[trigger] stack[i]) < labels.len() && labels[stack[i] as int]
            == id
    &&& forall|p: int, q: int| #[trigger]
        adjacent(w, colors.len() as int, p, q) && colors[p] == colors[q] && labels[p] == id && p
            != skip && !stack.contains(p as usize) ==> labels[q] == id
}

/// Finished components: closed under same-colour edges, each reached from its seed,
/// and seeded in raster order.
spec fn finished(
    colors: Seq<u32>,
    w: int,
    labels: Seq<u32>,
    seeds: Seq<int>,
    num: u32,
    start: int,
) -> bool {
    &&& labels.len() == colors.len()
    &&& seeds.len() == num
    &&& forall|p: int|
        0 <= p < labels.len() ==> (#[trigger] labels[p] == u32::MAX || labels[p] < num)
    &&& forall|p: int| 0 <= p < start ==> #[trigger] labels[p] != u32::MAX
    &&& forall|p: int, q: int| #[trigger]
        adjacent(w, colors.len() as int, p, q) && colors[p] == colors[q] && labels[p] != u32::MAX
            ==> labels[q] == labels[p]
    &&& forall|c: int|
        0 <= c < num ==> 0 <= #[trigger] seeds[c] < start && labels[seeds[c]] == c as u32
    &&& forall|p: int|
        0 <= p < labels.len() && #[trigger] labels[p] != u32::MAX ==> connected(
            colors,
            w,
            seeds[labels[p] as int],
            p,
        ) && seeds[labels[p] as int] <= p
    &&& forall|c: int, d: int| 0 <= c < d < num ==> #[trigger] seeds[c] < #[trigger] seeds[d]
}

/// Labels `q` with `id` and queues it, if it is an unlabelled pixel of the flooded colour.
fn visit(
    palette_idx: &[u32],
    labels: &mut Vec<u32>,
    stack: &mut Vec<usize>,
    q: usize,
    color: u32,
    id: u32,
    Ghost(w): Ghost<int>,
    Ghost(before): Ghost<Seq<u32>>,
    Ghost(start): Ghost<int>,
    Ghost(p): Ghost<int>,
)
    requires
        flooded(palette_idx@, w, old(labels)@, before, old(stack)@, start, id, p),
        0 <= start < palette_idx@.len(),
        palette_idx@[start] == color,
        palette_idx@.len() <= u32::MAX,
        id < u32::MAX,
        adjacent(w, palette_idx@.len() as int, p, q as int),
        old(labels)@[p] == id,
        palette_idx@[p] == color,
    ensures
        flooded(palette_idx@, w, final(labels)@, before, final(stack)@, start, id, p),
        final(labels)@[p] == id,
        palette_idx@[q as int] == color && before[q as int] == u32::MAX ==> final(labels)@[q as int]
            == id,
        forall|r: int|
            0 <= r < final(labels)@.len() && #[trigger] old(labels)@[r] == id ==> final(labels)@[r]
                == id,
        count_of(final(labels)@, id) - final(stack)@.len() == count_of(old(labels)@, id)
            - old(stack)@.len(),
        forall|c: u32|
            c != id && c != u32::MAX ==> #[trigger] count_of(final(labels)@, c) == count_of(
                old(labels)@,
                c,
            ),
{
    if labels[q] == u32::MAX && palette_idx[q] == color {
        let ghost l0 = labels@;
        let ghost s0 = stack@;
        labels.set(q, id);
        stack.push(q);
        proof {
            lemma_connected_step(palette_idx@, w, start, p, q as int);
            lemma_count_update(l0, q as int, id, id);
            assert forall|c: u32| c != id && c != u32::MAX implies #[trigger] count_of(
                labels@,
                c,
            ) == count_of(l0, c) by {
                lemma_count_update(l0, q as int, id, c);
            }
            assert(stack@[s0.len() as int] == q);
            assert forall|a: int, b: int| #[trigger]
                adjacent(w, palette_idx@.len() as int, a, b) && palette_idx@[a] == palette_idx@[b]
                    && labels@[a] == id && a != p && !stack@.contains(a as usize) implies labels@[b]
                == id by {
                assert(a != q);
                if s0.contains(a as usize) {
                    let i = choose|i: int| 0 <= i < s0.len() && s0[i] == a as usize;
                    assert(stack@[i] == a as usize);
                }
            }
        }
    }
}

/// Label connected components of `palette_idx` (len = width*height) using
/// 4-connectivity. Palette index 0 is treated as transparent but still forms
/// components (they are simply not drawn downstream).
pub fn segment(palette_idx: &[u32], width: usize, height: usize) -> (seg: Segmentation)
    requires
        palette_idx@.len() == width * height,
        width * height <= u32::MAX,
    ensures
        seg.wf(),
        seg.width == width,
        seg.height == height,
        forall|p: int, q: int|
            0 <= p < palette_idx@.len() && 0 <= q < palette_idx@.len() ==> (#[trigger]
            seg.labels@[p] == #[trigger] seg.labels@[q] <==> connected(
                palette_idx@,
                width as int,
                p,
                q,
            )),
        forall|p: int|
            0 <= p < palette_idx@.len() ==> seg.component_color@[#[trigger] seg.labels@[p] as int]
                == palette_idx@[p],
{
    let n: usize = palette_idx.len();
    let mut labels: Vec<u32> = vec![u32::MAX; n];
    let mut component_color: Vec<u32> = Vec::new();
    let mut component_area: Vec<u32> = Vec::new();
    let mut stack: Vec<usize> = Vec::new();
    let mut num: u32 = 0;
    let ghost colors = palette_idx@;
    let ghost w = width as int;
    let ghost mut seeds: Seq<int> = Seq::empty();
    let mut start: usize = 0;
    while start < n
        invariant
            n == palette_idx@.len(),
            colors == palette_idx@,
            w == width,
            n == width * height,
            n <= u32::MAX,
            start <= n,
            num <= start,
            stack@.len() == 0,
            component_color@.len() == num,
            component_area@.len() == num,
            finished(colors, w, labels@, seeds, num, start as int),
            forall|c: int|
                0 <= c < num ==> #[trigger] component_area@[c] == count_of(labels@, c as u32),
            forall|c: int| 0 <= c < num ==> #[trigger] component_color@[c] == colors[seeds[c]],
        decreases n - start,
    {
        if labels[start] == u32::MAX {
            let color: u32 = palette_idx[start];
            let id: u32 = num;
            let ghost before = labels@;
            component_color.push(color);
            let mut area: u32 = 0;
            proof {
                lemma_connected_self(colors, w, start as int);
                lemma_count_zero(before, id);
                lemma_count_update(before, start as int, id, id);
                assert forall|c: u32| c < id implies #[trigger] count_of(
                    before.update(start as int, id),
                    c,
                ) == count_of(before, c) by {
                    lemma_count_update(before, start as int, id, c);
                }
            }
            labels.set(start, id);
            stack.push(start);
            proof {
                assert(stack@[0] == start);
                assert forall|a: int, b: int| #[trigger]
                    adjacent(w, colors.len() as int, a, b) && colors[a] == colors[b] && labels@[a]
                        == id && a != -1 && !stack@.contains(a as usize) implies labels@[b]
                    == id by {
                    assert(a == start);
                }
                assert(flooded(colors, w, labels@, before, stack@, start as int, id, -1));
            }
            while stack.len() > 0
                invariant
                    n == palette_idx@.len(),
                    colors == palette_idx@,
                    w == width,
                    n == width * height,
                    n <= u32::MAX,
                    0 <= start < n,
                    id < u32::MAX,
                    colors[start as int] == color,
                    finished(colors, w, before, seeds, id, start as int),
                    flooded(colors, w, labels@, before, stack@, start as int, id, -1),
                    area + stack@.len() == count_of(labels@, id),
                    forall|c: u32| c < id ==> #[trigger] count_of(labels@, c) == count_of(before, c),
                decreases n - area,
            {
                let ghost s0 = stack@;
                let ghost l0 = labels@;
                let popped: Option<usize> = stack.pop();
                let p: usize = popped.unwrap();
                proof {
                    assert(s0[s0.len() - 1] == p);
                    lemma_count_bound(labels@, id);
                    lemma_connected_colors(colors, w, start as int, p as int);
                    assert(width > 0 && height > 0) by (nonlinear_arith)
                        requires
                            width >= 0,
                            height >= 0,
                            width * height > 0,
                    ;
                    lemma_coords(w, height as int, p as int);
                    assert forall|i: int| 0 <= i < stack@.len() implies (#[trigger] stack@[i])
                        < labels@.len() && labels@[stack@[i] as int] == id by {
                        assert(stack@[i] == s0[i]);
                    }
                    assert forall|a: int, b: int| #[trigger]
                        adjacent(w, colors.len() as int, a, b) && colors[a] == colors[b]
                            && labels@[a] == id && a != p && !stack@.contains(
                            a as usize,
                        ) implies labels@[b] == id by {
                        if s0.contains(a as usize) {
                            let i = choose|i: int| 0 <= i < s0.len() && s0[i] == a as usize;
                            if i < s0.len() - 1 {
                                assert(stack@[i] == a as usize);
                            }
                        }
                    }
                }
                area = area + 1;
                let x: usize = p % width;
                let y: usize = p / width;
                if x > 0 {
                    visit(
                        palette_idx,
                        &mut labels,
                        &mut stack,
                        p - 1,
                        color,
                        id,
                        Ghost(w),
                        Ghost(before),
                        Ghost(start as int),
                        Ghost(p as int),
                    );
                }
                let ghost l1 = labels@;
                if x + 1 < width {
                    visit(
                        palette_idx,
                        &mut labels,
                        &mut stack,
                        p + 1,
                        color,
                        id,
                        Ghost(w),
                        Ghost(before),
                        Ghost(start as int),
                        Ghost(p as int),
                    );
                }
                let ghost l2 = labels@;
                if y > 0 {
                    visit(
                        palette_idx,
                        &mut labels,
                        &mut stack,
                        p - width,
                        color,
                        id,
                        Ghost(w),
                        Ghost(before),
                        Ghost(start as int),
                        Ghost(p as int),
                    );
                }
                let ghost l3 = labels@;
                if y + 1 < height {
                    visit(
                        palette_idx,
                        &mut labels,
                        &mut stack,
                        p + width,
                        color,
                        id,
                        Ghost(w),
                        Ghost(before),
                        Ghost(start as int),
                        Ghost(p as int),
                    );
                }
                proof {
                    assert forall|a: int, b: int| #[trigger]
                        adjacent(w, colors.len() as int, a, b) && colors[a] == colors[b]
                            && labels@[a] == id && a != -1 && !stack@.contains(
                            a as usize,
                        ) implies labels@[b] == id by {
                        if a == p {
                            if before[b] != u32::MAX {
                                assert(adjacent(w, colors.len() as int, b, a));
                                assert(before[a] == before[b]);
                            }
                        }
                    }
                }
            }
            component_area.push(area);
            proof {
                let done = labels@;
                assert(done[start as int] == id);
                assert forall|p: int| 0 <= p < done.len() implies (#[trigger] done[p] == u32::MAX
                    || done[p] < id + 1) by {}
                assert forall|a: int, b: int| #[trigger]
                    adjacent(w, colors.len() as int, a, b) && colors[a] == colors[b] && done[a]
                        != u32::MAX implies done[b] == done[a] by {
                    if done[a] != id {
                        assert(before[a] == done[a]);
                        assert(before[b] == before[a]);
                    }
                }
                let more = seeds.push(start as int);
                assert forall|p: int|
                    0 <= p < done.len() && #[trigger] done[p] != u32::MAX implies connected(
                    colors,
                    w,
                    more[done[p] as int],
                    p,
                ) && more[done[p] as int] <= p by {
                    if done[p] != id {
                        assert(before[p] == done[p]);
                        assert(more[done[p] as int] == seeds[before[p] as int]);
                    }
                }
                assert forall|c: int| 0 <= c < id + 1 implies 0 <= #[trigger] more[c] < start + 1
                    && done[more[c]] == c as u32 by {
                    if c < id {
                        assert(more[c] == seeds[c]);
                        assert(before[seeds[c]] == c as u32);
                    }
                }
                seeds = more;
            }
            num = num + 1;
        }
        start = start + 1;
    }
    proof {
        let l = labels@;
        assert forall|p: int| 0 <= p < l.len() implies #[trigger] l[p] < num by {}
        assert forall|p: int, q: int| 0 <= p < l.len() && 0 <= q < l.len() implies (#[trigger] l[p]
            == #[trigger] l[q] <==> connected(colors, w, p, q)) by {
            if l[p] == l[q] {
                let s = seeds[l[p] as int];
                lemma_connected_sym(colors, w, s, p);
                lemma_connected_trans(colors, w, p, s, q);
            }
            if connected(colors, w, p, q) {
                lemma_closed_labels(colors, w, l, p, q);
            }
        }
        assert forall|p: int| 0 <= p < l.len() implies component_color@[#[trigger] l[p] as int]
            == colors[p] by {
            lemma_connected_colors(colors, w, seeds[l[p] as int], p);
        }
        assert forall|c: u32| c < num implies #[trigger] l.contains(c) by {
            assert(l[seeds[c as int]] == c);
        }
        assert forall|p: int, q: int| #[trigger] is_first(l, p) && 0 <= q < p implies #[trigger] l[q]
            < l[p] by {
            let s = seeds[l[p] as int];
            assert(l[s] == l[p]);
            assert(s == p);
            let t = seeds[l[q] as int];
            if l[q] > l[p] {
                assert(seeds[l[p] as int] < seeds[l[q] as int]);
            }
        }
        assert(numbered_by_first_occurrence(l, num as int));
    }
    Segmentation {
        width,
        height,
        labels,
        num_components: num as usize,
        component_color,
        component_area,
    }
}


/// Column of pixel `p` in rows of `w` pixels.
pub open spec fn column(p: int, w: int) -> int {
    p % w
}

/// Row of pixel `p` in rows of `w` pixels.
pub open spec fn row(p: int, w: int) -> int {
    p / w
}

/// `b` is the smallest box (inclusive) around the first `k` pixels that carry label `c`;
/// without such a pixel it is the inverted box that no pixel lies in.
pub open spec fn is_bbox(
    labels: Seq<u32>,
    w: int,
    k: int,
    c: int,
    b: (usize, usize, usize, usize),
) -> bool {
    if forall|p: int| 0 <= p < k ==> #[trigger] labels[p] != c {
        b == (usize::MAX, usize::MAX, 0usize, 0usize)
    } else {
        &&& forall|p: int|
            0 <= p < k && #[trigger] labels[p] == c ==> b.0 <= column(p, w) <= b.2 && b.1 <= row(
                p,
                w,
            ) <= b.3
        &&& exists|p: int| 0 <= p < k && #[trigger] labels[p] == c && column(p, w) == b.0
        &&& exists|p: int| 0 <= p < k && #[trigger] labels[p] == c && row(p, w) == b.1
        &&& exists|p: int| 0 <= p < k && #[trigger] labels[p] == c && column(p, w) == b.2
        &&& exists|p: int| 0 <= p < k && #[trigger] labels[p] == c && row(p, w) == b.3
    }
}

proof fn lemma_bbox_other(
    labels: Seq<u32>,
    w: int,
    k: int,
    c: int,
    b: (usize, usize, usize, usize),
)
    requires
        0 <= k < labels.len(),
        labels[k] != c,
        is_bbox(labels, w, k, c, b),
    ensures
        is_bbox(labels, w, k + 1, c, b),
{
    if exists|p: int| 0 <= p < k && #[trigger] labels[p] == c {
        let p = choose|p: int| 0 <= p < k && #[trigger] labels[p] == c;
        assert(0 <= p < k + 1 && labels[p] == c);
        let p0 = choose|p: int| 0 <= p < k && #[trigger] labels[p] == c && column(p, w) == b.0;
        let p1 = choose|p: int| 0 <= p < k && #[trigger] labels[p] == c && row(p, w) == b.1;
        let p2 = choose|p: int| 0 <= p < k && #[trigger] labels[p] == c && column(p, w) == b.2;
        let p3 = choose|p: int| 0 <= p < k && #[trigger] labels[p] == c && row(p, w) == b.3;
        assert(labels[p0] == c && labels[p1] == c && labels[p2] == c && labels[p3] == c);
    }
}

/// The box grown to hold the point `(x, y)`.
spec fn grown(b: (usize, usize, usize, usize), x: usize, y: usize) -> (usize, usize, usize, usize) {
    (
        if x < b.0 {
            x
        } else {
            b.0
        },
        if y < b.1 {
            y
        } else {
            b.1
        },
        if x > b.2 {
            x
        } else {
            b.2
        },
        if y > b.3 {
            y
        } else {
            b.3
        },
    )
}

proof fn lemma_bbox_grow(
    labels: Seq<u32>,
    w: int,
    k: int,
    c: int,
    b: (usize, usize, usize, usize),
    x: usize,
    y: usize,
)
    requires
        0 <= k < labels.len(),
        labels[k] == c,
        x == column(k, w),
        y == row(k, w),
        is_bbox(labels, w, k, c, b),
    ensures
        is_bbox(labels, w, k + 1, c, grown(b, x, y)),
{
    let g = grown(b, x, y);
    assert(0 <= k < k + 1 && labels[k] == c);
    if exists|p: int| 0 <= p < k && #[trigger] labels[p] == c {
        let p0 = choose|p: int| 0 <= p < k && #[trigger] labels[p] == c && column(p, w) == b.0;
        let p1 = choose|p: int| 0 <= p < k && #[trigger] labels[p] == c && row(p, w) == b.1;
        let p2 = choose|p: int| 0 <= p < k && #[trigger] labels[p] == c && column(p, w) == b.2;
        let p3 = choose|p: int| 0 <= p < k && #[trigger] labels[p] == c && row(p, w) == b.3;
        assert(labels[p0] == c && labels[p1] == c && labels[p2] == c && labels[p3] == c);
    } else {
        assert forall|p: int| 0 <= p < k implies #[trigger] labels[p] != c by {}
    }
}

/// There is a bounding box.
pub proof fn lemma_bbox_exists(labels: Seq<u32>, w: usize, h: usize, k: int, c: int) -> (b: (
    usize,
    usize,
    usize,
    usize,
))
    requires
        labels.len() == w * h,
        0 <= k <= labels.len(),
    ensures
        is_bbox(labels, w as int, k, c, b),
    decreases k,
{
    if k == 0 {
        (usize::MAX, usize::MAX, 0usize, 0usize)
    } else {
        let b = lemma_bbox_exists(labels, w, h, k - 1, c);
        if labels[k - 1] == c {
            assert(w > 0) by (nonlinear_arith)
                requires
                    w * h > 0,
                    w >= 0,
            ;
            lemma_coords(w as int, h as int, k - 1);
            let (x, y) = (column(k - 1, w as int) as usize, row(k - 1, w as int) as usize);
            lemma_bbox_grow(labels, w as int, k - 1, c, b, x, y);
            grown(b, x, y)
        } else {
            lemma_bbox_other(labels, w as int, k - 1, c, b);
            b
        }
    }
}

impl Segmentation {
    /// Per-component bounding box as (min_x, min_y, max_x, max_y) inclusive.
    pub fn bboxes(&self) -> (bb: Vec<(usize, usize, usize, usize)>)
        requires
            self.labels@.len() == self.width * self.height,
            forall|p: int|
                0 <= p < self.labels@.len() ==> #[trigger] self.labels@[p] < self.num_components,
        ensures
            bb@.len() == self.num_components,
            forall|c: int|
                0 <= c < bb@.len() ==> is_bbox(
                    self.labels@,
                    self.width as int,
                    self.labels@.len() as int,
                    c,
                    #[trigger] bb@[c],
                ),
    {
        let w: usize = self.width;
        let n: usize = self.labels.len();
        let mut bb: Vec<(usize, usize, usize, usize)> = Vec::new();
        while bb.len() < self.num_components
            invariant
                bb@.len() <= self.num_components,
                forall|c: int|
                    0 <= c < bb@.len() ==> is_bbox(
                        self.labels@,
                        w as int,
                        0,
                        c,
                        #[trigger] bb@[c],
                    ),
            decreases self.num_components - bb@.len(),
        {
            bb.push((usize::MAX, usize::MAX, 0, 0));
        }
        let mut p: usize = 0;
        while p < n
            invariant
                w == self.width,
                n == self.labels@.len(),
                n == self.width * self.height,
                p <= n,
                forall|p: int|
                    0 <= p < self.labels@.len() ==> #[trigger] self.labels@[p]
                        < self.num_components,
                bb@.len() == self.num_components,
                forall|c: int|
                    0 <= c < bb@.len() ==> is_bbox(
                        self.labels@,
                        w as int,
                        p as int,
                        c,
                        #[trigger] bb@[c],
                    ),
            decreases n - p,
        {
            proof {
                assert(w > 0) by (nonlinear_arith)
                    requires
                        w == self.width,
                        self.width * self.height > 0,
                        self.width >= 0,
                ;
            }
            let x: usize = p % w;
            let y: usize = p / w;
            let c: usize = self.labels[p] as usize;
            let b: (usize, usize, usize, usize) = bb[c];
            let g: (usize, usize, usize, usize) = (
                if x < b.0 {
                    x
                } else {
                    b.0
                },
                if y < b.1 {
                    y
                } else {
                    b.1
                },
                if x > b.2 {
                    x
                } else {
                    b.2
                },
                if y > b.3 {
                    y
                } else {
                    b.3
                },
            );
            let ghost bb0 = bb@;
            bb.set(c, g);
            proof {
                assert forall|d: int| 0 <= d < bb@.len() implies is_bbox(
                    self.labels@,
                    w as int,
                    p + 1,
                    d,
                    #[trigger] bb@[d],
                ) by {
                    assert(is_bbox(self.labels@, w as int, p as int, d, bb0[d]));
                    if d == c {
                        lemma_bbox_grow(self.labels@, w as int, p as int, d, b, x, y);
                    } else {
                        lemma_bbox_other(self.labels@, w as int, p as int, d, bb0[d]);
                    }
                }
            }
            p = p + 1;
        }
        bb
    }
}

} // verus!
