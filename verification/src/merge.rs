//! Folding undersized regions of a segmentation into their largest neighbour.

use vstd::prelude::*;

use crate::grid::{
    adjacent, connected, count_of, is_first, is_path, lemma_connected_step, lemma_connected_sym,
    lemma_connected_trans, lemma_coords, lemma_count_bound, lemma_count_push, lemma_first_place,
    numbered_by_first_occurrence, path_between,
};
use crate::order::{
    is_stable_order, lemma_order_covers, lemma_order_exists, sort_indices, stable_order,
};
use crate::segment::Segmentation;
use crate::union_find::{discrete, is_root_map, joined, UnionFind};

verus! {

/// The area of the class rooted at `r`.
pub open spec fn class_area(areas: Seq<u32>, root: Seq<u32>, r: u32) -> nat
    decreases areas.len(),
{
    if areas.len() == 0 {
        0
    } else {
        class_area(areas.drop_last(), root.drop_last(), r) + if root.last() == r {
            areas.last() as nat
        } else {
            0nat
        }
    }
}

/// The sum of all areas.
pub open spec fn total_area(areas: Seq<u32>) -> nat
    decreases areas.len(),
{
    if areas.len() == 0 {
        0
    } else {
        total_area(areas.drop_last()) + areas.last() as nat
    }
}

impl Segmentation {
    /// Components `c` and `d` are different and share an edge.
    pub open spec fn touching(&self, c: u32, d: u32) -> bool {
        c != d && exists|p: int, q: int| #[trigger]
            adjacent(self.width as int, self.labels@.len() as int, p, q) && self.labels@[p] == c
                && self.labels@[q] == d
    }

    /// Component `c` may be folded into the region of component `nb`: they touch, and `nb` is
    /// opaque and belongs to a larger region.
    pub open spec fn can_join(&self, root: Seq<u32>, c: u32, nb: u32) -> bool {
        &&& nb < self.num_components
        &&& self.touching(c, nb)
        &&& self.component_color@[nb as int] != 0
        &&& class_area(self.component_area@, root, root[nb as int]) > class_area(
            self.component_area@,
            root,
            root[c as int],
        )
    }

    /// `nb` leads to the largest region that `c` may be folded into; among equally large
    /// ones the neighbour with the highest id counts.
    pub open spec fn joins(&self, root: Seq<u32>, c: u32, nb: u32) -> bool {
        &&& self.can_join(root, c, nb)
        &&& forall|m: u32| #[trigger]
            self.can_join(root, c, m) ==> {
                let am = class_area(self.component_area@, root, root[m as int]);
                let an = class_area(self.component_area@, root, root[nb as int]);
                am < an || (am == an && m <= nb)
            }
    }

    /// The regions after component `c` has had its turn.
    pub open spec fn fold_one(&self, min_area: u32, root: Seq<u32>, c: u32) -> Seq<u32> {
        if self.component_color@[c as int] == 0 || class_area(
            self.component_area@,
            root,
            root[c as int],
        ) >= min_area || !exists|nb: u32| self.joins(root, c, nb) {
            root
        } else {
            joined(root, root[c as int], root[(choose|nb: u32| self.joins(root, c, nb)) as int])
        }
    }

    /// The regions after the first `k` components, smallest first, have had their turn.
    pub open spec fn folded(&self, min_area: u32, k: int) -> Seq<u32>
        decreases k,
    {
        if k <= 0 {
            discrete(self.num_components as nat)
        } else {
            self.fold_one(
                min_area,
                self.folded(min_area, k - 1),
                stable_order(self.component_area@)[k - 1] as u32,
            )
        }
    }

    /// For each component, the component whose region it ends up in.
    pub open spec fn merge_map(&self, min_area: u32) -> Seq<u32> {
        if min_area <= 1 || self.num_components <= 1 {
            discrete(self.num_components as nat)
        } else {
            self.folded(min_area, self.num_components as int)
        }
    }

    /// `after` is this segmentation with its components grouped as `root` says: pixels
    /// share a region exactly when their components have one root, a region has its
    /// root's colour.
    pub open spec fn regrouped(&self, root: Seq<u32>, after: &Segmentation) -> bool {
        &&& after.width == self.width
        &&& after.height == self.height
        &&& after.labels@.len() == self.labels@.len()
        &&& forall|p: int, q: int|
            0 <= p < self.labels@.len() && 0 <= q < self.labels@.len() ==> (#[trigger]
            after.labels@[p] == #[trigger] after.labels@[q] <==> root[self.labels@[p] as int]
                == root[self.labels@[q] as int])
        &&& forall|p: int|
            0 <= p < self.labels@.len() ==> after.component_color@[#[trigger] after.labels@[p] as int]
                == self.component_color@[root[self.labels@[p] as int] as int]
    }

    /// `after` gives component `c` of this segmentation the id `ids[c]`: components share an id
    /// exactly when they have one root, the ids count up from zero as the components come, and
    /// a region has its root's colour.
    pub open spec fn renumbered(
        &self,
        root: Seq<u32>,
        ids: Seq<u32>,
        after: &Segmentation,
    ) -> bool {
        &&& ids.len() == self.num_components
        &&& numbered_by_first_occurrence(ids, after.num_components as int)
        &&& forall|c: int, d: int|
            0 <= c < ids.len() && 0 <= d < ids.len() ==> (#[trigger] ids[c] == #[trigger] ids[d]
                <==> root[c] == root[d])
        &&& forall|p: int|
            0 <= p < self.labels@.len() ==> #[trigger] after.labels@[p]
                == ids[self.labels@[p] as int]
        &&& forall|c: int|
            0 <= c < ids.len() ==> after.component_color@[#[trigger] ids[c] as int]
                == self.component_color@[root[c] as int]
    }
}

proof fn lemma_class_joined(areas: Seq<u32>, root: Seq<u32>, from: u32, to: u32, r: u32)
    requires
        areas.len() == root.len(),
        from != to,
    ensures
        class_area(areas, joined(root, from, to), r) == if r == to {
            class_area(areas, root, to) + class_area(areas, root, from)
        } else if r == from {
            0
        } else {
            class_area(areas, root, r)
        },
    decreases areas.len(),
{
    if areas.len() > 0 {
        lemma_class_joined(areas.drop_last(), root.drop_last(), from, to, r);
        assert(joined(root, from, to).drop_last() =~= joined(root.drop_last(), from, to));
    }
}

proof fn lemma_two_classes(areas: Seq<u32>, root: Seq<u32>, r: u32, s: u32)
    requires
        areas.len() == root.len(),
        r != s,
    ensures
        class_area(areas, root, r) + class_area(areas, root, s) <= total_area(areas),
    decreases areas.len(),
{
    if areas.len() > 0 {
        lemma_two_classes(areas.drop_last(), root.drop_last(), r, s);
    }
}

proof fn lemma_class_discrete(areas: Seq<u32>, r: u32)
    requires
        areas.len() <= u32::MAX,
    ensures
        class_area(areas, discrete(areas.len()), r) == if r < areas.len() {
            areas[r as int] as nat
        } else {
            0
        },
    decreases areas.len(),
{
    if areas.len() > 0 {
        assert(discrete(areas.len()).drop_last() =~= discrete(areas.drop_last().len()));
        lemma_class_discrete(areas.drop_last(), r);
    }
}

/// The counts of the labels `0..k` in `s`, added up.
spec fn sum_counts(s: Seq<u32>, k: int) -> nat
    decreases k,
{
    if k <= 0 {
        0
    } else {
        sum_counts(s, k - 1) + count_of(s, (k - 1) as u32)
    }
}

proof fn lemma_sum_counts_push(s: Seq<u32>, x: u32, k: int)
    requires
        0 <= k <= u32::MAX + 1,
    ensures
        sum_counts(s.push(x), k) == sum_counts(s, k) + if x < k {
            1nat
        } else {
            0nat
        },
    decreases k,
{
    if k > 0 {
        lemma_sum_counts_push(s, x, k - 1);
        lemma_count_push(s, x, (k - 1) as u32);
    }
}

proof fn lemma_sum_counts(s: Seq<u32>, k: int)
    requires
        0 <= k <= u32::MAX + 1,
        forall|i: int| 0 <= i < s.len() ==> #[trigger] s[i] < k,
    ensures
        sum_counts(s, k) == s.len(),
    decreases s.len(),
{
    if s.len() == 0 {
        lemma_sum_counts_empty(s, k);
    } else {
        let t = s.drop_last();
        assert forall|i: int| 0 <= i < t.len() implies #[trigger] t[i] < k by {
            assert(s[i] < k);
        }
        lemma_sum_counts(t, k);
        assert(s =~= t.push(s.last()));
        lemma_sum_counts_push(t, s.last(), k);
        assert(s[s.len() - 1] < k);
    }
}

proof fn lemma_sum_counts_empty(s: Seq<u32>, k: int)
    requires
        s.len() == 0,
    ensures
        sum_counts(s, k) == 0,
    decreases k,
{
    if k > 0 {
        lemma_sum_counts_empty(s, k - 1);
    }
}

proof fn lemma_total_is_sum(areas: Seq<u32>, s: Seq<u32>)
    requires
        areas.len() <= u32::MAX,
        forall|c: int| 0 <= c < areas.len() ==> #[trigger] areas[c] == count_of(s, c as u32),
    ensures
        total_area(areas) == sum_counts(s, areas.len() as int),
    decreases areas.len(),
{
    if areas.len() > 0 {
        let t = areas.drop_last();
        assert forall|c: int| 0 <= c < t.len() implies #[trigger] t[c] == count_of(s, c as u32) by {
            assert(areas[c] == count_of(s, c as u32));
        }
        lemma_total_is_sum(t, s);
        assert(areas[areas.len() - 1] == count_of(s, (areas.len() - 1) as u32));
    }
}

/// The areas of the components add up to the pixels of the image.
pub proof fn law_areas_cover_the_image(seg: &Segmentation)
    requires
        seg.labelled(),
    ensures
        total_area(seg.component_area@) == seg.width * seg.height,
{
    lemma_total_is_sum(seg.component_area@, seg.labels@);
    lemma_sum_counts(seg.labels@, seg.num_components as int);
}

/// There are no more components than pixels.
pub proof fn lemma_num_bound(seg: &Segmentation)
    requires
        seg.wf(),
    ensures
        seg.num_components <= seg.labels@.len(),
{
    let l = seg.labels@;
    if seg.num_components > l.len() {
        lemma_ids_grow(l, seg.num_components as int, l.len() as int);
        let c = l.len() as u32;
        assert(l.contains(c));
        let p = choose|p: int| 0 <= p < l.len() && l[p] == c;
        assert(l[p] <= p);
    }
}

/// A pixel's id is at most its position.
proof fn lemma_ids_grow(l: Seq<u32>, num: int, k: int)
    requires
        numbered_by_first_occurrence(l, num),
        0 <= k <= l.len(),
        l.len() <= u32::MAX,
    ensures
        forall|p: int| 0 <= p < k ==> #[trigger] l[p] <= p,
    decreases k,
{
    if k > 0 {
        lemma_ids_grow(l, num, k - 1);
        let p = k - 1;
        if l[p] > p {
            let c = (l[p] - 1) as u32;
            assert(c < num);
            assert(l.contains(c));
            lemma_first_index(l, c);
            let q = first_index(l, c);
            if q < p {
                assert(l[q] <= q);
            } else {
                assert(l[p] < l[q]);
            }
        }
    }
}

/// Where `c` first occurs in `l`.
spec fn first_index(l: Seq<u32>, c: u32) -> int {
    choose|q: int| is_first(l, q) && l[q] == c
}

proof fn lemma_first_index(l: Seq<u32>, c: u32)
    requires
        l.contains(c),
    ensures
        is_first(l, first_index(l, c)),
        l[first_index(l, c)] == c,
{
    let p = choose|p: int| 0 <= p < l.len() && l[p] == c;
    let q = lemma_first_place(l, p);
    assert(is_first(l, q) && l[q] == c);
}

/// Notes in both lists that components `a` and `b` touch.
fn link(adj: &mut Vec<Vec<u32>>, a: u32, b: u32)
    requires
        a < old(adj)@.len(),
        b < old(adj)@.len(),
    ensures
        final(adj)@.len() == old(adj)@.len(),
        forall|c: int, d: u32|
            0 <= c < old(adj)@.len() ==> (#[trigger] final(adj)@[c]@.contains(d) <==> old(
                adj)@[c]@.contains(d) || (a != b && ((c == a && d == b) || (c == b && d == a)))),
{
    if a != b {
        let ghost adj0 = adj@;
        adj[a as usize].push(b);
        let ghost adj1 = adj@;
        adj[b as usize].push(a);
        proof {
            assert forall|c: int, d: u32| 0 <= c < adj0.len() implies (#[trigger]
            adj@[c]@.contains(d) <==> adj0[c]@.contains(d) || (a != b && ((c == a && d == b) || (c
                == b && d == a)))) by {
                if c == a {
                    lemma_push_contains(adj0[c]@, b, d);
                } else if c == b {
                    lemma_push_contains(adj0[c]@, a, d);
                }
            }
        }
    }
}

proof fn lemma_push_contains(s: Seq<u32>, x: u32, d: u32)
    ensures
        s.push(x).contains(d) <==> s.contains(d) || d == x,
{
    if s.contains(d) {
        let i = choose|i: int| 0 <= i < s.len() && s[i] == d;
        assert(s.push(x)[i] == d);
    }
    if d == x {
        assert(s.push(x)[s.len() as int] == d);
    }
    if s.push(x).contains(d) && d != x {
        let i = choose|i: int| 0 <= i < s.push(x).len() && s.push(x)[i] == d;
        assert(s[i] == d);
    }
}

/// `q` is the right or lower neighbour of `p`.
spec fn follows(w: int, n: int, p: int, q: int) -> bool {
    adjacent(w, n, p, q) && q > p
}

/// Components `c` and `d` meet at one of the first `k` pixels and its right or lower neighbour.
spec fn met(labels: Seq<u32>, w: int, k: int, c: int, d: int) -> bool {
    c != d && exists|p: int, q: int| #[trigger]
        follows(w, labels.len() as int, p, q) && p < k && ((labels[p] == c && labels[q] == d) || (
        labels[p] == d && labels[q] == c))
}

/// One more pixel with its right and lower neighbours.
proof fn lemma_met_step(labels: Seq<u32>, w: int, k: int, c: int, d: int)
    requires
        w > 0,
        0 <= k < labels.len(),
    ensures
        met(labels, w, k + 1, c, d) <==> met(labels, w, k, c, d) || (c != d && ((follows(
            w,
            labels.len() as int,
            k,
            k + 1,
        ) && ((labels[k] == c && labels[k + 1] == d) || (labels[k] == d && labels[k + 1] == c)))
            || (follows(w, labels.len() as int, k, k + w) && ((labels[k] == c && labels[k + w] == d)
            || (labels[k] == d && labels[k + w] == c))))),
{
    let n = labels.len() as int;
    if met(labels, w, k + 1, c, d) {
        let (p, q) = choose|p: int, q: int| #[trigger]
            follows(w, n, p, q) && p < k + 1 && ((labels[p] == c && labels[q] == d) || (labels[p]
                == d && labels[q] == c));
        if p < k {
            assert(follows(w, n, p, q) && p < k);
        } else {
            assert(q == k + 1 || q == k + w);
        }
    }
    if met(labels, w, k, c, d) {
        let (p, q) = choose|p: int, q: int| #[trigger]
            follows(w, n, p, q) && p < k && ((labels[p] == c && labels[q] == d) || (labels[p] == d
                && labels[q] == c));
        assert(follows(w, n, p, q) && p < k + 1);
    }
}

proof fn lemma_met_all(seg: &Segmentation, c: u32, d: u32)
    requires
        seg.labelled(),
    ensures
        met(seg.labels@, seg.width as int, seg.labels@.len() as int, c as int, d as int)
            <==> seg.touching(c, d),
{
    let w = seg.width as int;
    let n = seg.labels@.len() as int;
    if seg.touching(c, d) {
        let (p, q) = choose|p: int, q: int| #[trigger]
            adjacent(w, n, p, q) && seg.labels@[p] == c && seg.labels@[q] == d;
        if q > p {
            assert(follows(w, n, p, q));
        } else {
            assert(adjacent(w, n, q, p));
            assert(follows(w, n, q, p));
        }
    }
    if met(seg.labels@, w, n, c as int, d as int) {
        let (p, q) = choose|p: int, q: int| #[trigger]
            follows(w, n, p, q) && p < n && ((seg.labels@[p] == c && seg.labels@[q] == d) || (
            seg.labels@[p] == d && seg.labels@[q] == c));
        assert(adjacent(w, n, p, q));
        assert(adjacent(w, n, q, p));
    }
}

/// How many pixels carry each of the labels `0..num`.
fn count_labels(labels: &Vec<u32>, num: usize) -> (areas: Vec<u32>)
    requires
        labels@.len() <= u32::MAX,
        num <= u32::MAX,
        forall|p: int| 0 <= p < labels@.len() ==> #[trigger] labels@[p] < num,
    ensures
        areas@.len() == num,
        forall|c: int| 0 <= c < num ==> #[trigger] areas@[c] == count_of(labels@, c as u32),
{
    let mut areas: Vec<u32> = vec![0u32; num];
    let mut i: usize = 0;
    while i < labels.len()
        invariant
            labels@.len() <= u32::MAX,
            num <= u32::MAX,
            forall|p: int| 0 <= p < labels@.len() ==> #[trigger] labels@[p] < num,
            i <= labels@.len(),
            areas@.len() == num,
            forall|c: int|
                0 <= c < num ==> #[trigger] areas@[c] == count_of(
                    labels@.take(i as int),
                    c as u32,
                ),
        decreases labels@.len() - i,
    {
        let c: u32 = labels[i];
        proof {
            let s = labels@.take(i as int);
            assert(labels@.take(i + 1) =~= s.push(c));
            lemma_count_bound(s, c);
            assert forall|d: int| 0 <= d < num implies #[trigger] count_of(
                labels@.take(i + 1),
                d as u32,
            ) == count_of(s, d as u32) + if c == d {
                1nat
            } else {
                0nat
            } by {
                lemma_count_push(s, c, d as u32);
            }
        }
        let a: u32 = areas[c as usize];
        areas.set(c as usize, a + 1);
        i = i + 1;
    }
    assert(labels@.take(labels@.len() as int) =~= labels@);
    areas
}

impl Segmentation {
    /// For each component, the components that it touches.
    fn neighbours(&self) -> (adj: Vec<Vec<u32>>)
        requires
            self.labelled(),
        ensures
            adj@.len() == self.num_components,
            forall|c: u32, d: u32|
                c < self.num_components ==> (#[trigger] adj@[c as int]@.contains(d)
                    <==> self.touching(c, d)),
    {
        let w: usize = self.width;
        let n: usize = self.labels.len();
        let mut adj: Vec<Vec<u32>> = Vec::new();
        while adj.len() < self.num_components
            invariant
                adj@.len() <= self.num_components,
                forall|c: int| 0 <= c < adj@.len() ==> (#[trigger] adj@[c])@.len() == 0,
            decreases self.num_components - adj@.len(),
        {
            adj.push(Vec::new());
        }
        let mut p: usize = 0;
        while p < n
            invariant
                self.labelled(),
                w == self.width,
                n == self.labels@.len(),
                p <= n,
                adj@.len() == self.num_components,
                forall|c: int, d: u32|
                    0 <= c < adj@.len() ==> (#[trigger] adj@[c]@.contains(d) <==> met(
                        self.labels@,
                        w as int,
                        p as int,
                        c,
                        d as int,
                    )),
            decreases n - p,
        {
            let a: u32 = self.labels[p];
            let ghost adj0 = adj@;
            let ghost l = self.labels@;
            proof {
                assert(w > 0) by (nonlinear_arith)
                    requires
                        w == self.width,
                        0 <= self.width,
                        self.width * self.height > 0,
                ;
                lemma_coords(w as int, self.height as int, p as int);
            }
            if p % w + 1 < w {
                let b: u32 = self.labels[p + 1];
                link(&mut adj, a, b);
            }
            let ghost adj1 = adj@;
            if p < n - w {
                let b: u32 = self.labels[p + w];
                link(&mut adj, a, b);
            }
            proof {
                assert forall|c: int, d: u32| 0 <= c < adj@.len() implies (#[trigger]
                adj@[c]@.contains(d) <==> met(l, w as int, p + 1, c, d as int)) by {
                    lemma_met_step(l, w as int, p as int, c, d as int);
                    assert(adj0[c]@.contains(d) <==> met(l, w as int, p as int, c, d as int));
                    assert(adj1[c]@.contains(d) <==> adj1[c]@.contains(d));
                }
            }
            p = p + 1;
        }
        proof {
            assert forall|c: u32, d: u32| c < self.num_components implies (#[trigger]
            adj@[c as int]@.contains(d) <==> self.touching(c, d)) by {
                lemma_met_all(self, c, d);
            }
        }
        adj
    }
}


/// Every root carries the area of its class.
spec fn weighed(areas: Seq<u32>, uf: &UnionFind) -> bool {
    &&& uf.wf()
    &&& uf.roots().len() == areas.len()
    &&& uf.sizes().len() == areas.len()
    &&& is_root_map(uf.roots())
    &&& forall|r: int|
        0 <= r < areas.len() && uf.roots()[r] == r ==> #[trigger] uf.sizes()[r] == class_area(
            areas,
            uf.roots(),
            r as u32,
        )
}

pub proof fn lemma_joins_unique(seg: &Segmentation, root: Seq<u32>, c: u32, a: u32, b: u32)
    requires
        seg.joins(root, c, a),
        seg.joins(root, c, b),
    ensures
        a == b,
{
    assert(seg.can_join(root, c, a));
    assert(seg.can_join(root, c, b));
}

/// Gives regions dense ids in the order of their first component: the new id of every
/// component and the component whose colour each new region takes.
fn compact(uf: &mut UnionFind, n: usize) -> (res: (Vec<u32>, Vec<u32>))
    requires
        old(uf).wf(),
        n == old(uf).roots().len(),
        n <= u32::MAX,
    ensures
        res.0@.len() == n,
        res.1@.len() <= n,
        numbered_by_first_occurrence(res.0@, res.1@.len() as int),
        forall|x: int, y: int|
            0 <= x < n && 0 <= y < n ==> (#[trigger] res.0@[x] == #[trigger] res.0@[y]
                <==> old(uf).roots()[x] == old(uf).roots()[y]),
        forall|x: int| 0 <= x < n ==> res.1@[#[trigger] res.0@[x] as int] == old(uf).roots()[x],
        forall|c: int| 0 <= c < res.1@.len() ==> #[trigger] res.1@[c] < n,
{
    proof {
        uf.lemma_wf();
    }
    let ghost root = uf.roots();
    let mut remap: Vec<u32> = vec![u32::MAX; n];
    let mut ids: Vec<u32> = Vec::new();
    let mut region: Vec<u32> = Vec::new();
    let mut x: usize = 0;
    while x < n
        invariant
            uf.wf(),
            uf.roots() == root,
            is_root_map(root),
            root.len() == n,
            n <= u32::MAX,
            x <= n,
            ids@.len() == x,
            remap@.len() == n,
            region@.len() <= x,
            forall|y: int| 0 <= y < x ==> #[trigger] ids@[y] == remap@[root[y] as int],
            forall|y: int|
                0 <= y < x ==> (#[trigger] ids@[y]) < region@.len() && region@[ids@[y] as int]
                    == root[y],
            forall|r: int|
                0 <= r < n && #[trigger] remap@[r] != u32::MAX ==> remap@[r] < region@.len()
                    && region@[remap@[r] as int] == r,
            forall|c: int|
                0 <= c < region@.len() ==> region@[c] < n && remap@[#[trigger] region@[c] as int]
                    == c,
            numbered_by_first_occurrence(ids@, region@.len() as int),
        decreases n - x,
    {
        let r: u32 = uf.find(x as u32);
        let ghost ids0 = ids@;
        let ghost region0 = region@;
        if remap[r as usize] == u32::MAX {
            remap.set(r as usize, region.len() as u32);
            region.push(r);
        }
        let id: u32 = remap[r as usize];
        ids.push(id);
        proof {
            let s = ids@;
            let m = region@.len() as int;
            assert forall|y: int| 0 <= y < x + 1 implies #[trigger] s[y] == remap@[root[y] as int]
                && s[y] < m && region@[s[y] as int] == root[y] by {
                if y < x {
                    assert(s[y] == ids0[y]);
                }
            }
            assert forall|c: u32| c < m implies #[trigger] s.contains(c) by {
                if c < region0.len() {
                    assert(ids0.contains(c));
                    let y = choose|y: int| 0 <= y < ids0.len() && ids0[y] == c;
                    assert(s[y] == c);
                } else {
                    assert(s[x as int] == c);
                }
            }
            assert forall|p: int, q: int| #[trigger] is_first(s, p) && 0 <= q < p implies
                #[trigger] s[q] < s[p] by {
                assert(s[q] == ids0[q]);
                if p < x {
                    assert(s[p] == ids0[p]);
                    assert forall|r: int| 0 <= r < p implies #[trigger] ids0[r] != ids0[p] by {
                        assert(s[r] == ids0[r]);
                    }
                    assert(is_first(ids0, p));
                } else if id < region0.len() {
                    assert(ids0.contains(id));
                    let y = choose|y: int| 0 <= y < ids0.len() && ids0[y] == id;
                    assert(s[y] == id);
                }
            }
        }
        x = x + 1;
    }
    (ids, region)
}

/// Renumbering the classes of a labelling by first occurrence survives grouping them.
proof fn lemma_numbered_compose(l: Seq<u32>, num: int, ids: Seq<u32>, m: int, out: Seq<u32>)
    requires
        numbered_by_first_occurrence(l, num),
        numbered_by_first_occurrence(ids, m),
        ids.len() == num,
        num <= u32::MAX,
        out.len() == l.len(),
        forall|p: int| 0 <= p < l.len() ==> #[trigger] out[p] == ids[l[p] as int],
    ensures
        numbered_by_first_occurrence(out, m),
{
    assert forall|p: int| 0 <= p < out.len() implies #[trigger] out[p] < m by {
        assert(l[p] < num);
    }
    assert forall|c: u32| c < m implies #[trigger] out.contains(c) by {
        assert(ids.contains(c));
        let x = choose|x: int| 0 <= x < ids.len() && ids[x] == c;
        assert(l.contains(x as u32));
        let p = choose|p: int| 0 <= p < l.len() && l[p] == x as u32;
        assert(out[p] == c);
    }
    assert forall|p: int, q: int| #[trigger] is_first(out, p) && 0 <= q < p implies #[trigger] out[q]
        < out[p] by {
        let c = l[p];
        assert(out[q] != out[p]);
        assert(l[q] < num && c < num);
        assert forall|x: int| 0 <= x < c implies #[trigger] ids[x] != ids[c as int] by {
            assert(l.contains(x as u32));
            lemma_first_index(l, x as u32);
            let q0 = first_index(l, x as u32);
            if q0 > p {
                assert(l[p] < l[q0]);
            }
            assert(q0 != p);
            assert(out[q0] != out[p]);
        }
        assert(is_first(ids, c as int));
        if l[q] > c {
            assert(l.contains(c));
            assert(l[q] == l[q]);
            lemma_first_index(l, c);
            let p0 = first_index(l, c);
            if p0 < p {
                assert(out[p0] == out[p]);
            }
            if p0 > p {
                assert(l[p] != l[p0]);
            }
            assert(p0 == p);
            assert(l[q] < l[p0]);
        }
        assert(ids[l[q] as int] < ids[c as int]);
    }
}

impl Segmentation {
    /// The root of the region that component `c` is to be folded into.
    fn best_neighbour(&self, touched: &Vec<u32>, uf: &mut UnionFind, c: u32, root: u32) -> (best:
        Option<u32>)
        requires
            self.labelled(),
            weighed(self.component_area@, old(uf)),
            c < self.num_components,
            root == old(uf).roots()[c as int],
            forall|d: u32| #[trigger] touched@.contains(d) <==> self.touching(c, d),
        ensures
            weighed(self.component_area@, final(uf)),
            final(uf).roots() == old(uf).roots(),
            final(uf).sizes() == old(uf).sizes(),
            match best {
                Some(keep) => exists|nb: u32| #[trigger]
                    self.joins(old(uf).roots(), c, nb) && keep == old(uf).roots()[nb as int],
                None => forall|nb: u32| !self.joins(old(uf).roots(), c, nb) && !#[trigger]
                    self.can_join(old(uf).roots(), c, nb),
            },
    {
        let ghost roots = uf.roots();
        let ghost areas = self.component_area@;
        let mut best: Option<u32> = None;
        let mut best_nb: u32 = 0;
        let mut best_size: u32 = 0;
        let own: u32 = uf.size_of(root);
        let mut i: usize = 0;
        proof {
            assert forall|j: int| 0 <= j < touched@.len() implies #[trigger] touched@[j]
                < self.num_components && self.touching(c, touched@[j]) by {
                assert(touched@.contains(touched@[j]));
                lemma_touching_bound(self, c, touched@[j]);
            }
        }
        while i < touched.len()
            invariant
                self.component_color@.len() == self.num_components,
                areas == self.component_area@,
                areas.len() == self.num_components,
                weighed(areas, uf),
                roots == old(uf).roots(),
                uf.roots() == roots,
                uf.sizes() == old(uf).sizes(),
                c < self.num_components,
                root == roots[c as int],
                own == class_area(areas, roots, root),
                forall|j: int|
                    0 <= j < touched@.len() ==> #[trigger] touched@[j] < self.num_components
                        && self.touching(c, touched@[j]),
                i <= touched@.len(),
                best is Some ==> self.can_join(roots, c, best_nb) && best == Some(
                    roots[best_nb as int],
                ) && best_size == class_area(areas, roots, roots[best_nb as int]),
                forall|j: int|
                    #![trigger touched@[j]]
                    0 <= j < i && self.can_join(roots, c, touched@[j]) ==> best is Some && {
                        let a = class_area(areas, roots, roots[touched@[j] as int]);
                        a < best_size || (a == best_size && touched@[j] <= best_nb)
                    },
            decreases touched@.len() - i,
        {
            let nb: u32 = touched[i];
            if self.component_color[nb as usize] != 0 {
                let rn: u32 = uf.find(nb);
                let s: u32 = uf.size_of(rn);
                if s > own {
                    assert(self.can_join(roots, c, nb));
                    if best.is_none() || s > best_size || (s == best_size && nb >= best_nb) {
                        best_size = s;
                        best_nb = nb;
                        best = Some(rn);
                    }
                }
            }
            i = i + 1;
        }
        proof {
            assert forall|m: u32| #[trigger] self.can_join(roots, c, m) implies best is Some && ({
                let am = class_area(areas, roots, roots[m as int]);
                am < best_size || (am == best_size && m <= best_nb)
            }) by {
                assert(touched@.contains(m));
                let j = choose|j: int| 0 <= j < touched@.len() && touched@[j] == m;
                assert(touched@[j] == m);
            }
            if best is Some {
                assert(self.joins(roots, c, best_nb));
            }
        }
        best
    }

    /// Best-effort merge of undersized opaque components into a larger
    /// neighbour. Each opaque component below `min_area` is folded (smallest
    /// first, cascading via union-find) into its largest adjacent opaque
    /// component. This is best-effort, not a guarantee: a small cluster with no
    /// larger opaque neighbour (e.g. a tiny blob surrounded only by transparency)
    /// has nothing to merge into and is left as-is. Relabels in place and
    /// compacts component ids. A `min_area` of 0 or 1 is a no-op.
    pub fn merge_small(&mut self, min_area: u32)
        requires
            old(self).labelled(),
        ensures
            final(self).labelled(),
            old(self).wf() ==> final(self).wf(),
            min_area <= 1 || old(self).num_components <= 1 ==> *final(self) == *old(self),
            old(self).regrouped(old(self).merge_map(min_area), final(self)),
            exists|ids: Seq<u32>| #[trigger]
                old(self).renumbered(old(self).merge_map(min_area), ids, final(self)),
            final(self).num_components <= old(self).num_components,
    {
        if min_area <= 1 || self.num_components <= 1 {
            proof {
                let ids = discrete(self.num_components as nat);
                assert forall|c: u32| c < self.num_components implies #[trigger] ids.contains(c) by {
                    assert(ids[c as int] == c);
                }
                assert(self.merge_map(min_area) == ids);
                assert(self.renumbered(self.merge_map(min_area), ids, self));
            }
            return ;
        }
        let ghost seg0 = *self;
        let n: usize = self.num_components;
        let ghost areas = self.component_area@;
        proof {
            law_areas_cover_the_image(self);
        }
        let adj: Vec<Vec<u32>> = self.neighbours();
        let mut uf: UnionFind = UnionFind::new(&self.component_area);
        let order: Vec<usize> = sort_indices(&self.component_area);
        proof {
            uf.lemma_wf();
            assert forall|r: int| 0 <= r < areas.len() && uf.roots()[r] == r implies #[trigger]
            uf.sizes()[r] == class_area(areas, uf.roots(), r as u32) by {
                lemma_class_discrete(areas, r as u32);
            }
        }
        let mut k: usize = 0;
        while k < n
            invariant
                *self == seg0,
                self.labelled(),
                n == self.num_components,
                n <= u32::MAX,
                areas == self.component_area@,
                total_area(areas) <= u32::MAX,
                order@ == stable_order(areas),
                is_stable_order(areas, order@),
                adj@.len() == n,
                forall|c: u32, d: u32|
                    c < n ==> (#[trigger] adj@[c as int]@.contains(d) <==> self.touching(c, d)),
                k <= n,
                weighed(areas, &uf),
                uf.roots() == self.folded(min_area, k as int),
            decreases n - k,
        {
            let ghost roots = uf.roots();
            let c: u32 = order[k] as u32;
            if self.component_color[c as usize] != 0 {
                let root: u32 = uf.find(c);
                if uf.size_of(root) < min_area {
                    let best: Option<u32> = self.best_neighbour(&adj[c as usize], &mut uf, c, root);
                    if let Some(keep) = best {
                        proof {
                            let nb = choose|nb: u32| #[trigger]
                                self.joins(roots, c, nb) && keep == roots[nb as int];
                            let m = choose|m: u32| self.joins(roots, c, m);
                            lemma_joins_unique(self, roots, c, nb, m);
                            lemma_two_classes(areas, roots, root, keep);
                        }
                        let ghost sizes = uf.sizes();
                        uf.union_into(root, keep);
                        proof {
                            uf.lemma_wf();
                            assert forall|r: int|
                                0 <= r < areas.len() && uf.roots()[r] == r implies #[trigger]
                            uf.sizes()[r] == class_area(areas, uf.roots(), r as u32) by {
                                lemma_class_joined(areas, roots, root, keep, r as u32);
                            }
                        }
                    }
                }
            }
            k = k + 1;
        }
        let ghost root = uf.roots();
        let (ids, region): (Vec<u32>, Vec<u32>) = compact(&mut uf, n);
        let mut labels: Vec<u32> = Vec::new();
        let mut p: usize = 0;
        while p < self.labels.len()
            invariant
                *self == seg0,
                self.labelled(),
                ids@.len() == self.num_components,
                p <= self.labels@.len(),
                labels@.len() == p,
                forall|q: int|
                    0 <= q < p ==> #[trigger] labels@[q] == ids@[self.labels@[q] as int],
            decreases self.labels@.len() - p,
        {
            let id: u32 = ids[self.labels[p] as usize];
            labels.push(id);
            p = p + 1;
        }
        let mut color: Vec<u32> = Vec::new();
        let mut i: usize = 0;
        while i < region.len()
            invariant
                *self == seg0,
                self.labelled(),
                i <= region@.len(),
                color@.len() == i,
                forall|c: int| 0 <= c < region@.len() ==> #[trigger] region@[c] < self.num_components,
                forall|c: int|
                    0 <= c < i ==> #[trigger] color@[c] == self.component_color@[region@[c] as int],
            decreases region@.len() - i,
        {
            let v: u32 = self.component_color[region[i] as usize];
            color.push(v);
            i = i + 1;
        }
        proof {
            if self.wf() {
                lemma_numbered_compose(
                    self.labels@,
                    n as int,
                    ids@,
                    region@.len() as int,
                    labels@,
                );
            }
            assert forall|p: int| 0 <= p < labels@.len() implies #[trigger] labels@[p]
                < region@.len() by {
                assert(self.labels@[p] < n);
            }
        }
        let area: Vec<u32> = count_labels(&labels, region.len());
        self.num_components = region.len();
        self.labels = labels;
        self.component_color = color;
        self.component_area = area;
        proof {
            assert forall|p: int, q: int|
                0 <= p < seg0.labels@.len() && 0 <= q < seg0.labels@.len() implies (#[trigger]
            self.labels@[p] == #[trigger] self.labels@[q] <==> root[seg0.labels@[p] as int]
                == root[seg0.labels@[q] as int]) by {
                assert(seg0.labels@[p] < n && seg0.labels@[q] < n);
            }
            assert forall|p: int| 0 <= p < seg0.labels@.len() implies self.component_color@[
            #[trigger] self.labels@[p] as int]
                == seg0.component_color@[root[seg0.labels@[p] as int] as int] by {
                assert(seg0.labels@[p] < n);
            }
            assert(seg0.renumbered(root, ids@, self));
        }
    }
}

/// A component that touches another is itself a component.
proof fn lemma_touching_bound(seg: &Segmentation, c: u32, d: u32)
    requires
        seg.labelled(),
        seg.touching(c, d),
    ensures
        c < seg.num_components,
        d < seg.num_components,
{
    let (p, q) = choose|p: int, q: int| #[trigger]
        adjacent(seg.width as int, seg.labels@.len() as int, p, q) && seg.labels@[p] == c
            && seg.labels@[q] == d;
    assert(seg.labels@[p] < seg.num_components);
    assert(seg.labels@[q] < seg.num_components);
}


/// Transparent components are left alone: such a component stays the root of its own
/// region, and nothing else is folded into it.
pub proof fn law_transparent_is_never_merged(seg: &Segmentation, min_area: u32)
    requires
        seg.labelled(),
    ensures
        forall|c: int|
            0 <= c < seg.num_components && #[trigger] seg.component_color@[c] == 0
                ==> seg.merge_map(min_area)[c] == c,
        forall|c: int, x: int|
            0 <= c < seg.num_components && 0 <= x < seg.num_components
                && #[trigger] seg.component_color@[c] == 0 && #[trigger] seg.merge_map(min_area)[x]
                == c ==> x == c,
{
    if min_area > 1 && seg.num_components > 1 {
        lemma_transparent_kept(seg, min_area, seg.num_components as int);
    }
}

/// The transparent components are alone in their classes.
spec fn transparent_alone(seg: &Segmentation, root: Seq<u32>) -> bool {
    &&& root.len() == seg.num_components
    &&& forall|c: int|
        0 <= c < seg.num_components && #[trigger] seg.component_color@[c] == 0 ==> root[c] == c
    &&& forall|c: int, x: int|
        0 <= c < seg.num_components && 0 <= x < seg.num_components
            && #[trigger] seg.component_color@[c] == 0 && #[trigger] root[x] == c ==> x == c
    &&& forall|x: int| 0 <= x < seg.num_components ==> #[trigger] root[x] < seg.num_components
}

proof fn lemma_transparent_kept(seg: &Segmentation, min_area: u32, k: int)
    requires
        seg.labelled(),
        0 <= k <= seg.num_components,
    ensures
        transparent_alone(seg, seg.folded(min_area, k)),
    decreases k,
{
    if k > 0 {
        lemma_transparent_kept(seg, min_area, k - 1);
        let root = seg.folded(min_area, k - 1);
        let c = stable_order(seg.component_area@)[k - 1] as u32;
        let next = seg.folded(min_area, k);
        if next != root {
            let nb = choose|nb: u32| seg.joins(root, c, nb);
            assert(seg.joins(root, c, nb));
            lemma_touching_bound(seg, c, nb);
            let from = root[c as int];
            let to = root[nb as int];
            assert(next == joined(root, from, to));
            assert(seg.component_color@[from as int] != 0);
            assert(seg.component_color@[to as int] != 0);
        }
    }
}

proof fn lemma_class_includes(areas: Seq<u32>, root: Seq<u32>, c: int)
    requires
        areas.len() == root.len(),
        0 <= c < areas.len(),
    ensures
        class_area(areas, root, root[c]) >= areas[c],
    decreases areas.len(),
{
    if c < areas.len() - 1 {
        lemma_class_includes(areas.drop_last(), root.drop_last(), c);
    }
}

/// A class of one has that one's area.
proof fn lemma_class_alone(areas: Seq<u32>, root: Seq<u32>, c: int, r: u32)
    requires
        areas.len() == root.len(),
        forall|d: int| 0 <= d < root.len() && d != c ==> #[trigger] root[d] != r,
        0 <= c < root.len() ==> root[c] == r,
    ensures
        class_area(areas, root, r) == if 0 <= c < areas.len() {
            areas[c] as nat
        } else {
            0
        },
    decreases areas.len(),
{
    if areas.len() > 0 {
        let s = root.drop_last();
        assert forall|d: int| 0 <= d < s.len() && d != c implies #[trigger] s[d] != r by {
            assert(root[d] != r);
        }
        lemma_class_alone(areas.drop_last(), s, c, r);
    }
}

/// A component that is large enough stays the root of its region.
proof fn lemma_large_kept(seg: &Segmentation, min_area: u32, k: int, c: int)
    requires
        seg.labelled(),
        0 <= k <= seg.num_components,
        0 <= c < seg.num_components,
        seg.component_area@[c] >= min_area,
    ensures
        seg.folded(min_area, k)[c] == c,
    decreases k,
{
    if k > 0 {
        lemma_large_kept(seg, min_area, k - 1, c);
        lemma_transparent_kept(seg, min_area, k - 1);
        lemma_class_includes(seg.component_area@, seg.folded(min_area, k - 1), c);
    }
}

/// Components of at least `min_area` pixels keep their colour and never join each other.
pub proof fn law_large_regions_stay(seg: &Segmentation, min_area: u32, after: &Segmentation)
    requires
        seg.labelled(),
        seg.regrouped(seg.merge_map(min_area), after),
    ensures
        forall|c: int|
            0 <= c < seg.num_components && #[trigger] seg.component_area@[c] >= min_area
                ==> seg.merge_map(min_area)[c] == c,
        forall|p: int|
            0 <= p < seg.labels@.len() && seg.component_area@[seg.labels@[p] as int] >= min_area
                ==> after.component_color@[#[trigger] after.labels@[p] as int]
                == seg.component_color@[seg.labels@[p] as int],
        forall|p: int, q: int|
            0 <= p < seg.labels@.len() && 0 <= q < seg.labels@.len() && seg.labels@[p]
                != seg.labels@[q] && seg.component_area@[seg.labels@[p] as int] >= min_area
                && seg.component_area@[seg.labels@[q] as int] >= min_area
                ==> #[trigger] after.labels@[p] != #[trigger] after.labels@[q],
{
    assert forall|c: int|
        0 <= c < seg.num_components && #[trigger] seg.component_area@[c] >= min_area implies
        seg.merge_map(min_area)[c] == c by {
        if min_area > 1 && seg.num_components > 1 {
            lemma_large_kept(seg, min_area, seg.num_components as int, c);
        }
    }
    assert forall|p: int|
        0 <= p < seg.labels@.len() && seg.component_area@[seg.labels@[p] as int]
            >= min_area implies after.component_color@[#[trigger] after.labels@[p] as int]
        == seg.component_color@[seg.labels@[p] as int] by {
        assert(seg.labels@[p] < seg.num_components);
    }
    assert forall|p: int, q: int|
        0 <= p < seg.labels@.len() && 0 <= q < seg.labels@.len() && seg.labels@[p]
            != seg.labels@[q] && seg.component_area@[seg.labels@[p] as int] >= min_area
            && seg.component_area@[seg.labels@[q] as int] >= min_area implies #[trigger] after.labels@[p]
        != #[trigger] after.labels@[q] by {
        assert(seg.labels@[p] < seg.num_components && seg.labels@[q] < seg.num_components);
    }
}

/// Where a component can be folded into some region, one of these is the one it is folded into.
proof fn lemma_joins_exist(seg: &Segmentation, root: Seq<u32>, c: u32, nb: u32)
    requires
        seg.component_area@.len() == root.len(),
        seg.can_join(root, c, nb),
    ensures
        exists|m: u32| seg.joins(root, c, m),
    decreases
            total_area(seg.component_area@) - class_area(
                seg.component_area@,
                root,
                root[nb as int],
            ),
            seg.num_components - nb,
{
    let areas = seg.component_area@;
    if !seg.joins(root, c, nb) {
        let m = choose|m: u32| #[trigger]
            seg.can_join(root, c, m) && !({
                let am = class_area(areas, root, root[m as int]);
                let an = class_area(areas, root, root[nb as int]);
                am < an || (am == an && m <= nb)
            });
        assert(seg.can_join(root, c, m));
        lemma_two_classes(areas, root, root[c as int], root[m as int]);
        lemma_joins_exist(seg, root, c, m);
    }
}

/// What has been merged stays merged.
proof fn lemma_merged_stay(seg: &Segmentation, min_area: u32, k: int, l: int, c: int, d: int)
    requires
        seg.labelled(),
        0 <= k <= l <= seg.num_components,
        0 <= c < seg.num_components,
        0 <= d < seg.num_components,
        seg.folded(min_area, k)[c] == seg.folded(min_area, k)[d],
    ensures
        seg.folded(min_area, l)[c] == seg.folded(min_area, l)[d],
    decreases l - k,
{
    if k < l {
        lemma_merged_stay(seg, min_area, k, l - 1, c, d);
        lemma_transparent_kept(seg, min_area, l - 1);
    }
}

/// An undersized opaque component that touches a larger opaque one never survives alone: its
/// region holds another component.
pub proof fn law_small_regions_are_merged(seg: &Segmentation, min_area: u32, c: u32, nb: u32)
    requires
        seg.labelled(),
        seg.touching(c, nb),
        seg.component_color@[c as int] != 0,
        seg.component_color@[nb as int] != 0,
        seg.component_area@[c as int] < min_area,
        seg.component_area@[c as int] < seg.component_area@[nb as int],
    ensures
        exists|d: int|
            0 <= d < seg.num_components && d != c && #[trigger] seg.merge_map(min_area)[d]
                == seg.merge_map(min_area)[c as int],
{
    let n = seg.num_components as int;
    let areas = seg.component_area@;
    lemma_touching_bound(seg, c, nb);
    let (p, q) = choose|p: int, q: int| #[trigger]
        adjacent(seg.width as int, seg.labels@.len() as int, p, q) && seg.labels@[p] == c
            && seg.labels@[q] == nb;
    lemma_count_occurs(seg.labels@, p);
    assert(areas[c as int] == count_of(seg.labels@, c));
    lemma_order_exists(areas);
    let order = stable_order(areas);
    lemma_order_covers(areas, order, c as usize);
    let k = choose|k: int| 0 <= k < order.len() && order[k] == c as usize;
    let root = seg.folded(min_area, k);
    lemma_transparent_kept(seg, min_area, k);
    let d = if exists|d: int|
        0 <= d < n && d != c && #[trigger] root[d] == root[c as int] {
        let d = choose|d: int| 0 <= d < n && d != c && #[trigger] root[d] == root[c as int];
        lemma_merged_stay(seg, min_area, k, n, c as int, d);
        d
    } else {
        lemma_class_alone(areas, root, c as int, root[c as int]);
        lemma_class_includes(areas, root, nb as int);
        assert(seg.can_join(root, c, nb));
        lemma_joins_exist(seg, root, c, nb);
        let m = choose|m: u32| seg.joins(root, c, m);
        assert(seg.joins(root, c, m));
        let next = seg.folded(min_area, k + 1);
        assert(next == joined(root, root[c as int], root[m as int]));
        lemma_merged_stay(seg, min_area, k + 1, n, c as int, m as int);
        m as int
    };
    assert(seg.merge_map(min_area)[d] == seg.merge_map(min_area)[c as int]);
}

/// Small regions go to the largest neighbour: a component that outweighs all others together takes
/// in every opaque component that touches it, where all others together are still undersized.
pub proof fn law_small_regions_join_the_largest_neighbour(
    seg: &Segmentation,
    min_area: u32,
    c: u32,
    nb: u32,
)
    requires
        seg.labelled(),
        seg.touching(c, nb),
        seg.component_color@[c as int] != 0,
        seg.component_color@[nb as int] != 0,
        2 * seg.component_area@[nb as int] > total_area(seg.component_area@),
        total_area(seg.component_area@) - seg.component_area@[nb as int] < min_area,
    ensures
        seg.merge_map(min_area)[c as int] == seg.merge_map(min_area)[nb as int],
{
    let n = seg.num_components as int;
    let areas = seg.component_area@;
    lemma_touching_bound(seg, c, nb);
    let (p, q) = choose|p: int, q: int| #[trigger]
        adjacent(seg.width as int, seg.labels@.len() as int, p, q) && seg.labels@[p] == c
            && seg.labels@[q] == nb;
    lemma_count_occurs(seg.labels@, p);
    assert(areas[c as int] == count_of(seg.labels@, c));
    lemma_order_exists(areas);
    let order = stable_order(areas);
    lemma_order_covers(areas, order, c as usize);
    let k = choose|k: int| 0 <= k < order.len() && order[k] == c as usize;
    let root = seg.folded(min_area, k);
    lemma_transparent_kept(seg, min_area, k);
    let own = discrete(seg.num_components as nat);
    lemma_two_classes(areas, own, c, nb);
    lemma_class_includes(areas, own, c as int);
    lemma_class_includes(areas, own, nb as int);
    assert(own[c as int] == c && own[nb as int] == nb);
    assert(min_area > 1);
    if root[c as int] == root[nb as int] {
        lemma_merged_stay(seg, min_area, k, n, c as int, nb as int);
    } else {
        let (from, to) = (root[c as int], root[nb as int]);
        lemma_two_classes(areas, root, from, to);
        lemma_class_includes(areas, root, nb as int);
        assert(seg.can_join(root, c, nb));
        lemma_joins_exist(seg, root, c, nb);
        let m = choose|m: u32| seg.joins(root, c, m);
        assert(seg.joins(root, c, m));
        if root[m as int] != to {
            lemma_two_classes(areas, root, root[m as int], to);
        }
        assert(root[m as int] == to);
        let next = seg.folded(min_area, k + 1);
        assert(next == joined(root, from, to));
        lemma_merged_stay(seg, min_area, k + 1, n, c as int, nb as int);
    }
}

pub proof fn lemma_count_occurs(s: Seq<u32>, p: int)
    requires
        0 <= p < s.len(),
    ensures
        count_of(s, s[p]) > 0,
    decreases s.len(),
{
    if p < s.len() - 1 {
        lemma_count_occurs(s.drop_last(), p);
    }
}

/// Merging sends every component to a component.
pub proof fn lemma_merge_map_range(seg: &Segmentation, min_area: u32)
    requires
        seg.labelled(),
    ensures
        seg.merge_map(min_area).len() == seg.num_components,
        forall|c: int|
            0 <= c < seg.num_components ==> #[trigger] seg.merge_map(min_area)[c]
                < seg.num_components,
{
    if min_area > 1 && seg.num_components > 1 {
        lemma_transparent_kept(seg, min_area, seg.num_components as int);
    }
}

/// Any two pixels of a region are joined by a path inside the region.
pub open spec fn regions_connected(labels: Seq<u32>, w: int) -> bool {
    forall|p: int, q: int|
        0 <= p < labels.len() && 0 <= q < labels.len() && #[trigger] labels[p]
            == #[trigger] labels[q] ==> connected(labels, w, p, q)
}

/// Regions are connected after merging if they were before: a component is only ever folded
/// into a region that it touches.
pub proof fn law_merging_keeps_regions_connected(
    seg: &Segmentation,
    min_area: u32,
    after: &Segmentation,
)
    requires
        seg.labelled(),
        regions_connected(seg.labels@, seg.width as int),
        seg.regrouped(seg.merge_map(min_area), after),
    ensures
        regions_connected(after.labels@, after.width as int),
{
    let root = seg.merge_map(min_area);
    if min_area > 1 && seg.num_components > 1 {
        lemma_folded_connected(seg, min_area, seg.num_components as int);
    } else {
        lemma_discrete_connected(seg);
    }
    let g = grouped(seg.labels@, root);
    assert forall|p: int, q: int|
        0 <= p < after.labels@.len() && 0 <= q < after.labels@.len() && #[trigger] after.labels@[p]
            == #[trigger] after.labels@[q] implies connected(
        after.labels@,
        after.width as int,
        p,
        q,
    ) by {
        assert(g[p] == g[q]);
        lemma_connected_same_classes(g, after.labels@, seg.width as int, p, q);
    }
}

/// The root of every pixel's component.
spec fn grouped(labels: Seq<u32>, root: Seq<u32>) -> Seq<u32> {
    labels.map(|i: int, c: u32| root[c as int])
}

proof fn lemma_discrete_connected(seg: &Segmentation)
    requires
        seg.labelled(),
        regions_connected(seg.labels@, seg.width as int),
    ensures
        regions_connected(
            grouped(seg.labels@, discrete(seg.num_components as nat)),
            seg.width as int,
        ),
{
    let g = grouped(seg.labels@, discrete(seg.num_components as nat));
    assert forall|p: int| 0 <= p < g.len() implies #[trigger] g[p] == seg.labels@[p] by {
        assert(seg.labels@[p] < seg.num_components);
    }
    assert(g =~= seg.labels@);
}

/// Connection carries over to a labelling that is constant wherever the first one is.
proof fn lemma_connected_same_classes(a: Seq<u32>, b: Seq<u32>, w: int, p: int, q: int)
    requires
        connected(a, w, p, q),
        a.len() == b.len(),
        forall|x: int, y: int|
            0 <= x < a.len() && 0 <= y < a.len() && #[trigger] a[x] == #[trigger] a[y] ==> b[x]
                == b[y],
    ensures
        connected(b, w, p, q),
{
    let path = choose|path: Seq<int>| path_between(a, w, path, p, q);
    assert forall|k: int| 0 <= k < path.len() implies 0 <= #[trigger] path[k] < b.len()
        && b[path[k]] == b[path[0]] by {
        assert(a[path[k]] == a[path[0]]);
    }
    assert(is_path(b, w, path));
    assert(path_between(b, w, path, p, q));
}

proof fn lemma_folded_connected(seg: &Segmentation, min_area: u32, k: int)
    requires
        seg.labelled(),
        regions_connected(seg.labels@, seg.width as int),
        0 <= k <= seg.num_components,
    ensures
        regions_connected(grouped(seg.labels@, seg.folded(min_area, k)), seg.width as int),
    decreases k,
{
    if k == 0 {
        lemma_discrete_connected(seg);
    } else {
        lemma_folded_connected(seg, min_area, k - 1);
        lemma_transparent_kept(seg, min_area, k - 1);
        let root = seg.folded(min_area, k - 1);
        let c = stable_order(seg.component_area@)[k - 1] as u32;
        let next = seg.folded(min_area, k);
        if next != root {
            let nb = choose|nb: u32| seg.joins(root, c, nb);
            assert(seg.joins(root, c, nb));
            let from = root[c as int];
            let to = root[nb as int];
            let w = seg.width as int;
            let l = seg.labels@;
            let (a, b) = choose|a: int, b: int| #[trigger]
                adjacent(w, l.len() as int, a, b) && l[a] == c && l[b] == nb;
            lemma_touching_bound(seg, c, nb);
            let g = grouped(l, root);
            let h = grouped(l, next);
            assert forall|x: int| 0 <= x < l.len() implies #[trigger] h[x] == (if g[x] == from {
                to
            } else {
                g[x]
            }) by {
                assert(l[x] < seg.num_components);
            }
            assert forall|p: int, q: int|
                0 <= p < h.len() && 0 <= q < h.len() && #[trigger] h[p]
                    == #[trigger] h[q] implies connected(h, w, p, q) by {
                if g[p] == g[q] {
                    lemma_connected_same_classes(g, h, w, p, q);
                } else {
                    // One end lies in the folded class, the other in the class it joins.
                    let (s, t) = if g[p] == from {
                        (p, q)
                    } else {
                        (q, p)
                    };
                    assert(g[a] == g[s] && g[b] == g[t]);
                    lemma_connected_same_classes(g, h, w, s, a);
                    lemma_connected_step(h, w, s, a, b);
                    lemma_connected_same_classes(g, h, w, b, t);
                    lemma_connected_trans(h, w, s, b, t);
                    lemma_connected_sym(h, w, s, t);
                }
            }
        }
    }
}

/// Segmentation yields connected regions.
pub proof fn law_segments_are_connected(colors: Seq<u32>, seg: &Segmentation)
    requires
        seg.wf(),
        colors.len() == seg.labels@.len(),
        forall|p: int, q: int|
            0 <= p < colors.len() && 0 <= q < colors.len() ==> (#[trigger] seg.labels@[p]
                == #[trigger] seg.labels@[q] <==> connected(colors, seg.width as int, p, q)),
    ensures
        regions_connected(seg.labels@, seg.width as int),
{
    let w = seg.width as int;
    let l = seg.labels@;
    assert forall|p: int, q: int|
        0 <= p < l.len() && 0 <= q < l.len() && #[trigger] l[p] == #[trigger] l[q] implies connected(
        l,
        w,
        p,
        q,
    ) by {
        let path = choose|path: Seq<int>| path_between(colors, w, path, p, q);
        assert forall|k: int| 0 <= k < path.len() implies 0 <= #[trigger] path[k] < l.len()
            && l[path[k]] == l[path[0]] by {
            let part = path.take(k + 1);
            assert(is_path(colors, w, part)) by {
                assert forall|j: int| 0 <= j < part.len() implies 0 <= #[trigger] part[j]
                    < colors.len() && colors[part[j]] == colors[part[0]] by {
                    assert(part[j] == path[j]);
                }
                assert forall|i: int, j: int|
                    0 <= i < part.len() && j == i + 1 && j < part.len() implies adjacent(
                    w,
                    colors.len() as int,
                    #[trigger] part[i],
                    #[trigger] part[j],
                ) by {
                    assert(part[i] == path[i] && part[j] == path[j]);
                }
            }
            assert(path_between(colors, w, part, path[0], path[k]));
            assert(l[path[0]] == l[path[k]]);
        }
        assert(is_path(l, w, path));
        assert(path_between(l, w, path, p, q));
    }
}

} // verus!
