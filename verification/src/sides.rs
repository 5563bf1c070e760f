//! The sides of the traced contours: every loop goes along the lattice, a horizontal side after
//! a vertical one and a vertical one after a horizontal one, and no corner lies on a straight
//! run.

use vstd::prelude::*;

use crate::contour::{
    all_trails, bend, bends_upto, boundary, collapsed, corners, lemma_empty_box, outline, outlines,
    Pt,
};
use crate::loops::{
    all_unit, chained, closes, covers, cross, doubled, in_range, lemma_doubled,
    lemma_doubled_steps, lemma_traced, on_grid, one_apart, unit_loop,
};
use crate::orientation::lemma_borders;

verus! {

/// From `a` to `b` straight to the left or right if `across`, straight up or down if not.
pub open spec fn goes(a: Pt, b: Pt, across: bool) -> bool {
    if across {
        a.1 == b.1 && a.0 != b.0
    } else {
        a.0 == b.0 && a.1 != b.1
    }
}

/// The place after place `i` of a closed loop of `n` points.
pub open spec fn after(i: int, n: int) -> int {
    if i == n - 1 {
        0
    } else {
        i + 1
    }
}

/// The sides of a closed polygon are horizontal and vertical in turn, the first one horizontal
/// if `across`.
pub open spec fn alternates(pts: Seq<Pt>, across: bool) -> bool {
    forall|i: int, j: int|
        0 <= i < pts.len() && j == after(i, pts.len() as int) ==> goes(
            #[trigger] pts[i],
            #[trigger] pts[j],
            across == (i % 2 == 0),
        )
}

/// A closed polygon of horizontal and vertical sides in turn.
pub open spec fn rectilinear(pts: Seq<Pt>) -> bool {
    &&& pts.len() >= 4
    &&& pts.len() % 2 == 0
    &&& exists|across: bool| alternates(pts, across)
}

/// Step `i` is horizontal.
spec fn flat(s: Seq<Pt>, i: int) -> bool {
    s[i].1 == s[i + 1].1
}

/// Every step joins neighbours, and none takes the one before it back.
spec fn onward(s: Seq<Pt>) -> bool {
    &&& forall|i: int, j: int|
        0 <= i && j == i + 1 && j < s.len() ==> one_apart(#[trigger] s[i], #[trigger] s[j])
    &&& forall|i: int, j: int|
        0 <= i && j == i + 2 && j < s.len() ==> #[trigger] s[i] != #[trigger] s[j]
}

/// A run of steps in one direction leads straight on.
proof fn lemma_run_goes(s: Seq<Pt>, b: int, c: int)
    requires
        onward(s),
        0 <= b < c < s.len(),
        forall|i: int| b <= i < c ==> #[trigger] flat(s, i) == flat(s, b),
    ensures
        goes(s[b], s[c], flat(s, b)),
        flat(s, b) ==> (s[b].0 < s[c].0 <==> s[c - 1].0 < s[c].0) && (s[b].0 > s[c].0 <==> s[c
            - 1].0 > s[c].0),
        !flat(s, b) ==> (s[b].1 < s[c].1 <==> s[c - 1].1 < s[c].1) && (s[b].1 > s[c].1 <==> s[c
            - 1].1 > s[c].1),
    decreases c - b,
{
    assert(one_apart(s[c - 1], s[c]));
    assert(flat(s, c - 1) == flat(s, b));
    if c > b + 1 {
        assert forall|i: int| b <= i < c - 1 implies #[trigger] flat(s, i) == flat(s, b) by {}
        lemma_run_goes(s, b, c - 1);
        assert(one_apart(s[c - 2], s[c - 1]));
        assert(s[c - 2] != s[c]);
        assert(flat(s, c - 2) == flat(s, b));
    }
}

/// A loop bends where its direction changes.
proof fn lemma_bend_turns(a: Pt, b: Pt, c: Pt)
    requires
        one_apart(a, b),
        one_apart(b, c),
    ensures
        cross(a, b, b, c) != 0 <==> (a.1 == b.1) != (b.1 == c.1),
{
    let (x, y, u, v) = (b.0 - a.0, b.1 - a.1, c.0 - b.0, c.1 - b.1);
    assert(x * v - y * u != 0 <==> (y == 0) != (v == 0)) by (nonlinear_arith)
        requires
            (x == 0 && (y == 1 || y == -1)) || (y == 0 && (x == 1 || x == -1)),
            (u == 0 && (v == 1 || v == -1)) || (v == 0 && (u == 1 || u == -1)),
    ;
}

/// Where a closed loop, walked round twice, does not bend, it keeps its direction.
proof fn lemma_direction(pts: Seq<Pt>, i: int)
    requires
        pts.len() >= 3,
        unit_loop(pts),
        1 <= i < 2 * pts.len() - 1,
    ensures
        bend(
            pts,
            if i < pts.len() {
                i
            } else {
                i - pts.len()
            },
        ) == 0 <==> flat(doubled(pts), i - 1) == flat(doubled(pts), i),
{
    let d = doubled(pts);
    lemma_doubled(pts);
    lemma_doubled_steps(pts);
    assert(one_apart(d[i - 1], d[i]) && one_apart(d[i], d[i + 1]));
    assert(cross(d[i - 1], d[i], d[i], d[i + 1]) == bend(
        pts,
        if i < pts.len() {
            i
        } else {
            i - pts.len()
        },
    ));
    lemma_bend_turns(d[i - 1], d[i], d[i + 1]);
}

/// Without a bend between them, all steps from `b` up to `c` go in one direction.
proof fn lemma_keeps_direction(pts: Seq<Pt>, b: int, c: int)
    requires
        pts.len() >= 3,
        unit_loop(pts),
        0 <= b < c < 2 * pts.len(),
        forall|i: int| b < i < c && i < pts.len() ==> #[trigger] bend(pts, i) == 0,
        forall|i: int|
            0 <= i && b < i + pts.len() < c ==> #[trigger] bend(pts, i) == 0,
    ensures
        forall|i: int| b <= i < c ==> #[trigger] flat(doubled(pts), i) == flat(doubled(pts), b),
    decreases c - b,
{
    if c > b + 1 {
        lemma_keeps_direction(pts, b, c - 1);
        let i = c - 1;
        lemma_direction(pts, i);
        if i < pts.len() {
            assert(bend(pts, i) == 0);
        } else {
            assert(bend(pts, i - pts.len()) == 0);
        }
        assert(flat(doubled(pts), c - 2) == flat(doubled(pts), b));
    }
}

/// The corners kept among the first `k`: where they begin and end, and how they alternate.
proof fn lemma_kept_alternate(pts: Seq<Pt>, k: int) -> (r: (int, int))
    requires
        pts.len() >= 3,
        unit_loop(pts),
        onward(doubled(pts)),
        0 <= k <= pts.len(),
    ensures
        ({
            let kept = bends_upto(pts, k);
            let d = doubled(pts);
            let (a, b) = r;
            if kept.len() == 0 {
                forall|i: int| 0 <= i < k ==> #[trigger] bend(pts, i) == 0
            } else {
                &&& 0 <= a <= b < k
                &&& a == b <==> kept.len() == 1
                &&& bend(pts, a) != 0
                &&& kept[0] == pts[a]
                &&& kept.last() == pts[b]
                &&& forall|i: int| 0 <= i < a ==> #[trigger] bend(pts, i) == 0
                &&& forall|i: int| b < i < k ==> #[trigger] bend(pts, i) == 0
                &&& flat(d, b) == (flat(d, a) == ((kept.len() - 1) % 2 == 0))
                &&& forall|i: int, j: int|
                    0 <= i && j == i + 1 && j < kept.len() ==> goes(
                        #[trigger] kept[i],
                        #[trigger] kept[j],
                        flat(d, a) == (i % 2 == 0),
                    )
            }
        }),
    decreases k,
{
    if k == 0 {
        (0, 0)
    } else {
        let (a, b) = lemma_kept_alternate(pts, k - 1);
        let before = bends_upto(pts, k - 1);
        let kept = bends_upto(pts, k);
        let d = doubled(pts);
        if bend(pts, k - 1) == 0 {
            (a, b)
        } else if before.len() == 0 {
            assert(kept =~= seq![pts[k - 1]]);
            (k - 1, k - 1)
        } else {
            lemma_keeps_direction(pts, b, k - 1);
            lemma_run_goes(d, b, k - 1);
            lemma_direction(pts, k - 1);
            assert(flat(d, k - 2) == flat(d, b));
            assert(d[b] == pts[b] && d[k - 1] == pts[k - 1]);
            let n = before.len() as int;
            assert(kept == before.push(pts[k - 1]));
            assert forall|i: int, j: int| 0 <= i && j == i + 1 && j < kept.len() implies goes(
                #[trigger] kept[i],
                #[trigger] kept[j],
                flat(d, a) == (i % 2 == 0),
            ) by {
                if j < n {
                    assert(kept[i] == before[i] && kept[j] == before[j]);
                } else {
                    assert(kept[i] == pts[b] && kept[j] == pts[k - 1]);
                }
            }
            assert((n % 2 == 0) != ((n - 1) % 2 == 0));
            (a, k - 1)
        }
    }
}

/// A closed loop of unit steps that never turns back alternates once its straight runs are
/// collapsed.
proof fn lemma_collapsed_rectilinear(pts: Seq<Pt>)
    requires
        pts.len() >= 3,
        unit_loop(pts),
        onward(doubled(pts)),
    ensures
        rectilinear(collapsed(pts)),
{
    let n = pts.len() as int;
    let d = doubled(pts);
    let kept = collapsed(pts);
    let (a, b) = lemma_kept_alternate(pts, n);
    let m = kept.len() as int;
    if m == 0 {
        lemma_keeps_direction(pts, 0, n);
        lemma_run_goes(d, 0, n);
        assert(d[n] == d[0]);
    } else {
        lemma_keeps_direction(pts, b, n + a);
        lemma_run_goes(d, b, n + a);
        assert(d[n + a] == pts[a] && d[b] == pts[b]);
        assert(m > 1);
        lemma_direction(pts, n + a);
        assert(flat(d, n + a - 1) == flat(d, b));
        assert(d[n + a + 1] == d[a + 1]);
        assert(flat(d, n + a) == flat(d, a));
        let across = flat(d, a);
        assert forall|i: int, j: int| 0 <= i < m && j == after(i, m) implies goes(
            #[trigger] kept[i],
            #[trigger] kept[j],
            across == (i % 2 == 0),
        ) by {}
        assert(alternates(kept, across));
        if m == 2 {
            assert(goes(kept[0], kept[1], across));
            assert(goes(kept[1], kept[0], !across));
        }
    }
}

/// A boundary does not have an edge and its reverse.
proof fn lemma_no_reverse(
    inside: spec_fn(int, int) -> bool,
    bbox: (usize, usize, usize, usize),
    i: int,
    j: int,
)
    requires
        covers(bbox, inside),
        on_grid(bbox),
        0 <= i < boundary(inside, bbox).len(),
        0 <= j < boundary(inside, bbox).len(),
        boundary(inside, bbox)[j].0 == boundary(inside, bbox)[i].1,
    ensures
        boundary(inside, bbox)[j].1 != boundary(inside, bbox)[i].0,
{
    let (a, b) = lemma_borders(inside, bbox, i);
    let (x, y) = lemma_borders(inside, bbox, j);
    assert(inside(a, b) && inside(x, y));
}

/// A closed trail has at least four edges.
proof fn lemma_trail_long(
    inside: spec_fn(int, int) -> bool,
    bbox: (usize, usize, usize, usize),
    t: Seq<int>,
)
    requires
        covers(bbox, inside),
        on_grid(bbox),
        all_unit(boundary(inside, bbox)),
        in_range(boundary(inside, bbox), t),
        chained(boundary(inside, bbox), t),
        closes(boundary(inside, bbox), t),
    ensures
        t.len() >= 4,
{
    let edges = boundary(inside, bbox);
    let n = t.len() as int;
    if n < 4 {
        assert(one_apart(edges[t[0]].0, edges[t[0]].1));
        if n >= 2 {
            assert(edges[t[0]].1 == edges[t[1]].0);
            assert(one_apart(edges[t[1]].0, edges[t[1]].1));
        }
        if n == 2 {
            lemma_no_reverse(inside, bbox, t[0], t[1]);
        } else if n == 3 {
            assert(edges[t[1]].1 == edges[t[2]].0);
            assert(one_apart(edges[t[2]].0, edges[t[2]].1));
        }
    }
}

/// Every contour has an even number of corners, at least four, and its sides are horizontal and
/// vertical in turn: the straight runs are collapsed.
pub proof fn law_contours_are_rectilinear(
    inside: spec_fn(int, int) -> bool,
    bbox: (usize, usize, usize, usize),
    k: int,
)
    requires
        covers(bbox, inside),
        bbox.2 < i32::MAX,
        bbox.3 < i32::MAX,
        0 <= k < outlines(boundary(inside, bbox)).len(),
    ensures
        rectilinear(outlines(boundary(inside, bbox))[k]),
{
    let edges = boundary(inside, bbox);
    let t = all_trails(edges)[k];
    if bbox.0 > bbox.2 || bbox.1 > bbox.3 {
        lemma_empty_box(inside, bbox);
    }
    lemma_traced(inside, bbox, k);
    lemma_trail_long(inside, bbox, t);
    let pts = corners(edges, t);
    let n = pts.len() as int;
    let d = doubled(pts);
    assert forall|i: int, j: int| 0 <= i < n && j == after(i, n) implies #[trigger] pts[j]
        == edges[t[i]].1 && #[trigger] pts[i] == edges[t[i]].0 by {
        if i == n - 1 {
            assert(t[i] == t.last());
        } else {
            assert(edges[t[i]].1 == edges[t[j]].0);
        }
    }
    assert(unit_loop(pts)) by {
        assert forall|i: int, j: int|
            0 <= i < pts.len() && j == (if i == pts.len() - 1 {
                0
            } else {
                i + 1
            }) implies one_apart(#[trigger] pts[i], #[trigger] pts[j]) by {
            assert(j == after(i, n));
            assert(one_apart(edges[t[i]].0, edges[t[i]].1));
        }
    }
    lemma_doubled_steps(pts);
    assert forall|i: int, j: int| 0 <= i && j == i + 2 && j < d.len() implies #[trigger] d[i]
        != #[trigger] d[j] by {
        let p = if i < n {
            i
        } else {
            i - n
        };
        let q = after(p, n);
        let r = after(q, n);
        assert(d[i] == pts[p] && d[j] == pts[r]);
        assert(pts[q] == edges[t[p]].1 && pts[q] == edges[t[q]].0 && pts[r] == edges[t[q]].1);
        lemma_no_reverse(inside, bbox, t[p], t[q]);
    }
    assert(onward(d));
    lemma_collapsed_rectilinear(pts);
    assert(outlines(edges)[k] == outline(edges, t));
}

} // verus!
