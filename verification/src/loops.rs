//! What the traced contours promise together: the loops use every boundary edge exactly once,
//! each of them closes, their signed areas add up to the area of the region, and they wind round
//! the region's cells and no others.

use vstd::prelude::*;

use crate::contour::{
    all_trails, bend, bends_upto, boundary, box_fits, cell_edges, collapsed, continues, corners,
    edges_before, fresh, is_next, left, lemma_empty_box, lemma_unused_mark, lower, marked,
    optional, outline, outlines, region_of, right, shoelace, shoelace_upto, sweep, trail, trails,
    turn, unused, upper, Edge, Pt,
};
use crate::grid::{count_of, lemma_coords, lemma_count_zero};

verus! {

/// Every entry of a trail is an edge.
pub open spec fn in_range(edges: Seq<Edge>, t: Seq<int>) -> bool {
    forall|i: int| 0 <= i < t.len() ==> 0 <= #[trigger] t[i] < edges.len()
}

/// Each edge of a trail starts where the one before it ends.
pub open spec fn chained(edges: Seq<Edge>, t: Seq<int>) -> bool {
    forall|i: int, j: int|
        0 <= i && j == i + 1 && j < t.len() ==> edges[#[trigger] t[i]].1 == edges[#[trigger] t[j]].0
}

/// No edge occurs twice in a trail.
pub open spec fn simple(t: Seq<int>) -> bool {
    forall|i: int, j: int| 0 <= i < j < t.len() ==> #[trigger] t[i] != #[trigger] t[j]
}

/// The trail ends where it began.
pub open spec fn closes(edges: Seq<Edge>, t: Seq<int>) -> bool {
    t.len() > 0 && edges[t.last()].1 == edges[t[0]].0
}

/// What any walk yields, wherever it starts.
pub(crate) proof fn lemma_trail(edges: Seq<Edge>, used: Seq<bool>, home: Pt, cur: int)
    requires
        used.len() == edges.len(),
        0 <= cur < edges.len(),
        !used[cur],
    ensures
        ({
            let t = trail(edges, used, home, cur);
            &&& t.len() > 0
            &&& t[0] == cur
            &&& in_range(edges, t)
            &&& chained(edges, t)
            &&& simple(t)
            &&& forall|i: int| 0 <= i < t.len() ==> !used[#[trigger] t[i]]
        }),
    decreases unused(used),
{
    let t = trail(edges, used, home, cur);
    let now = used.update(cur, true);
    lemma_unused_mark(used, cur);
    if edges[cur].1 == home || !exists|f: int| is_next(edges, now, cur, f) {
        assert(t == seq![cur]);
    } else {
        let f = choose|f: int| is_next(edges, now, cur, f);
        let rest = trail(edges, now, home, f);
        assert(t == seq![cur] + rest);
        assert(continues(edges, now, cur, f));
        lemma_trail(edges, now, home, f);
        assert forall|i: int| 0 <= i < t.len() implies 0 <= #[trigger] t[i] < edges.len()
            && !used[t[i]] by {
            if i > 0 {
                assert(t[i] == rest[i - 1]);
                assert(!now[rest[i - 1]]);
            }
        }
        assert forall|i: int, j: int| 0 <= i < j < t.len() implies #[trigger] t[i]
            != #[trigger] t[j] by {
            assert(t[j] == rest[j - 1]);
            assert(!now[rest[j - 1]]);
            if i > 0 {
                assert(t[i] == rest[i - 1]);
            }
        }
        assert forall|i: int, j: int| 0 <= i && j == i + 1 && j < t.len() implies edges[
            #[trigger] t[i]].1 == edges[#[trigger] t[j]].0 by {
            assert(t[j] == rest[j - 1]);
            if i > 0 {
                assert(t[i] == rest[i - 1]);
            }
        }
    }
}

/// Edge `f` is at place `i` of trail `k`.
pub open spec fn placed(ts: Seq<Seq<int>>, f: int, k: int, i: int) -> bool {
    0 <= k < ts.len() && 0 <= i < ts[k].len() && ts[k][i] == f
}

/// Some place of some trail holds edge `f`.
pub open spec fn covered(ts: Seq<Seq<int>>, f: int) -> bool {
    exists|k: int, i: int| placed(ts, f, k, i)
}

proof fn lemma_trails_cover(edges: Seq<Edge>, used: Seq<bool>, e: int, f: int)
    requires
        used.len() == edges.len(),
        0 <= e,
        e <= f < edges.len(),
        !used[f],
    ensures
        covered(trails(edges, used, e), f),
    decreases edges.len() - e,
{
    let ts = trails(edges, used, e);
    if used[e] {
        lemma_trails_cover(edges, used, e + 1, f);
    } else {
        let t = trail(edges, used, edges[e].0, e);
        lemma_trail(edges, used, edges[e].0, e);
        let rest = trails(edges, marked(used, t), e + 1);
        assert(ts == seq![t] + rest);
        if t.contains(f) {
            let i = choose|i: int| 0 <= i < t.len() && t[i] == f;
            assert(placed(ts, f, 0, i));
        } else {
            assert(f != e) by {
                assert(t[0] == e);
            }
            lemma_trails_cover(edges, marked(used, t), e + 1, f);
            let (k, i) = choose|k: int, i: int| placed(rest, f, k, i);
            assert(ts[k + 1] == rest[k]);
            assert(placed(ts, f, k + 1, i));
        }
    }
}

pub(crate) proof fn lemma_trails_unused(edges: Seq<Edge>, used: Seq<bool>, e: int, f: int, k: int, i: int)
    requires
        used.len() == edges.len(),
        0 <= e,
        placed(trails(edges, used, e), f, k, i),
    ensures
        0 <= f < edges.len(),
        !used[f],
    decreases edges.len() - e,
{
    if e < edges.len() {
        if used[e] {
            lemma_trails_unused(edges, used, e + 1, f, k, i);
        } else {
            let t = trail(edges, used, edges[e].0, e);
            lemma_trail(edges, used, edges[e].0, e);
            let rest = trails(edges, marked(used, t), e + 1);
            assert(trails(edges, used, e) == seq![t] + rest);
            if k == 0 {
                assert(t[i] == f);
            } else {
                assert((seq![t] + rest)[k] == rest[k - 1]);
                assert(placed(rest, f, k - 1, i));
                lemma_trails_unused(edges, marked(used, t), e + 1, f, k - 1, i);
            }
        }
    }
}

proof fn lemma_trails_once(
    edges: Seq<Edge>,
    used: Seq<bool>,
    e: int,
    f: int,
    k: int,
    i: int,
    l: int,
    j: int,
)
    requires
        used.len() == edges.len(),
        0 <= e,
        placed(trails(edges, used, e), f, k, i),
        placed(trails(edges, used, e), f, l, j),
    ensures
        k == l,
        i == j,
    decreases edges.len() - e,
{
    if e < edges.len() {
        if used[e] {
            lemma_trails_once(edges, used, e + 1, f, k, i, l, j);
        } else {
            let t = trail(edges, used, edges[e].0, e);
            lemma_trail(edges, used, edges[e].0, e);
            let rest = trails(edges, marked(used, t), e + 1);
            let ts = seq![t] + rest;
            assert(trails(edges, used, e) == ts);
            if k > 0 {
                assert(ts[k] == rest[k - 1]);
                assert(placed(rest, f, k - 1, i));
                lemma_trails_unused(edges, marked(used, t), e + 1, f, k - 1, i);
            }
            if l > 0 {
                assert(ts[l] == rest[l - 1]);
                assert(placed(rest, f, l - 1, j));
                lemma_trails_unused(edges, marked(used, t), e + 1, f, l - 1, j);
            }
            if k > 0 && l > 0 {
                lemma_trails_once(edges, marked(used, t), e + 1, f, k - 1, i, l - 1, j);
            } else if k == 0 && l == 0 {
                if i < j {
                    assert(t[i] != t[j]);
                } else if j < i {
                    assert(t[j] != t[i]);
                }
            } else if k == 0 {
                assert(t[i] == f);
                assert(t.contains(f));
            } else {
                assert(t[j] == f);
                assert(t.contains(f));
            }
        }
    }
}

/// The trails use every edge, and each edge exactly once.
pub proof fn law_trails_use_every_edge_once(edges: Seq<Edge>, f: int)
    requires
        0 <= f < edges.len(),
    ensures
        covered(all_trails(edges), f),
        forall|k: int, i: int, l: int, j: int| #[trigger]
            placed(all_trails(edges), f, k, i) && #[trigger] placed(all_trails(edges), f, l, j)
                ==> k == l && i == j,
{
    let used = fresh(edges.len());
    lemma_trails_cover(edges, used, 0, f);
    assert forall|k: int, i: int, l: int, j: int| #[trigger]
        placed(all_trails(edges), f, k, i) && #[trigger] placed(
            all_trails(edges),
            f,
            l,
            j,
        ) implies k == l && i == j by {
        lemma_trails_once(edges, used, 0, f, k, i, l, j);
    }
}

/// The sum of `f` over the edges that are not used.
spec fn over_unused(edges: Seq<Edge>, used: Seq<bool>, f: spec_fn(Edge) -> int) -> int
    decreases edges.len(),
{
    if edges.len() == 0 {
        0
    } else {
        over_unused(edges.drop_last(), used.drop_last(), f) + if used.last() {
            0
        } else {
            f(edges.last())
        }
    }
}

/// The sum of `f` over all edges.
pub open spec fn over_all(edges: Seq<Edge>, f: spec_fn(Edge) -> int) -> int
    decreases edges.len(),
{
    if edges.len() == 0 {
        0
    } else {
        over_all(edges.drop_last(), f) + f(edges.last())
    }
}

/// How much an edge adds to the starts less the ends at corner `v`.
spec fn flow(v: Pt) -> spec_fn(Edge) -> int {
    |e: Edge| unit_at(e.0, v) - unit_at(e.1, v)
}

spec fn unit_at(p: Pt, v: Pt) -> int {
    if p == v {
        1
    } else {
        0
    }
}

proof fn lemma_over_mark(edges: Seq<Edge>, used: Seq<bool>, f: spec_fn(Edge) -> int, e: int)
    requires
        used.len() == edges.len(),
        0 <= e < edges.len(),
        !used[e],
    ensures
        over_unused(edges, used.update(e, true), f) == over_unused(edges, used, f) - f(edges[e]),
    decreases edges.len(),
{
    if e == edges.len() - 1 {
        assert(used.update(e, true).drop_last() =~= used.drop_last());
    } else {
        assert(used.update(e, true).drop_last() =~= used.drop_last().update(e, true));
        lemma_over_mark(edges.drop_last(), used.drop_last(), f, e);
    }
}

/// A corner with more starts than ends has an unused edge that starts there.
proof fn lemma_surplus(edges: Seq<Edge>, used: Seq<bool>, v: Pt) -> (f: int)
    requires
        used.len() == edges.len(),
        over_unused(edges, used, flow(v)) > 0,
    ensures
        0 <= f < edges.len(),
        !used[f],
        edges[f].0 == v,
    decreases edges.len(),
{
    let n = edges.len() - 1;
    if !used[n] && edges[n].0 == v {
        n
    } else {
        lemma_surplus(edges.drop_last(), used.drop_last(), v)
    }
}

/// Where an edge can be taken, one is the one to take.
proof fn lemma_next_exists(edges: Seq<Edge>, used: Seq<bool>, e: int, f: int)
    requires
        continues(edges, used, e, f),
    ensures
        exists|g: int| is_next(edges, used, e, g),
    decreases turn(edges[e], edges[f]), f,
{
    if !is_next(edges, used, e, f) {
        let g = choose|g: int| #[trigger]
            continues(edges, used, e, g) && !(turn(edges[e], edges[f]) < turn(edges[e], edges[g])
                || (turn(edges[e], edges[f]) == turn(edges[e], edges[g]) && f <= g));
        lemma_next_exists(edges, used, e, g);
    }
}

/// The starts less the ends of the unused edges at `v`, while a walk from `home` stands at `p`.
spec fn underway(edges: Seq<Edge>, used: Seq<bool>, home: Pt, p: Pt) -> bool {
    forall|v: Pt| #[trigger]
        over_unused(edges, used, flow(v)) == unit_at(p, v) - unit_at(home, v)
}

/// As many unused edges start at each corner as end there.
spec fn balanced(edges: Seq<Edge>, used: Seq<bool>) -> bool {
    forall|v: Pt| #[trigger] over_unused(edges, used, flow(v)) == 0
}

proof fn lemma_trail_closes(edges: Seq<Edge>, used: Seq<bool>, home: Pt, cur: int)
    requires
        used.len() == edges.len(),
        0 <= cur < edges.len(),
        !used[cur],
        underway(edges, used, home, edges[cur].0),
    ensures
        ({
            let t = trail(edges, used, home, cur);
            &&& t.len() > 0
            &&& edges[t.last()].1 == home
            &&& balanced(edges, marked(used, t))
        }),
    decreases unused(used),
{
    let t = trail(edges, used, home, cur);
    let now = used.update(cur, true);
    lemma_unused_mark(used, cur);
    let end = edges[cur].1;
    assert forall|v: Pt| #[trigger]
        over_unused(edges, now, flow(v)) == unit_at(end, v) - unit_at(home, v) by {
        lemma_over_mark(edges, used, flow(v), cur);
        assert(over_unused(edges, used, flow(v)) == unit_at(edges[cur].0, v) - unit_at(home, v));
    }
    if end == home {
        assert(t == seq![cur]);
        assert(t[0] == cur);
        assert(marked(used, t) =~= now);
    } else {
        assert(over_unused(edges, now, flow(end)) == 1);
        let g = lemma_surplus(edges, now, end);
        assert(continues(edges, now, cur, g));
        lemma_next_exists(edges, now, cur, g);
        let f = choose|f: int| is_next(edges, now, cur, f);
        assert(continues(edges, now, cur, f));
        let rest = trail(edges, now, home, f);
        assert(t == seq![cur] + rest);
        lemma_trail_closes(edges, now, home, f);
        assert(t.last() == rest.last());
        assert(marked(used, t) =~= marked(now, rest)) by {
            assert forall|e: int| 0 <= e < used.len() implies marked(used, t)[e] == marked(
                now,
                rest,
            )[e] by {
                assert(t[0] == cur);
                if t.contains(e) {
                    let i = choose|i: int| 0 <= i < t.len() && t[i] == e;
                    if i > 0 {
                        assert(rest[i - 1] == e);
                    }
                }
                if rest.contains(e) {
                    let i = choose|i: int| 0 <= i < rest.len() && rest[i] == e;
                    assert(t[i + 1] == e);
                }
            }
        }
    }
}

proof fn lemma_trails_close(edges: Seq<Edge>, used: Seq<bool>, e: int, k: int)
    requires
        used.len() == edges.len(),
        0 <= e,
        balanced(edges, used),
        0 <= k < trails(edges, used, e).len(),
    ensures
        closes(edges, trails(edges, used, e)[k]),
        in_range(edges, trails(edges, used, e)[k]),
        chained(edges, trails(edges, used, e)[k]),
    decreases edges.len() - e,
{
    if e < edges.len() {
        if used[e] {
            lemma_trails_close(edges, used, e + 1, k);
        } else {
            let home = edges[e].0;
            let t = trail(edges, used, home, e);
            lemma_trail(edges, used, home, e);
            assert forall|v: Pt| #[trigger]
                over_unused(edges, used, flow(v)) == unit_at(home, v) - unit_at(home, v) by {}
            lemma_trail_closes(edges, used, home, e);
            let rest = trails(edges, marked(used, t), e + 1);
            let ts = seq![t] + rest;
            assert(trails(edges, used, e) == ts);
            if k > 0 {
                assert(ts[k] == rest[k - 1]);
                lemma_trails_close(edges, marked(used, t), e + 1, k - 1);
            }
        }
    }
}

proof fn lemma_over_append(a: Seq<Edge>, b: Seq<Edge>, f: spec_fn(Edge) -> int)
    ensures
        over_all(a + b, f) == over_all(a, f) + over_all(b, f),
    decreases b.len(),
{
    if b.len() == 0 {
        assert(a + b =~= a);
    } else {
        assert((a + b).drop_last() =~= a + b.drop_last());
        lemma_over_append(a, b.drop_last(), f);
    }
}

proof fn lemma_over_fresh(edges: Seq<Edge>, f: spec_fn(Edge) -> int)
    ensures
        over_unused(edges, fresh(edges.len()), f) == over_all(edges, f),
    decreases edges.len(),
{
    if edges.len() > 0 {
        assert(fresh(edges.len()).drop_last() =~= fresh(edges.drop_last().len()));
        lemma_over_fresh(edges.drop_last(), f);
    }
}

/// `f` cancels on an edge and its reverse, and adds up to `g` around every cell of the lattice.
spec fn additive(f: spec_fn(Edge) -> int, g: spec_fn(int, int) -> int) -> bool {
    &&& forall|e: Edge| f((e.1, e.0)) == -#[trigger] f(e)
    &&& forall|x: int, y: int|
        0 <= x < i32::MAX && 0 <= y < i32::MAX ==> f(#[trigger] upper(x, y)) + f(right(x, y)) + f(
            lower(x, y),
        ) + f(left(x, y)) == g(x, y)
}

/// What is missing along the upper side of `(x, y)` because both sides of it are inside.
spec fn across(inside: spec_fn(int, int) -> bool, f: spec_fn(Edge) -> int, x: int, y: int) -> int {
    if inside(x, y) && inside(x, y - 1) {
        f(upper(x, y))
    } else {
        0
    }
}

/// What is missing along the left side of `(x, y)` because both sides of it are inside.
spec fn along(inside: spec_fn(int, int) -> bool, f: spec_fn(Edge) -> int, x: int, y: int) -> int {
    if inside(x, y) && inside(x - 1, y) {
        f(left(x, y))
    } else {
        0
    }
}

/// What cell `(x, y)` counts if it is inside.
spec fn weight(
    inside: spec_fn(int, int) -> bool,
    g: spec_fn(int, int) -> int,
    x: int,
    y: int,
) -> int {
    if inside(x, y) {
        g(x, y)
    } else {
        0
    }
}

proof fn lemma_over_optional(present: bool, e: Edge, f: spec_fn(Edge) -> int)
    ensures
        over_all(optional(present, e), f) == if present {
            f(e)
        } else {
            0
        },
{
    assert(seq![e].drop_last() =~= Seq::<Edge>::empty());
    reveal_with_fuel(over_all, 2);
}

proof fn lemma_cell(
    inside: spec_fn(int, int) -> bool,
    f: spec_fn(Edge) -> int,
    g: spec_fn(int, int) -> int,
    x: int,
    y: int,
)
    requires
        additive(f, g),
        0 <= x < i32::MAX,
        0 <= y < i32::MAX,
    ensures
        over_all(cell_edges(inside, x, y), f) == weight(inside, g, x, y) + across(
            inside,
            f,
            x,
            y + 1,
        ) - across(inside, f, x, y) + along(inside, f, x + 1, y) - along(inside, f, x, y),
{
    if inside(x, y) {
        let a = optional(!inside(x, y - 1), upper(x, y));
        let b = optional(!inside(x + 1, y), right(x, y));
        let d = optional(!inside(x, y + 1), lower(x, y));
        let e = optional(!inside(x - 1, y), left(x, y));
        assert(cell_edges(inside, x, y) == a + b + d + e);
        lemma_over_append(a + b + d, e, f);
        lemma_over_append(a + b, d, f);
        lemma_over_append(a, b, f);
        lemma_over_optional(!inside(x, y - 1), upper(x, y), f);
        lemma_over_optional(!inside(x + 1, y), right(x, y), f);
        lemma_over_optional(!inside(x, y + 1), lower(x, y), f);
        lemma_over_optional(!inside(x - 1, y), left(x, y), f);
        assert(f(upper(x, y)) + f(right(x, y)) + f(lower(x, y)) + f(left(x, y)) == g(x, y));
        let up = upper(x, y + 1);
        assert(lower(x, y) == (up.1, up.0));
        assert(f(lower(x, y)) == -f(up));
        let lf = left(x + 1, y);
        assert(right(x, y) == (lf.1, lf.0));
        assert(f(right(x, y)) == -f(lf));
        assert(x + 1 - 1 == x && y + 1 - 1 == y);
    } else {
        assert(x + 1 - 1 == x && y + 1 - 1 == y);
        assert(over_all(Seq::<Edge>::empty(), f) == 0);
    }
}

/// The cells of the region among those of the box that precede `(x, y)` in raster order.
pub open spec fn cells_before(
    inside: spec_fn(int, int) -> bool,
    min_x: int,
    max_x: int,
    min_y: int,
    x: int,
    y: int,
) -> nat
    decreases y - min_y, x - min_x,
{
    if y < min_y {
        0
    } else if x > min_x {
        cells_before(inside, min_x, max_x, min_y, x - 1, y) + if inside(x - 1, y) {
            1nat
        } else {
            0nat
        }
    } else if y > min_y {
        cells_before(inside, min_x, max_x, min_y, max_x + 1, y - 1)
    } else {
        0
    }
}

/// What the cells of the region count among those of the box that precede `(x, y)`.
spec fn weight_before(
    inside: spec_fn(int, int) -> bool,
    g: spec_fn(int, int) -> int,
    bbox: (usize, usize, usize, usize),
    x: int,
    y: int,
) -> int
    decreases y - bbox.1, x - bbox.0,
{
    if y < bbox.1 {
        0
    } else if x > bbox.0 {
        weight_before(inside, g, bbox, x - 1, y) + weight(inside, g, x - 1, y)
    } else if y > bbox.1 {
        weight_before(inside, g, bbox, bbox.2 + 1, y - 1)
    } else {
        0
    }
}

/// If every cell counts the same, the cells are counted.
proof fn lemma_weight_constant(
    inside: spec_fn(int, int) -> bool,
    c: int,
    bbox: (usize, usize, usize, usize),
    x: int,
    y: int,
)
    ensures
        weight_before(inside, |a: int, b: int| c, bbox, x, y) == c * cells_before(
            inside,
            bbox.0 as int,
            bbox.2 as int,
            bbox.1 as int,
            x,
            y,
        ),
    decreases y - bbox.1, x - bbox.0,
{
    let n1 = cells_before(inside, bbox.0 as int, bbox.2 as int, bbox.1 as int, x, y) as int;
    if y < bbox.1 {
        assert(c * n1 == 0) by (nonlinear_arith)
            requires
                n1 == 0,
        ;
    } else if x > bbox.0 {
        lemma_weight_constant(inside, c, bbox, x - 1, y);
        let n0 = cells_before(inside, bbox.0 as int, bbox.2 as int, bbox.1 as int, x - 1, y) as int;
        assert(c * (n0 + 1) == c * n0 + c) by (nonlinear_arith);
    } else if y > bbox.1 {
        lemma_weight_constant(inside, c, bbox, bbox.2 + 1, y - 1);
    } else {
        assert(c * n1 == 0) by (nonlinear_arith)
            requires
                n1 == 0,
        ;
    }
}

/// The one cell `(p, q)`.
spec fn only(p: int, q: int) -> spec_fn(int, int) -> int {
    |x: int, y: int|
        if x == p && y == q {
            1
        } else {
            0
        }
}

/// If one cell alone counts, it counts once it has been passed.
proof fn lemma_weight_only(
    inside: spec_fn(int, int) -> bool,
    bbox: (usize, usize, usize, usize),
    p: int,
    q: int,
    x: int,
    y: int,
)
    requires
        covers(bbox, inside),
        bbox.0 <= bbox.2,
        bbox.1 <= bbox.3,
        bbox.0 <= x <= bbox.2 + 1,
        bbox.1 <= y,
    ensures
        weight_before(inside, only(p, q), bbox, x, y) == if inside(p, q) && (q < y || q == y && p
            < x) {
            1int
        } else {
            0
        },
    decreases y - bbox.1, x - bbox.0,
{
    if x > bbox.0 {
        lemma_weight_only(inside, bbox, p, q, x - 1, y);
    } else if y > bbox.1 {
        lemma_weight_only(inside, bbox, p, q, bbox.2 + 1, y - 1);
    }
}

/// The sum of [`across`] over the columns from `min_x` up to `x`.
spec fn across_row(
    inside: spec_fn(int, int) -> bool,
    f: spec_fn(Edge) -> int,
    min_x: int,
    x: int,
    y: int,
) -> int
    decreases x - min_x,
{
    if x <= min_x {
        0
    } else {
        across_row(inside, f, min_x, x - 1, y) + across(inside, f, x - 1, y)
    }
}

proof fn lemma_across_row_zero(
    inside: spec_fn(int, int) -> bool,
    f: spec_fn(Edge) -> int,
    min_x: int,
    x: int,
    y: int,
)
    requires
        forall|a: int| !#[trigger] inside(a, y) || !inside(a, y - 1),
    ensures
        across_row(inside, f, min_x, x, y) == 0,
    decreases x - min_x,
{
    if x > min_x {
        lemma_across_row_zero(inside, f, min_x, x - 1, y);
    }
}

/// All cells of the region lie in the box.
pub open spec fn covers(
    bbox: (usize, usize, usize, usize),
    inside: spec_fn(int, int) -> bool,
) -> bool {
    forall|x: int, y: int| #[trigger]
        inside(x, y) ==> bbox.0 <= x <= bbox.2 && bbox.1 <= y <= bbox.3
}

/// The box lies on the lattice.
pub open spec fn on_grid(bbox: (usize, usize, usize, usize)) -> bool {
    bbox.0 <= bbox.2 < i32::MAX && bbox.1 <= bbox.3 < i32::MAX
}

#[verifier::spinoff_prover]
proof fn lemma_scan(
    inside: spec_fn(int, int) -> bool,
    f: spec_fn(Edge) -> int,
    g: spec_fn(int, int) -> int,
    bbox: (usize, usize, usize, usize),
    x: int,
    y: int,
)
    requires
        additive(f, g),
        covers(bbox, inside),
        on_grid(bbox),
        bbox.0 <= x <= bbox.2 + 1,
        bbox.1 <= y <= bbox.3 + 1,
        y == bbox.3 + 1 ==> x == bbox.0,
    ensures
        over_all(
            edges_before(inside, bbox.0 as int, bbox.2 as int, bbox.1 as int, x, y),
            f,
        ) == weight_before(inside, g, bbox, x, y) + across_row(
            inside,
            f,
            bbox.0 as int,
            bbox.2 + 1,
            y,
        ) - across_row(inside, f, bbox.0 as int, x, y) + across_row(
            inside,
            f,
            bbox.0 as int,
            x,
            y + 1,
        ) + along(inside, f, x, y),
    decreases y - bbox.1, x - bbox.0,
{
    let (a, b, p) = (bbox.0 as int, bbox.2 as int, bbox.1 as int);
    if x > a {
        lemma_scan(inside, f, g, bbox, x - 1, y);
        lemma_cell(inside, f, g, x - 1, y);
        lemma_over_append(
            edges_before(inside, a, b, p, x - 1, y),
            cell_edges(inside, x - 1, y),
            f,
        );
    } else if y > p {
        lemma_scan(inside, f, g, bbox, b + 1, y - 1);
        assert(!inside(b + 1, y - 1));
        assert(!inside(a - 1, y));
        assert(y - 1 + 1 == y);
    } else {
        assert(!inside(a - 1, y));
        assert forall|q: int| !#[trigger] inside(q, y) || !inside(q, y - 1) by {
            assert(!inside(q, y - 1));
        }
        lemma_across_row_zero(inside, f, a, b + 1, y);
        assert(edges_before(inside, a, b, p, x, y) == Seq::<Edge>::empty());
        assert(over_all(Seq::<Edge>::empty(), f) == 0);
    }
}

/// Summed over the boundary of a region, `f` counts the region's cells.
proof fn lemma_boundary_total(
    inside: spec_fn(int, int) -> bool,
    f: spec_fn(Edge) -> int,
    g: spec_fn(int, int) -> int,
    bbox: (usize, usize, usize, usize),
)
    requires
        additive(f, g),
        covers(bbox, inside),
        on_grid(bbox),
    ensures
        over_all(boundary(inside, bbox), f) == weight_before(
            inside,
            g,
            bbox,
            bbox.0 as int,
            bbox.3 + 1,
        ),
{
    let y = bbox.3 + 1;
    lemma_scan(inside, f, g, bbox, bbox.0 as int, y);
    assert forall|q: int| !#[trigger] inside(q, y) || !inside(q, y - 1) by {}
    lemma_across_row_zero(inside, f, bbox.0 as int, bbox.2 + 1, y);
    assert(!inside(bbox.0 as int, y));
}

proof fn lemma_flow_additive(v: Pt)
    ensures
        additive(flow(v), |x: int, y: int| 0),
{
    let f = flow(v);
    assert forall|e: Edge| f((e.1, e.0)) == -#[trigger] f(e) by {}
    assert forall|x: int, y: int|
        0 <= x < i32::MAX && 0 <= y < i32::MAX implies f(#[trigger] upper(x, y)) + f(right(x, y))
        + f(lower(x, y)) + f(left(x, y)) == 0 by {}
}

/// The loops of a region close: every trail along its boundary is a chain of edges that
/// returns to where it began.
pub proof fn law_contours_close(
    inside: spec_fn(int, int) -> bool,
    bbox: (usize, usize, usize, usize),
    k: int,
)
    requires
        covers(bbox, inside),
        bbox.2 < i32::MAX,
        bbox.3 < i32::MAX,
        0 <= k < all_trails(boundary(inside, bbox)).len(),
    ensures
        chained(boundary(inside, bbox), all_trails(boundary(inside, bbox))[k]),
        closes(boundary(inside, bbox), all_trails(boundary(inside, bbox))[k]),
{
    let edges = boundary(inside, bbox);
    if bbox.0 > bbox.2 || bbox.1 > bbox.3 {
        lemma_empty_box(inside, bbox);
    }
    lemma_boundary_balanced(inside, bbox);
    lemma_trails_close(edges, fresh(edges.len()), 0, k);
}

proof fn lemma_boundary_balanced(
    inside: spec_fn(int, int) -> bool,
    bbox: (usize, usize, usize, usize),
)
    requires
        covers(bbox, inside),
        on_grid(bbox),
    ensures
        balanced(boundary(inside, bbox), fresh(boundary(inside, bbox).len())),
{
    let edges = boundary(inside, bbox);
    assert forall|v: Pt| #[trigger] over_unused(edges, fresh(edges.len()), flow(v)) == 0 by {
        lemma_over_fresh(edges, flow(v));
        lemma_flow_additive(v);
        lemma_boundary_total(inside, flow(v), |x: int, y: int| 0, bbox);
        lemma_weight_constant(inside, 0, bbox, bbox.0 as int, bbox.3 + 1);
    }
}

/// The three points lie on one line of the lattice.
spec fn level(a: Pt, b: Pt, c: Pt) -> bool {
    ||| a.0 == b.0 && b.0 == c.0
    ||| a.1 == b.1 && b.1 == c.1
}

/// `m` adds up along every line of the lattice.
spec fn straight(m: spec_fn(Pt, Pt) -> int) -> bool {
    forall|a: Pt, b: Pt, c: Pt| #[trigger] level(a, b, c) ==> m(a, b) + m(b, c) == m(a, c)
}

/// What `m` makes of an edge.
pub open spec fn of_edge(m: spec_fn(Pt, Pt) -> int) -> spec_fn(Edge) -> int {
    |e: Edge| m(e.0, e.1)
}

/// The sum of `m` over the first `k` sides of a closed polygon.
pub open spec fn sides_upto(m: spec_fn(Pt, Pt) -> int, pts: Seq<Pt>, k: int) -> int
    decreases k,
{
    if k <= 0 {
        0
    } else {
        sides_upto(m, pts, k - 1) + m(
            pts[k - 1],
            pts[if k == pts.len() {
                0
            } else {
                k
            }],
        )
    }
}

/// The sum of `m` over the sides of a list of closed polygons.
pub open spec fn over_sides(m: spec_fn(Pt, Pt) -> int, loops: Seq<Seq<Pt>>) -> int
    decreases loops.len(),
{
    if loops.len() == 0 {
        0
    } else {
        sides_upto(m, loops[0], loops[0].len() as int) + over_sides(m, loops.drop_first())
    }
}

/// Signed doubled area swept by one side.
pub open spec fn sweeps() -> spec_fn(Pt, Pt) -> int {
    |p: Pt, q: Pt| sweep(p, q)
}

proof fn lemma_sweep_additive()
    ensures
        additive(of_edge(sweeps()), |x: int, y: int| 2),
        straight(sweeps()),
{
    let f = of_edge(sweeps());
    assert forall|x: int, y: int|
        0 <= x < i32::MAX && 0 <= y < i32::MAX implies f(#[trigger] upper(x, y)) + f(right(x, y))
        + f(lower(x, y)) + f(left(x, y)) == 2 by {
        assert(x * y - (x + 1) * y + ((x + 1) * (y + 1) - (x + 1) * y) + ((x + 1) * (y + 1) - x * (y
            + 1)) + (x * y - x * (y + 1)) == 2) by (nonlinear_arith);
    }
    let m = sweeps();
    assert forall|a: Pt, b: Pt, c: Pt| #[trigger] level(a, b, c) implies m(a, b) + m(b, c) == m(
        a,
        c,
    ) by {
        let (p, q, r, s, u, v) = (
            a.0 as int,
            a.1 as int,
            b.0 as int,
            b.1 as int,
            c.0 as int,
            c.1 as int,
        );
        assert((p * s - r * q) + (r * v - u * s) == p * v - u * q) by (nonlinear_arith)
            requires
                p == r && r == u || q == s && s == v,
        ;
    }
}

proof fn lemma_shoelace_sides(pts: Seq<Pt>, k: int)
    ensures
        shoelace_upto(pts, k) == sides_upto(sweeps(), pts, k),
    decreases k,
{
    if k > 0 {
        lemma_shoelace_sides(pts, k - 1);
    }
}

/// The areas of a list of polygons are sums over their sides.
proof fn lemma_total_area_sides(loops: Seq<Seq<Pt>>)
    ensures
        total_area(loops) == over_sides(sweeps(), loops),
    decreases loops.len(),
{
    if loops.len() > 0 {
        lemma_shoelace_sides(loops[0], loops[0].len() as int);
        lemma_total_area_sides(loops.drop_first());
    }
}

/// How the side from `p` to `q` crosses the ray that goes from the middle of cell `(x, y)` to
/// the right: once, downwards or upwards, if it passes to the right of the cell from above the
/// middle of its row to below or the other way.
pub open spec fn crossing(x: int, y: int) -> spec_fn(Pt, Pt) -> int {
    |p: Pt, q: Pt|
        if p.0 == q.0 && p.0 > x {
            below(q, y) - below(p, y)
        } else {
            0
        }
}

/// Whether `p` lies below the middle of row `y`.
pub open spec fn below(p: Pt, y: int) -> int {
    if p.1 > y {
        1
    } else {
        0
    }
}

/// How often a list of polygons with sides along the lattice winds round cell `(x, y)`,
/// clockwise.
pub open spec fn winding(loops: Seq<Seq<Pt>>, x: int, y: int) -> int {
    over_sides(crossing(x, y), loops)
}

proof fn lemma_crossing_additive(p: int, q: int)
    ensures
        additive(of_edge(crossing(p, q)), only(p, q)),
        straight(crossing(p, q)),
{
    let f = of_edge(crossing(p, q));
    assert forall|x: int, y: int|
        0 <= x < i32::MAX && 0 <= y < i32::MAX implies f(#[trigger] upper(x, y)) + f(right(x, y))
        + f(lower(x, y)) + f(left(x, y)) == only(p, q)(x, y) by {}
    assert forall|e: Edge| f((e.1, e.0)) == -#[trigger] f(e) by {}
}

/// The sum of `f` over the edges of a trail.
pub open spec fn over_trail(edges: Seq<Edge>, t: Seq<int>, f: spec_fn(Edge) -> int) -> int
    decreases t.len(),
{
    if t.len() == 0 {
        0
    } else {
        over_trail(edges, t.drop_last(), f) + f(edges[t.last()])
    }
}

proof fn lemma_over_marked(edges: Seq<Edge>, used: Seq<bool>, t: Seq<int>, f: spec_fn(Edge) -> int)
    requires
        used.len() == edges.len(),
        in_range(edges, t),
        simple(t),
        forall|i: int| 0 <= i < t.len() ==> !used[#[trigger] t[i]],
    ensures
        over_unused(edges, marked(used, t), f) == over_unused(edges, used, f) - over_trail(
            edges,
            t,
            f,
        ),
    decreases t.len(),
{
    if t.len() == 0 {
        assert(marked(used, t) =~= used);
    } else {
        let s = t.drop_last();
        let e = t.last();
        assert forall|i: int| 0 <= i < s.len() implies 0 <= #[trigger] s[i] < edges.len()
            && !used[s[i]] by {
            assert(s[i] == t[i]);
        }
        assert forall|i: int, j: int| 0 <= i < j < s.len() implies #[trigger] s[i]
            != #[trigger] s[j] by {
            assert(t[i] != t[j]);
        }
        lemma_over_marked(edges, used, s, f);
        assert(!used[t[t.len() - 1]]);
        assert(!s.contains(e)) by {
            if s.contains(e) {
                let i = choose|i: int| 0 <= i < s.len() && s[i] == e;
                assert(t[i] != t[t.len() - 1]);
            }
        }
        lemma_over_mark(edges, marked(used, s), f, e);
        assert(marked(used, t) =~= marked(used, s).update(e, true)) by {
            assert forall|g: int| 0 <= g < used.len() implies marked(used, t)[g] == marked(
                used,
                s,
            ).update(e, true)[g] by {
                if t.contains(g) {
                    let i = choose|i: int| 0 <= i < t.len() && t[i] == g;
                    if i < s.len() {
                        assert(s[i] == g);
                    }
                }
                if s.contains(g) {
                    let i = choose|i: int| 0 <= i < s.len() && s[i] == g;
                    assert(t[i] == g);
                }
                assert(t[t.len() - 1] == e);
            }
        }
    }
}

/// The signed doubled areas of a list of polygons, added up.
pub open spec fn total_area(loops: Seq<Seq<Pt>>) -> int
    decreases loops.len(),
{
    if loops.len() == 0 {
        0
    } else {
        shoelace(loops[0]) + total_area(loops.drop_first())
    }
}

proof fn lemma_over_used(edges: Seq<Edge>, used: Seq<bool>, f: spec_fn(Edge) -> int)
    requires
        used.len() == edges.len(),
        forall|i: int| 0 <= i < used.len() ==> #[trigger] used[i],
    ensures
        over_unused(edges, used, f) == 0,
    decreases edges.len(),
{
    if edges.len() > 0 {
        lemma_over_used(edges.drop_last(), used.drop_last(), f);
    }
}

/// `p` and `q` are neighbouring corners of the lattice.
pub open spec fn one_apart(p: Pt, q: Pt) -> bool {
    ||| p.0 == q.0 && (p.1 - q.1 == 1 || q.1 - p.1 == 1)
    ||| p.1 == q.1 && (p.0 - q.0 == 1 || q.0 - p.0 == 1)
}

/// Every edge joins neighbouring corners.
pub open spec fn all_unit(edges: Seq<Edge>) -> bool {
    forall|e: int| 0 <= e < edges.len() ==> one_apart((#[trigger] edges[e]).0, edges[e].1)
}

proof fn lemma_edges_unit(
    inside: spec_fn(int, int) -> bool,
    min_x: int,
    max_x: int,
    min_y: int,
    x: int,
    y: int,
)
    requires
        0 <= min_x <= x <= max_x + 1,
        max_x < i32::MAX,
        0 <= min_y <= y <= i32::MAX,
        y == i32::MAX ==> x == min_x,
    ensures
        all_unit(edges_before(inside, min_x, max_x, min_y, x, y)),
    decreases y - min_y, x - min_x,
{
    if x > min_x {
        lemma_edges_unit(inside, min_x, max_x, min_y, x - 1, y);
        let a = edges_before(inside, min_x, max_x, min_y, x - 1, y);
        let b = cell_edges(inside, x - 1, y);
        assert forall|e: int| 0 <= e < b.len() implies one_apart((#[trigger] b[e]).0, b[e].1) by {}
        assert forall|e: int| 0 <= e < (a + b).len() implies one_apart(
            (#[trigger] (a + b)[e]).0,
            (a + b)[e].1,
        ) by {
            if e < a.len() {
                assert((a + b)[e] == a[e]);
            } else {
                assert((a + b)[e] == b[e - a.len()]);
            }
        }
    } else if y > min_y {
        lemma_edges_unit(inside, min_x, max_x, min_y, max_x + 1, y - 1);
    }
}

/// The sum of `m` along the points `i..=j`.
spec fn run(m: spec_fn(Pt, Pt) -> int, s: Seq<Pt>, i: int, j: int) -> int
    decreases j - i,
{
    if j <= i {
        0
    } else {
        run(m, s, i, j - 1) + m(s[j - 1], s[j])
    }
}

proof fn lemma_run_split(m: spec_fn(Pt, Pt) -> int, s: Seq<Pt>, i: int, j: int, k: int)
    requires
        i <= j <= k,
    ensures
        run(m, s, i, k) == run(m, s, i, j) + run(m, s, j, k),
    decreases k - j,
{
    if j < k {
        lemma_run_split(m, s, i, j, k - 1);
    }
}

/// The cross product of the vectors `ab` and `cd`.
pub open spec fn cross(a: Pt, b: Pt, c: Pt, d: Pt) -> int {
    (b.0 - a.0) * (d.1 - c.1) - (b.1 - a.1) * (d.0 - c.0)
}

/// Two unit steps without a bend between them go along one line.
proof fn lemma_no_bend(o: Pt, p: Pt, q: Pt, r: Pt)
    requires
        one_apart(p, q),
        one_apart(q, r),
        level(o, p, q),
        cross(p, q, q, r) == 0,
    ensures
        level(o, q, r),
{
    let (dx, dy) = (q.0 - p.0, q.1 - p.1);
    let (ex, ey) = (r.0 - q.0, r.1 - q.1);
    assert(dx == 0 ==> ex == 0) by (nonlinear_arith)
        requires
            dx * ey - dy * ex == 0,
            (dx == 0 && (dy == 1 || dy == -1)) || (dy == 0 && (dx == 1 || dx == -1)),
    ;
    assert(dy == 0 ==> ey == 0) by (nonlinear_arith)
        requires
            dx * ey - dy * ex == 0,
            (dx == 0 && (dy == 1 || dy == -1)) || (dy == 0 && (dx == 1 || dx == -1)),
    ;
}

/// A walk along a straight run adds up to what the segment between its ends does.
proof fn lemma_straight(m: spec_fn(Pt, Pt) -> int, s: Seq<Pt>, b: int, c: int)
    requires
        straight(m),
        0 <= b < c < s.len(),
        forall|i: int, j: int|
            b <= i < c && j == i + 1 ==> one_apart(#[trigger] s[i], #[trigger] s[j]),
        forall|i: int, h: int, j: int|
            b < i < c && h == i - 1 && j == i + 1 ==> #[trigger] cross(s[h], s[i], s[i], s[j]) == 0,
    ensures
        run(m, s, b, c) == m(s[b], s[c]),
        level(s[b], s[c - 1], s[c]),
    decreases c - b,
{
    assert(one_apart(s[c - 1], s[c]));
    if c == b + 1 {
        assert(run(m, s, b, b) == 0);
    } else {
        lemma_straight(m, s, b, c - 1);
        assert(one_apart(s[c - 2], s[c - 1]));
        assert(cross(s[c - 2], s[c - 1], s[c - 1], s[c]) == 0);
        lemma_no_bend(s[b], s[c - 2], s[c - 1], s[c]);
    }
}

/// The steps of a closed loop, the one back to the start among them, join neighbours.
pub open spec fn unit_loop(pts: Seq<Pt>) -> bool {
    forall|i: int, j: int|
        0 <= i < pts.len() && j == (if i == pts.len() - 1 {
            0
        } else {
            i + 1
        }) ==> one_apart(#[trigger] pts[i], #[trigger] pts[j])
}

/// Two turns of a closed loop.
pub open spec fn doubled(pts: Seq<Pt>) -> Seq<Pt> {
    pts + pts
}

pub(crate) proof fn lemma_doubled_steps(pts: Seq<Pt>)
    requires
        unit_loop(pts),
    ensures
        forall|i: int, j: int|
            0 <= i && j == i + 1 && j < 2 * pts.len() ==> one_apart(
                #[trigger] doubled(pts)[i],
                #[trigger] doubled(pts)[j],
            ),
{
    let n = pts.len() as int;
    let d = doubled(pts);
    assert forall|i: int, j: int| 0 <= i && j == i + 1 && j < 2 * n implies one_apart(
        #[trigger] d[i],
        #[trigger] d[j],
    ) by {
        let a = if i < n {
            i
        } else {
            i - n
        };
        let b = if j < n {
            j
        } else {
            j - n
        };
        assert(d[i] == pts[a] && d[j] == pts[b]);
        assert(one_apart(pts[a], pts[b]));
    }
}

pub(crate) proof fn lemma_doubled(pts: Seq<Pt>)
    requires
        pts.len() >= 3,
    ensures
        forall|i: int, h: int, j: int|
            0 <= h && h == i - 1 && j == i + 1 && j < 2 * pts.len() ==> #[trigger] cross(
                doubled(pts)[h],
                doubled(pts)[i],
                doubled(pts)[i],
                doubled(pts)[j],
            ) == bend(
                pts,
                if i < pts.len() {
                    i
                } else {
                    i - pts.len()
                },
            ),
{
    let n = pts.len() as int;
    let d = doubled(pts);
    assert forall|i: int, h: int, j: int|
        0 <= h && h == i - 1 && j == i + 1 && j < 2 * n implies #[trigger] cross(
        d[h],
        d[i],
        d[i],
        d[j],
    ) == bend(
        pts,
        if i < n {
            i
        } else {
            i - n
        },
    ) by {
        let a = if i < n {
            i
        } else {
            i - n
        };
        assert(d[i] == pts[a]);
        assert(d[h] == pts[if a == 0 {
            n - 1
        } else {
            a - 1
        }]);
        assert(d[j] == pts[if a == n - 1 {
            0
        } else {
            a + 1
        }]);
    }
}

/// No corner strictly between places `b` and `c` bends.
spec fn unbent(s: Seq<Pt>, b: int, c: int) -> bool {
    forall|i: int, h: int, j: int|
        b < i < c && h == i - 1 && j == i + 1 ==> #[trigger] cross(s[h], s[i], s[i], s[j]) == 0
}

/// Along every stretch without a bend `m` adds up to what it makes of the stretch's ends.
spec fn bridges(m: spec_fn(Pt, Pt) -> int, s: Seq<Pt>) -> bool {
    forall|b: int, c: int|
        0 <= b < c < s.len() && #[trigger] unbent(s, b, c) ==> run(m, s, b, c) == m(s[b], s[c])
}

/// Measures that add up along the lines of the lattice bridge the loops on it.
proof fn lemma_lattice_bridges(m: spec_fn(Pt, Pt) -> int, pts: Seq<Pt>)
    requires
        straight(m),
        unit_loop(pts),
    ensures
        bridges(m, doubled(pts)),
{
    let d = doubled(pts);
    lemma_doubled_steps(pts);
    assert forall|b: int, c: int| 0 <= b < c < d.len() && #[trigger] unbent(
        d,
        b,
        c,
    ) implies run(m, d, b, c) == m(d[b], d[c]) by {
        lemma_straight(m, d, b, c);
    }
}

/// Consecutive points of a closed loop, the last and the first among them, are distinct.
pub open spec fn moving(pts: Seq<Pt>) -> bool {
    forall|i: int, j: int|
        0 <= i < pts.len() && j == (if i == pts.len() - 1 {
            0
        } else {
            i + 1
        }) ==> #[trigger] pts[i] != #[trigger] pts[j]
}

proof fn lemma_cross_sweep(a: Pt, b: Pt, c: Pt)
    ensures
        sweep(a, b) + sweep(b, c) - sweep(a, c) == cross(a, b, b, c),
{
    let (p, q, r, s, u, v) = (
        a.0 as int,
        a.1 as int,
        b.0 as int,
        b.1 as int,
        c.0 as int,
        c.1 as int,
    );
    assert((p * s - r * q) + (r * v - u * s) - (p * v - u * q) == (r - p) * (v - s) - (s - q) * (u
        - r)) by (nonlinear_arith);
}

/// What is in line with a step is in line with the next one, if that does not bend.
proof fn lemma_in_line(ux: int, uy: int, dx: int, dy: int, ex: int, ey: int)
    requires
        ux * dy - uy * dx == 0,
        dx * ey - dy * ex == 0,
        dx != 0 || dy != 0,
    ensures
        ux * ey - uy * ex == 0,
        (ux + ex) * ey - (uy + ey) * ex == 0,
{
    let k = ux * ey - uy * ex;
    assert(dx * k == 0 && dy * k == 0) by (nonlinear_arith)
        requires
            k == ux * ey - uy * ex,
            ux * dy - uy * dx == 0,
            dx * ey - dy * ex == 0,
    {
        assert(dx * k == ux * (dx * ey) - (uy * dx) * ex);
        assert(ux * (dx * ey) == ux * (dy * ex));
        assert(ux * (dy * ex) == (ux * dy) * ex);
        assert(dy * k == (ux * dy) * ey - uy * (dy * ex));
        assert((ux * dy) * ey == (uy * dx) * ey);
        assert((uy * dx) * ey == uy * (dx * ey));
    }
    assert(k == 0) by (nonlinear_arith)
        requires
            dx * k == 0,
            dy * k == 0,
            dx != 0 || dy != 0,
    ;
    assert((ux + ex) * ey - (uy + ey) * ex == ux * ey - uy * ex) by (nonlinear_arith);
}

/// A walk along a stretch without a bend sweeps what the segment between its ends does.
proof fn lemma_sweep_straight(s: Seq<Pt>, b: int, c: int)
    requires
        0 <= b < c < s.len(),
        forall|i: int, j: int| b <= i < c && j == i + 1 ==> #[trigger] s[i] != #[trigger] s[j],
        unbent(s, b, c),
    ensures
        run(sweeps(), s, b, c) == sweep(s[b], s[c]),
        cross(s[b], s[c], s[c - 1], s[c]) == 0,
    decreases c - b,
{
    if c == b + 1 {
        assert(run(sweeps(), s, b, b) == 0);
        let (x, y) = (s[c].0 - s[b].0, s[c].1 - s[b].1);
        assert(x * y - y * x == 0) by (nonlinear_arith);
    } else {
        assert forall|i: int, h: int, j: int|
            b < i < c - 1 && h == i - 1 && j == i + 1 implies #[trigger] cross(
            s[h],
            s[i],
            s[i],
            s[j],
        ) == 0 by {}
        lemma_sweep_straight(s, b, c - 1);
        let (o, p, q, r) = (s[b], s[c - 2], s[c - 1], s[c]);
        assert(s[c - 2] != s[c - 1]);
        assert(cross(s[c - 2], s[c - 1], s[c - 1], s[c]) == 0);
        lemma_in_line(
            q.0 - o.0,
            q.1 - o.1,
            q.0 - p.0,
            q.1 - p.1,
            r.0 - q.0,
            r.1 - q.1,
        );
        assert((q.0 - o.0) + (r.0 - q.0) == r.0 - o.0);
        assert((q.1 - o.1) + (r.1 - q.1) == r.1 - o.1);
        lemma_cross_sweep(o, q, r);
    }
}

/// The swept area bridges every loop that keeps moving.
proof fn lemma_sweep_bridges(pts: Seq<Pt>)
    requires
        moving(pts),
    ensures
        bridges(sweeps(), doubled(pts)),
{
    let n = pts.len() as int;
    let d = doubled(pts);
    assert forall|i: int, j: int| 0 <= i && j == i + 1 && j < 2 * n implies #[trigger] d[i]
        != #[trigger] d[j] by {
        let a = if i < n {
            i
        } else {
            i - n
        };
        let b = if j < n {
            j
        } else {
            j - n
        };
        assert(d[i] == pts[a] && d[j] == pts[b]);
        assert(pts[a] != pts[b]);
    }
    assert forall|b: int, c: int| 0 <= b < c < d.len() && #[trigger] unbent(
        d,
        b,
        c,
    ) implies run(sweeps(), d, b, c) == sweeps()(d[b], d[c]) by {
        lemma_sweep_straight(d, b, c);
    }
}

/// Where the corners kept among the first `k` begin and end, and what they add up to.
proof fn lemma_kept(m: spec_fn(Pt, Pt) -> int, pts: Seq<Pt>, k: int) -> (r: (int, int))
    requires
        bridges(m, doubled(pts)),
        pts.len() >= 3,
        0 <= k <= pts.len(),
    ensures
        ({
            let kept = bends_upto(pts, k);
            let (a, b) = r;
            if kept.len() == 0 {
                forall|i: int| 0 <= i < k ==> #[trigger] bend(pts, i) == 0
            } else {
                &&& 0 <= a <= b < k
                &&& kept[0] == pts[a]
                &&& kept.last() == pts[b]
                &&& forall|i: int| 0 <= i < a ==> #[trigger] bend(pts, i) == 0
                &&& forall|i: int| b < i < k ==> #[trigger] bend(pts, i) == 0
                &&& run(m, kept, 0, kept.len() - 1) == run(m, doubled(pts), a, b)
            }
        }),
    decreases k,
{
    if k == 0 {
        (0, 0)
    } else {
        let (a, b) = lemma_kept(m, pts, k - 1);
        let before = bends_upto(pts, k - 1);
        let kept = bends_upto(pts, k);
        if bend(pts, k - 1) == 0 {
            (a, b)
        } else if before.len() == 0 {
            assert(kept =~= seq![pts[k - 1]]);
            (k - 1, k - 1)
        } else {
            let d = doubled(pts);
            let n = pts.len() as int;
            lemma_doubled(pts);
            assert forall|i: int, h: int, j: int|
                b < i < k - 1 && h == i - 1 && j == i + 1 implies #[trigger] cross(
                d[h],
                d[i],
                d[i],
                d[j],
            ) == 0 by {
                assert(bend(pts, i) == 0);
            }
            assert(unbent(d, b, k - 1));
            lemma_run_split(m, d, a, b, k - 1);
            assert(kept == before.push(pts[k - 1]));
            lemma_run_same(m, before, kept, 0, before.len() - 1);
            assert(d[b] == pts[b] && d[k - 1] == pts[k - 1]);
            assert(kept[before.len() - 1] == pts[b]);
            (a, k - 1)
        }
    }
}

proof fn lemma_run_same(m: spec_fn(Pt, Pt) -> int, s: Seq<Pt>, t: Seq<Pt>, i: int, j: int)
    requires
        0 <= i,
        j < s.len() <= t.len(),
        forall|k: int| 0 <= k < s.len() ==> #[trigger] t[k] == s[k],
    ensures
        run(m, s, i, j) == run(m, t, i, j),
    decreases j - i,
{
    if i < j {
        lemma_run_same(m, s, t, i, j - 1);
        assert(t[j - 1] == s[j - 1]);
        assert(t[j] == s[j]);
    }
}

proof fn lemma_sides_run(m: spec_fn(Pt, Pt) -> int, pts: Seq<Pt>, k: int)
    requires
        0 <= k < pts.len(),
    ensures
        sides_upto(m, pts, k) == run(m, pts, 0, k),
    decreases k,
{
    if k > 0 {
        lemma_sides_run(m, pts, k - 1);
    }
}

/// The sum over the sides of a closed polygon as one walk round it.
proof fn lemma_sides_closed(m: spec_fn(Pt, Pt) -> int, pts: Seq<Pt>)
    requires
        pts.len() > 0,
    ensures
        sides_upto(m, pts, pts.len() as int) == run(m, pts, 0, pts.len() - 1) + m(
            pts.last(),
            pts[0],
        ),
        sides_upto(m, pts, pts.len() as int) == run(m, doubled(pts), 0, pts.len() as int),
{
    let n = pts.len() as int;
    lemma_sides_run(m, pts, n - 1);
    lemma_run_same(m, pts, doubled(pts), 0, n - 1);
    assert(doubled(pts)[n] == pts[0]);
    assert(doubled(pts)[n - 1] == pts[n - 1]);
}

proof fn lemma_run_periodic(m: spec_fn(Pt, Pt) -> int, pts: Seq<Pt>, a: int)
    requires
        0 <= a < pts.len(),
    ensures
        run(m, doubled(pts), pts.len() as int, pts.len() + a) == run(m, doubled(pts), 0, a),
    decreases a,
{
    let n = pts.len() as int;
    if a > 0 {
        lemma_run_periodic(m, pts, a - 1);
        assert(doubled(pts)[n + a] == doubled(pts)[a]);
        assert(doubled(pts)[n + a - 1] == doubled(pts)[a - 1]);
    }
}

/// Dropping the corners of straight runs leaves the sum over the sides of a lattice loop
/// unchanged.
proof fn lemma_collapse_sides(m: spec_fn(Pt, Pt) -> int, pts: Seq<Pt>)
    requires
        bridges(m, doubled(pts)),
        forall|p: Pt| #[trigger] m(p, p) == 0,
    ensures
        sides_upto(m, collapsed(pts), collapsed(pts).len() as int) == sides_upto(
            m,
            pts,
            pts.len() as int,
        ),
{
    if pts.len() >= 3 {
        let n = pts.len() as int;
        let d = doubled(pts);
        let kept = bends_upto(pts, n);
        let (a, b) = lemma_kept(m, pts, n);
        lemma_doubled(pts);
        lemma_sides_closed(m, pts);
        if kept.len() == 0 {
            assert forall|i: int, h: int, j: int|
                0 < i < n && h == i - 1 && j == i + 1 implies #[trigger] cross(
                d[h],
                d[i],
                d[i],
                d[j],
            ) == 0 by {
                assert(bend(pts, i) == 0);
            }
            assert(unbent(d, 0, n));
            assert(d[n] == d[0]);
            assert(m(d[0], d[0]) == 0);
        } else {
            assert forall|i: int, h: int, j: int|
                b < i < n + a && h == i - 1 && j == i + 1 implies #[trigger] cross(
                d[h],
                d[i],
                d[i],
                d[j],
            ) == 0 by {
                if i < n {
                    assert(bend(pts, i) == 0);
                } else {
                    assert(bend(pts, i - n) == 0);
                }
            }
            assert(unbent(d, b, n + a));
            assert(d[b] == pts[b] && d[n + a] == pts[a]);
            lemma_sides_closed(m, kept);
            lemma_run_split(m, d, a, b, n + a);
            lemma_run_split(m, d, 0, a, n + a);
            lemma_run_split(m, d, 0, n, n + a);
            lemma_run_periodic(m, pts, a);
        }
    }
}

/// The sides of a closed trail add up to what its edges do.
proof fn lemma_trail_sides(m: spec_fn(Pt, Pt) -> int, edges: Seq<Edge>, t: Seq<int>)
    requires
        straight(m),
        in_range(edges, t),
        chained(edges, t),
        closes(edges, t),
        all_unit(edges),
    ensures
        sides_upto(m, outline(edges, t), outline(edges, t).len() as int) == over_trail(
            edges,
            t,
            of_edge(m),
        ),
{
    let pts = corners(edges, t);
    let n = t.len() as int;
    lemma_trail_run(m, edges, t, n - 1);
    lemma_sides_closed(m, pts);
    let e = t.last();
    assert(t[n - 1] == e);
    assert(pts.last() == edges[e].0);
    assert(t.take(n) =~= t);
    assert(t.take(n - 1) =~= t.drop_last());
    assert forall|i: int, j: int|
        0 <= i < n && j == (if i == n - 1 {
            0
        } else {
            i + 1
        }) implies one_apart(#[trigger] pts[i], #[trigger] pts[j]) by {
        assert(pts[i] == edges[t[i]].0 && pts[j] == edges[t[j]].0);
        assert(one_apart(edges[t[i]].0, edges[t[i]].1));
    }
    lemma_lattice_bridges(m, pts);
    assert forall|p: Pt| #[trigger] m(p, p) == 0 by {
        assert(level(p, p, p));
    }
    lemma_collapse_sides(m, pts);
}

proof fn lemma_trail_run(m: spec_fn(Pt, Pt) -> int, edges: Seq<Edge>, t: Seq<int>, k: int)
    requires
        in_range(edges, t),
        chained(edges, t),
        0 <= k < t.len(),
    ensures
        run(m, corners(edges, t), 0, k) == over_trail(edges, t.take(k), of_edge(m)),
    decreases k,
{
    if k == 0 {
        assert(t.take(0).len() == 0);
    } else {
        lemma_trail_run(m, edges, t, k - 1);
        assert(t.take(k).drop_last() =~= t.take(k - 1));
        assert(t.take(k).last() == t[k - 1]);
        assert(edges[t[k - 1]].1 == edges[t[k]].0);
        assert(corners(edges, t)[k] == edges[t[k]].0);
        assert(corners(edges, t)[k - 1] == edges[t[k - 1]].0);
    }
}

proof fn lemma_trails_sides(
    m: spec_fn(Pt, Pt) -> int,
    edges: Seq<Edge>,
    used: Seq<bool>,
    e: int,
)
    requires
        straight(m),
        used.len() == edges.len(),
        0 <= e <= edges.len(),
        balanced(edges, used),
        all_unit(edges),
        forall|i: int| 0 <= i < e ==> #[trigger] used[i],
    ensures
        over_sides(m, trails(edges, used, e).map_values(|t: Seq<int>| outline(edges, t)))
            == over_unused(edges, used, of_edge(m)),
    decreases edges.len() - e,
{
    let f = of_edge(m);
    let shape = |t: Seq<int>| outline(edges, t);
    if e == edges.len() {
        lemma_over_used(edges, used, f);
    } else if used[e] {
        lemma_trails_sides(m, edges, used, e + 1);
    } else {
        let home = edges[e].0;
        let t = trail(edges, used, home, e);
        lemma_trail(edges, used, home, e);
        assert forall|v: Pt| #[trigger]
            over_unused(edges, used, flow(v)) == unit_at(home, v) - unit_at(home, v) by {}
        lemma_trail_closes(edges, used, home, e);
        lemma_over_marked(edges, used, t, f);
        assert(t.contains(e)) by {
            assert(t[0] == e);
        }
        lemma_trails_sides(m, edges, marked(used, t), e + 1);
        lemma_trail_sides(m, edges, t);
        let rest = trails(edges, marked(used, t), e + 1);
        let loops = (seq![t] + rest).map_values(shape);
        assert(trails(edges, used, e) == seq![t] + rest);
        assert(loops[0] == outline(edges, t));
        assert(loops.drop_first() =~= rest.map_values(shape));
    }
}

/// The sides of the contours of a region add up to what its cells count.
proof fn lemma_outlines_sides(
    m: spec_fn(Pt, Pt) -> int,
    g: spec_fn(int, int) -> int,
    inside: spec_fn(int, int) -> bool,
    bbox: (usize, usize, usize, usize),
)
    requires
        straight(m),
        additive(of_edge(m), g),
        covers(bbox, inside),
        on_grid(bbox),
    ensures
        over_sides(m, outlines(boundary(inside, bbox))) == weight_before(
            inside,
            g,
            bbox,
            bbox.0 as int,
            bbox.3 + 1,
        ),
{
    let edges = boundary(inside, bbox);
    lemma_boundary_balanced(inside, bbox);
    lemma_edges_unit(
        inside,
        bbox.0 as int,
        bbox.2 as int,
        bbox.1 as int,
        bbox.0 as int,
        bbox.3 + 1,
    );
    lemma_trails_sides(m, edges, fresh(edges.len()), 0);
    lemma_over_fresh(edges, of_edge(m));
    lemma_boundary_total(inside, of_edge(m), g, bbox);
}

proof fn lemma_count_skip(labels: Seq<u32>, label: u32, a: int, b: int)
    requires
        0 <= a <= b <= labels.len(),
        forall|i: int| a <= i < b ==> #[trigger] labels[i] != label,
    ensures
        count_of(labels.take(b), label) == count_of(labels.take(a), label),
    decreases b - a,
{
    if a < b {
        lemma_count_skip(labels, label, a, b - 1);
        assert(labels.take(b).drop_last() =~= labels.take(b - 1));
        assert(labels.take(b).last() == labels[b - 1]);
    }
}

/// A pixel that lies outside the box in raster order does not carry the label.
proof fn lemma_outside(
    labels: Seq<u32>,
    w: int,
    h: int,
    label: u32,
    bbox: (usize, usize, usize, usize),
    i: int,
)
    requires
        w > 0,
        labels.len() == w * h,
        covers(bbox, region_of(labels, w, h, label)),
        0 <= i < labels.len(),
        !(bbox.0 <= i % w <= bbox.2 && bbox.1 <= i / w <= bbox.3),
    ensures
        labels[i] != label,
{
    lemma_coords(w, h, i);
    let (x, y) = (i % w, i / w);
    if labels[i] == label {
        assert(region_of(labels, w, h, label)(x, y));
    }
}

#[verifier::spinoff_prover]
proof fn lemma_cells_counted(
    labels: Seq<u32>,
    w: int,
    h: int,
    label: u32,
    bbox: (usize, usize, usize, usize),
    x: int,
    y: int,
)
    requires
        w > 0,
        labels.len() == w * h,
        covers(bbox, region_of(labels, w, h, label)),
        bbox.0 <= bbox.2 < w,
        bbox.1 <= bbox.3 < h,
        bbox.0 <= x <= bbox.2 + 1,
        bbox.1 <= y <= bbox.3,
    ensures
        0 <= y * w + x <= labels.len(),
        cells_before(
            region_of(labels, w, h, label),
            bbox.0 as int,
            bbox.2 as int,
            bbox.1 as int,
            x,
            y,
        ) == count_of(labels.take(y * w + x), label),
    decreases y - bbox.1, x - bbox.0,
{
    let inside = region_of(labels, w, h, label);
    let (a, b, p) = (bbox.0 as int, bbox.2 as int, bbox.1 as int);
    assert(0 <= y * w && y * w + x <= w * h) by (nonlinear_arith)
        requires
            0 <= x <= w,
            0 <= y < h,
    ;
    let i = y * w + x;
    if x > a {
        lemma_cells_counted(labels, w, h, label, bbox, x - 1, y);
        assert(labels.take(i).drop_last() =~= labels.take(i - 1));
        assert(labels.take(i).last() == labels[i - 1]);
        assert(y * w + (x - 1) == i - 1);
        assert(inside(x - 1, y) == (labels[i - 1] == label));
    } else if y > p {
        lemma_cells_counted(labels, w, h, label, bbox, b + 1, y - 1);
        let i0 = (y - 1) * w + (b + 1);
        assert(i0 == y * w - w + b + 1) by (nonlinear_arith)
            requires
                i0 == (y - 1) * w + (b + 1),
        ;
        assert forall|j: int| i0 <= j < i implies #[trigger] labels[j] != label by {
            if j < y * w {
                vstd::arithmetic::div_mod::lemma_fundamental_div_mod_converse(
                    j,
                    w,
                    y - 1,
                    j - (y - 1) * w,
                );
            } else {
                vstd::arithmetic::div_mod::lemma_fundamental_div_mod_converse(j, w, y, j - y * w);
            }
            lemma_outside(labels, w, h, label, bbox, j);
        }
        lemma_count_skip(labels, label, i0, i);
    } else {
        assert forall|j: int| 0 <= j < i implies #[trigger] labels[j] != label by {
            lemma_coords(w, h, j);
            if j / w == y {
                assert(j % w < a);
            } else {
                assert(j / w < y) by (nonlinear_arith)
                    requires
                        j == (j / w) * w + j % w,
                        j < y * w + x,
                        0 <= j % w,
                        x < w,
                        w > 0,
                        j / w != y,
                ;
            }
            lemma_outside(labels, w, h, label, bbox, j);
        }
        lemma_count_skip(labels, label, 0, i);
        assert(labels.take(0).len() == 0);
    }
}

/// The region has as many cells as pixels carry its label.
proof fn lemma_region_count(
    labels: Seq<u32>,
    w: int,
    h: int,
    label: u32,
    bbox: (usize, usize, usize, usize),
)
    requires
        w >= 0,
        h >= 0,
        labels.len() == w * h,
        covers(bbox, region_of(labels, w, h, label)),
        bbox.0 <= bbox.2 < w,
        bbox.1 <= bbox.3 < h,
    ensures
        cells_before(
            region_of(labels, w, h, label),
            bbox.0 as int,
            bbox.2 as int,
            bbox.1 as int,
            bbox.0 as int,
            bbox.3 + 1,
        ) == count_of(labels, label),
{
    let (b, y) = (bbox.2 as int, bbox.3 as int);
    lemma_cells_counted(labels, w, h, label, bbox, b + 1, y);
    let i = y * w + b + 1;
    assert forall|j: int| i <= j < labels.len() implies #[trigger] labels[j] != label by {
        lemma_coords(w, h, j);
        if j / w == y {
            assert(j % w > b);
        } else {
            assert(j / w > y) by (nonlinear_arith)
                requires
                    j == (j / w) * w + j % w,
                    j >= y * w + b + 1,
                    j % w < w,
                    w > 0,
                    b >= 0,
                    j / w != y,
            ;
        }
        lemma_outside(labels, w, h, label, bbox, j);
    }
    lemma_count_skip(labels, label, i, labels.len() as int);
    assert(labels.take(labels.len() as int) =~= labels);
}

/// The loops enclose the region: their signed areas, outer loops counted one way and holes the
/// other, add up to the number of pixels of the label.
pub proof fn law_contours_enclose_the_region(
    labels: Seq<u32>,
    w: int,
    h: int,
    label: u32,
    bbox: (usize, usize, usize, usize),
)
    requires
        w >= 0,
        h >= 0,
        labels.len() == w * h,
        covers(bbox, region_of(labels, w, h, label)),
        box_fits(w, h, bbox),
    ensures
        total_area(outlines(boundary(region_of(labels, w, h, label), bbox))) == 2 * count_of(
            labels,
            label,
        ),
{
    let inside = region_of(labels, w, h, label);
    let edges = boundary(inside, bbox);
    if bbox.0 <= bbox.2 && bbox.1 <= bbox.3 {
        lemma_sweep_additive();
        lemma_outlines_sides(sweeps(), |x: int, y: int| 2, inside, bbox);
        lemma_weight_constant(inside, 2, bbox, bbox.0 as int, bbox.3 + 1);
        lemma_total_area_sides(outlines(edges));
        lemma_region_count(labels, w, h, label, bbox);
    } else {
        lemma_empty_box(inside, bbox);
        assert forall|i: int| 0 <= i < labels.len() implies #[trigger] labels[i] != label by {
            assert(w > 0) by (nonlinear_arith)
                requires
                    w >= 0,
                    h >= 0,
                    w * h > 0,
            ;
            lemma_outside(labels, w, h, label, bbox, i);
        }
        lemma_count_zero(labels, label);
        assert(outlines(edges).len() == 0);
    }
}

/// Sums over lists of polygons add up.
pub proof fn lemma_over_sides_push(
    m: spec_fn(Pt, Pt) -> int,
    loops: Seq<Seq<Pt>>,
    added: Seq<Pt>,
)
    ensures
        over_sides(m, loops.push(added)) == over_sides(m, loops) + sides_upto(
            m,
            added,
            added.len() as int,
        ),
    decreases loops.len(),
{
    if loops.len() == 0 {
        assert(loops.push(added).drop_first() =~= Seq::<Seq<Pt>>::empty());
        assert(over_sides(m, Seq::<Seq<Pt>>::empty()) == 0);
    } else {
        assert(loops.push(added).drop_first() =~= loops.drop_first().push(added));
        lemma_over_sides_push(m, loops.drop_first(), added);
    }
}

/// A polygon of fewer than three corners winds round nothing.
pub proof fn lemma_degenerate_winding(pts: Seq<Pt>, x: int, y: int)
    requires
        pts.len() < 3,
    ensures
        sides_upto(crossing(x, y), pts, pts.len() as int) == 0,
{
    reveal_with_fuel(sides_upto, 3);
}

/// The loops are what the nonzero fill rule needs: they wind round every cell of the region
/// once, and round no other cell, so that filling them paints the region and leaves its holes.
pub proof fn law_contours_wind_round_the_region(
    inside: spec_fn(int, int) -> bool,
    bbox: (usize, usize, usize, usize),
    x: int,
    y: int,
)
    requires
        covers(bbox, inside),
        bbox.2 < i32::MAX,
        bbox.3 < i32::MAX,
    ensures
        winding(outlines(boundary(inside, bbox)), x, y) == if inside(x, y) {
            1int
        } else {
            0
        },
{
    if bbox.0 <= bbox.2 && bbox.1 <= bbox.3 {
        lemma_crossing_additive(x, y);
        lemma_outlines_sides(crossing(x, y), only(x, y), inside, bbox);
        lemma_weight_only(inside, bbox, x, y, bbox.0 as int, bbox.3 + 1);
    } else {
        lemma_empty_box(inside, bbox);
        assert(outlines(boundary(inside, bbox)).len() == 0);
    }
}

/// What every trail along the boundary of a region is.
pub(crate) proof fn lemma_traced(
    inside: spec_fn(int, int) -> bool,
    bbox: (usize, usize, usize, usize),
    k: int,
)
    requires
        covers(bbox, inside),
        on_grid(bbox),
        0 <= k < all_trails(boundary(inside, bbox)).len(),
    ensures
        ({
            let edges = boundary(inside, bbox);
            let t = all_trails(edges)[k];
            &&& all_unit(edges)
            &&& t.len() > 0
            &&& in_range(edges, t)
            &&& chained(edges, t)
            &&& closes(edges, t)
        }),
{
    let edges = boundary(inside, bbox);
    lemma_edges_unit(
        inside,
        bbox.0 as int,
        bbox.2 as int,
        bbox.1 as int,
        bbox.0 as int,
        bbox.3 + 1,
    );
    lemma_boundary_balanced(inside, bbox);
    lemma_trails_close(edges, fresh(edges.len()), 0, k);
}

/// A contour winds round a cell, and sweeps an area, as the edges of its trail do.
pub(crate) proof fn lemma_traced_sides(
    inside: spec_fn(int, int) -> bool,
    bbox: (usize, usize, usize, usize),
    k: int,
)
    requires
        covers(bbox, inside),
        on_grid(bbox),
        0 <= k < all_trails(boundary(inside, bbox)).len(),
    ensures
        ({
            let edges = boundary(inside, bbox);
            let t = all_trails(edges)[k];
            let pts = outlines(edges)[k];
            &&& shoelace(pts) == over_trail(edges, t, of_edge(sweeps()))
            &&& forall|x: int, y: int|
                #![trigger crossing(x, y)]
                sides_upto(crossing(x, y), pts, pts.len() as int) == over_trail(
                    edges,
                    t,
                    of_edge(crossing(x, y)),
                )
        }),
{
    let edges = boundary(inside, bbox);
    let t = all_trails(edges)[k];
    let pts = outlines(edges)[k];
    lemma_traced(inside, bbox, k);
    lemma_sweep_additive();
    lemma_trail_sides(sweeps(), edges, t);
    lemma_shoelace_sides(pts, pts.len() as int);
    assert forall|x: int, y: int|
        #![trigger crossing(x, y)]
        sides_upto(crossing(x, y), pts, pts.len() as int) == over_trail(
            edges,
            t,
            of_edge(crossing(x, y)),
        ) by {
        lemma_crossing_additive(x, y);
        lemma_trail_sides(crossing(x, y), edges, t);
    }
}

/// Collapsing straight runs keeps the signed area of every closed loop that keeps moving.
pub proof fn law_collapsing_keeps_the_area(pts: Seq<Pt>)
    requires
        moving(pts),
    ensures
        shoelace(collapsed(pts)) == shoelace(pts),
{
    let c = collapsed(pts);
    lemma_sweep_bridges(pts);
    lemma_sweep_self();
    lemma_shoelace_sides(pts, pts.len() as int);
    lemma_shoelace_sides(c, c.len() as int);
    lemma_collapse_sides(sweeps(), pts);
}

proof fn lemma_sweep_self()
    ensures
        forall|p: Pt| #[trigger] sweeps()(p, p) == 0,
{
    assert forall|p: Pt| #[trigger] sweeps()(p, p) == 0 by {
        let (x, y) = (p.0 as int, p.1 as int);
        assert(x * y - x * y == 0) by (nonlinear_arith);
    }
}

/// Walked backwards, everything counts the other way.
proof fn lemma_run_reversed(pts: Seq<Pt>, i: int, j: int)
    requires
        0 <= i <= j < pts.len(),
    ensures
        run(sweeps(), pts.reverse(), i, j) == -run(
            sweeps(),
            pts,
            pts.len() - 1 - j,
            pts.len() - 1 - i,
        ),
    decreases j - i,
{
    if i < j {
        let n = pts.len() as int;
        let r = pts.reverse();
        lemma_run_reversed(pts, i, j - 1);
        lemma_run_split(sweeps(), pts, n - 1 - j, n - j, n - 1 - i);
        assert(run(sweeps(), pts, n - 1 - j, n - 1 - j) == 0);
        assert(run(sweeps(), pts, n - 1 - j, n - j) == sweep(pts[n - 1 - j], pts[n - j]));
        assert(r[j] == pts[n - 1 - j] && r[j - 1] == pts[n - j]);
    }
}

/// Equal stretches add up alike.
proof fn lemma_run_shifted(m: spec_fn(Pt, Pt) -> int, s: Seq<Pt>, t: Seq<Pt>, k: int, j: int)
    requires
        0 <= j,
        forall|i: int| 0 <= i <= j ==> #[trigger] s[i] == t[k + i],
    ensures
        run(m, s, 0, j) == run(m, t, k, k + j),
    decreases j,
{
    if j > 0 {
        lemma_run_shifted(m, s, t, k, j - 1);
        assert(s[j] == t[k + j] && s[j - 1] == t[k + (j - 1)]);
    }
}

/// `b` is `a` moved by `(dx, dy)`.
pub open spec fn moved(a: Seq<Pt>, b: Seq<Pt>, dx: int, dy: int) -> bool {
    &&& a.len() == b.len()
    &&& forall|i: int|
        0 <= i < a.len() ==> (#[trigger] b[i]).0 == a[i].0 + dx && b[i].1 == a[i].1 + dy
}

proof fn lemma_run_moved(a: Seq<Pt>, b: Seq<Pt>, dx: int, dy: int, k: int)
    requires
        moved(a, b, dx, dy),
        0 <= k < a.len(),
    ensures
        run(sweeps(), b, 0, k) == run(sweeps(), a, 0, k) + dy * (a[0].0 - a[k].0) + dx * (a[k].1
            - a[0].1),
    decreases k,
{
    if k > 0 {
        lemma_run_moved(a, b, dx, dy, k - 1);
        lemma_sweep_moved(a[k - 1], a[k], b[k - 1], b[k], dx, dy);
        let (o, p, q) = (a[0], a[k - 1], a[k]);
        assert(dy * (o.0 - p.0) + dy * (p.0 - q.0) == dy * (o.0 - q.0)) by (nonlinear_arith);
        assert(dx * (p.1 - o.1) + dx * (q.1 - p.1) == dx * (q.1 - o.1)) by (nonlinear_arith);
    } else {
        assert(dy * (a[0].0 - a[0].0) == 0 && dx * (a[0].1 - a[0].1) == 0) by (nonlinear_arith);
    }
}

proof fn lemma_sweep_moved(p: Pt, q: Pt, r: Pt, s: Pt, dx: int, dy: int)
    requires
        r.0 == p.0 + dx,
        r.1 == p.1 + dy,
        s.0 == q.0 + dx,
        s.1 == q.1 + dy,
    ensures
        sweep(r, s) == sweep(p, q) + dy * (p.0 - q.0) + dx * (q.1 - p.1),
{
    let (a, b, c, d) = (p.0 as int, p.1 as int, q.0 as int, q.1 as int);
    assert((a + dx) * (d + dy) - (c + dx) * (b + dy) == a * d - c * b + dy * (a - c) + dx * (d - b))
        by (nonlinear_arith);
}

/// The signed area of a polygon changes its sign when the polygon is walked backwards, and stays
/// the same wherever the walk begins.
pub proof fn law_area_goes_by_the_winding(pts: Seq<Pt>, k: int)
    requires
        0 <= k <= pts.len(),
    ensures
        shoelace(pts.reverse()) == -shoelace(pts),
        shoelace(pts.skip(k) + pts.take(k)) == shoelace(pts),
        pts.len() < 3 ==> shoelace(pts) == 0,
{
    let n = pts.len() as int;
    let m = sweeps();
    let r = pts.reverse();
    let t = pts.skip(k) + pts.take(k);
    lemma_shoelace_sides(pts, n);
    lemma_shoelace_sides(r, n);
    lemma_shoelace_sides(t, n);
    if n == 0 {
        assert(sides_upto(m, pts, 0) == 0);
    } else {
        lemma_sides_closed(m, pts);
        lemma_sides_closed(m, r);
        lemma_run_reversed(pts, 0, n - 1);
        assert(r[n - 1] == pts[0] && r[0] == pts[n - 1]);
        lemma_sides_closed(m, t);
        let j = if k == n {
            0
        } else {
            k
        };
        let d = doubled(pts);
        assert forall|i: int| 0 <= i <= n implies #[trigger] doubled(t)[i] == d[j + i] by {
            let at = if i < n {
                i
            } else {
                0
            };
            assert(doubled(t)[i] == t[at]);
        }
        lemma_run_shifted(m, doubled(t), d, j, n);
        lemma_run_split(m, d, 0, j, j + n);
        lemma_run_split(m, d, 0, n, j + n);
        lemma_run_periodic(m, pts, j);
        if n == 1 {
            lemma_sweep_self();
            assert(run(m, pts, 0, 0) == 0);
            assert(m(pts[0], pts[0]) == 0);
        } else if n == 2 {
            assert(run(m, pts, 0, 0) == 0);
            assert(run(m, pts, 0, 1) == sweep(pts[0], pts[1]));
        }
    }
}

/// The signed area of a polygon does not depend on where the polygon lies.
pub proof fn law_area_stays_under_shifts(a: Seq<Pt>, b: Seq<Pt>, dx: int, dy: int)
    requires
        moved(a, b, dx, dy),
    ensures
        shoelace(b) == shoelace(a),
{
    let n = a.len() as int;
    let m = sweeps();
    lemma_shoelace_sides(a, n);
    lemma_shoelace_sides(b, n);
    if n > 0 {
        lemma_sides_closed(m, a);
        lemma_sides_closed(m, b);
        lemma_run_moved(a, b, dx, dy, n - 1);
        lemma_sweep_moved(a[n - 1], a[0], b[n - 1], b[0], dx, dy);
        let (p, q) = (a[n - 1], a[0]);
        assert(dy * (q.0 - p.0) + dy * (p.0 - q.0) == 0) by (nonlinear_arith);
        assert(dx * (p.1 - q.1) + dx * (q.1 - p.1) == 0) by (nonlinear_arith);
    }
}

} // verus!
