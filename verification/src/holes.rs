//! One contour per hole: of a connected region the loops other than the outer one and the holes
//! correspond to each other, each loop going round all cells of one hole.
//!
//! A hole is a part of the outside from which no way leads out of the region's box, where a way
//! may also pass between two cells of the region that touch at a corner only.

use vstd::prelude::*;

use crate::contour::{
    all_trails, boundary, box_fits, cell_edges, continues, edges_before, fresh, is_next, left,
    lower, marked, optional, outlines, region_of, right, shoelace, trail, trails, turn, upper, Edge, Pt,
};
use crate::grid::{lemma_coords, lemma_first_place};
use crate::loops::{
    closes, covers, crossing, law_trails_use_every_edge_once, lemma_traced, lemma_traced_sides,
    lemma_trail, lemma_trails_unused, on_grid, one_apart, placed, sides_upto,
};
use crate::orientation::{
    contour_trail, is_connected, lemma_above, lemma_absent, lemma_borders, lemma_common_everywhere,
    lemma_common_range, lemma_same_side, lemma_sign_by_common, lemma_step_down, lemma_step_right,
    lemma_taken, lemma_turns_in_the_clear, lemma_turns_outside_box, lemma_way_in, one_outer, taken,
    turns,
};

verus! {

/// The row and column of the cell that a side of unit length belongs to, and the side's number,
/// clockwise from the top.
spec fn place(e: Edge) -> (int, int, int) {
    let (x, y) = (e.0.0 as int, e.0.1 as int);
    if e.1.0 > e.0.0 {
        (y, x, 0)
    } else if e.1.1 > e.0.1 {
        (y, x - 1, 1)
    } else if e.1.0 < e.0.0 {
        (y - 1, x - 1, 2)
    } else {
        (y - 1, x, 3)
    }
}

/// Side `e` comes before side `f` in raster order of the cells.
spec fn earlier(e: Edge, f: Edge) -> bool {
    let (a, b) = (place(e), place(f));
    ||| a.0 < b.0
    ||| a.0 == b.0 && a.1 < b.1
    ||| a.0 == b.0 && a.1 == b.1 && a.2 < b.2
}

proof fn lemma_cell_sorted(inside: spec_fn(int, int) -> bool, x: int, y: int)
    requires
        0 <= x < i32::MAX,
        0 <= y < i32::MAX,
    ensures
        ({
            let b = cell_edges(inside, x, y);
            &&& forall|i: int|
                0 <= i < b.len() ==> place(#[trigger] b[i]).0 == y && place(b[i]).1 == x
            &&& forall|i: int, j: int|
                0 <= i < j < b.len() ==> earlier(#[trigger] b[i], #[trigger] b[j])
        }),
{
    if inside(x, y) {
        let p = optional(!inside(x, y - 1), upper(x, y));
        let q = optional(!inside(x + 1, y), right(x, y));
        let r = optional(!inside(x, y + 1), lower(x, y));
        let s = optional(!inside(x - 1, y), left(x, y));
        assert(cell_edges(inside, x, y) == p + q + r + s);
        assert(place(upper(x, y)) == (y, x, 0int));
        assert(place(right(x, y)) == (y, x, 1int));
        assert(place(lower(x, y)) == (y, x, 2int));
        assert(place(left(x, y)) == (y, x, 3int));
    }
}

proof fn lemma_sorted_before(
    inside: spec_fn(int, int) -> bool,
    min_x: int,
    max_x: int,
    min_y: int,
    x: int,
    y: int,
)
    requires
        0 <= min_x <= x <= max_x + 1,
        max_x < i32::MAX,
        0 <= min_y <= y <= i32::MAX,
        y == i32::MAX ==> x == min_x,
    ensures
        ({
            let s = edges_before(inside, min_x, max_x, min_y, x, y);
            &&& forall|i: int|
                0 <= i < s.len() ==> {
                    let c = place(#[trigger] s[i]);
                    c.0 < y || c.0 == y && c.1 < x
                }
            &&& forall|i: int, j: int|
                0 <= i < j < s.len() ==> earlier(#[trigger] s[i], #[trigger] s[j])
        }),
    decreases y - min_y, x - min_x,
{
    let s = edges_before(inside, min_x, max_x, min_y, x, y);
    if x > min_x {
        lemma_sorted_before(inside, min_x, max_x, min_y, x - 1, y);
        lemma_cell_sorted(inside, x - 1, y);
        let a = edges_before(inside, min_x, max_x, min_y, x - 1, y);
        let b = cell_edges(inside, x - 1, y);
        assert(s == a + b);
        assert forall|i: int| 0 <= i < s.len() implies {
            let c = place(#[trigger] s[i]);
            c.0 < y || c.0 == y && c.1 < x
        } by {
            if i < a.len() {
                assert(s[i] == a[i]);
            } else {
                assert(s[i] == b[i - a.len()]);
            }
        }
        assert forall|i: int, j: int| 0 <= i < j < s.len() implies earlier(
            #[trigger] s[i],
            #[trigger] s[j],
        ) by {
            if j < a.len() {
                assert(s[i] == a[i] && s[j] == a[j]);
            } else if i >= a.len() {
                assert(s[i] == b[i - a.len()] && s[j] == b[j - a.len()]);
            } else {
                assert(s[i] == a[i] && s[j] == b[j - a.len()]);
            }
        }
    } else if y > min_y {
        lemma_sorted_before(inside, min_x, max_x, min_y, max_x + 1, y - 1);
        assert(s == edges_before(inside, min_x, max_x, min_y, max_x + 1, y - 1));
        assert forall|i: int| 0 <= i < s.len() implies {
            let c = place(#[trigger] s[i]);
            c.0 < y || c.0 == y && c.1 < x
        } by {
            assert(place(s[i]).0 <= y - 1);
        }
    } else {
        assert(s.len() == 0);
    }
}

/// The boundary lists each edge once, in raster order of the cells.
proof fn lemma_sorted(inside: spec_fn(int, int) -> bool, bbox: (usize, usize, usize, usize))
    requires
        on_grid(bbox),
    ensures
        forall|i: int, j: int|
            0 <= i < j < boundary(inside, bbox).len() ==> earlier(
                #[trigger] boundary(inside, bbox)[i],
                #[trigger] boundary(inside, bbox)[j],
            ),
        distinct(boundary(inside, bbox)),
{
    lemma_sorted_before(
        inside,
        bbox.0 as int,
        bbox.2 as int,
        bbox.1 as int,
        bbox.0 as int,
        bbox.3 + 1,
    );
    let edges = boundary(inside, bbox);
    assert forall|i: int, j: int| 0 <= i < j < edges.len() implies #[trigger] edges[i]
        != #[trigger] edges[j] by {
        assert(earlier(edges[i], edges[j]));
    }
}

/// The unused edges when trail `k` is begun: none of its own or of later trails is used, and all
/// before its first are.
proof fn lemma_state(edges: Seq<Edge>, used: Seq<bool>, e: int, k: int) -> (u: Seq<bool>)
    requires
        used.len() == edges.len(),
        0 <= e,
        forall|f: int| 0 <= f < e && f < used.len() ==> #[trigger] used[f],
        0 <= k < trails(edges, used, e).len(),
    ensures
        ({
            let ts = trails(edges, used, e);
            let t = ts[k];
            &&& u.len() == edges.len()
            &&& t.len() > 0
            &&& 0 <= t[0] < edges.len()
            &&& !u[t[0]]
            &&& t == trail(edges, u, edges[t[0]].0, t[0])
            &&& forall|f: int| 0 <= f < t[0] ==> #[trigger] u[f]
            &&& forall|f: int, l: int, i: int| #[trigger] placed(ts, f, l, i) && l >= k ==> !u[f]
        }),
    decreases edges.len() - e,
{
    let ts = trails(edges, used, e);
    if used[e] {
        lemma_state(edges, used, e + 1, k)
    } else {
        let t = trail(edges, used, edges[e].0, e);
        lemma_trail(edges, used, edges[e].0, e);
        let rest = trails(edges, marked(used, t), e + 1);
        assert(ts == seq![t] + rest);
        if k == 0 {
            assert(ts[0] == t);
            assert forall|f: int, l: int, i: int| #[trigger]
                placed(ts, f, l, i) implies !used[f] by {
                lemma_trails_unused(edges, used, e, f, l, i);
            }
            used
        } else {
            assert(t.contains(e)) by {
                assert(t[0] == e);
            }
            let u = lemma_state(edges, marked(used, t), e + 1, k - 1);
            assert(ts[k] == rest[k - 1]);
            assert forall|f: int, l: int, i: int| #[trigger]
                placed(ts, f, l, i) && l >= k implies !u[f] by {
                assert(ts[l] == rest[l - 1]);
                assert(placed(rest, f, l - 1, i));
            }
            u
        }
    }
}

/// After each edge of a trail that does not end at home comes the one to take.
proof fn lemma_trail_next(edges: Seq<Edge>, used: Seq<bool>, home: Pt, cur: int, i: int)
    requires
        used.len() == edges.len(),
        0 <= cur < edges.len(),
        !used[cur],
        0 <= i < trail(edges, used, home, cur).len() - 1,
    ensures
        ({
            let t = trail(edges, used, home, cur);
            is_next(edges, marked(used, t.take(i + 1)), t[i], t[i + 1])
        }),
    decreases i,
{
    let t = trail(edges, used, home, cur);
    let now = used.update(cur, true);
    lemma_trail(edges, used, home, cur);
    assert(!(edges[cur].1 == home || !exists|f: int| is_next(edges, now, cur, f)));
    let f = choose|f: int| is_next(edges, now, cur, f);
    assert(continues(edges, now, cur, f));
    let rest = trail(edges, now, home, f);
    assert(t == seq![cur] + rest);
    lemma_trail(edges, now, home, f);
    if i == 0 {
        let one = t.take(1);
        assert(one =~= seq![cur]);
        assert(marked(used, one) =~= now) by {
            assert(one[0] == cur);
        }
        assert(t[1] == rest[0]);
    } else {
        lemma_trail_next(edges, now, home, f, i - 1);
        let (a, b) = (t.take(i + 1), rest.take(i));
        assert(marked(used, a) =~= marked(now, b)) by {
            assert forall|e: int| 0 <= e < used.len() implies marked(used, a)[e] == marked(
                now,
                b,
            )[e] by {
                assert(a[0] == cur);
                if a.contains(e) {
                    let j = choose|j: int| 0 <= j < a.len() && a[j] == e;
                    if j > 0 {
                        assert(b[j - 1] == e);
                    }
                }
                if b.contains(e) {
                    let j = choose|j: int| 0 <= j < b.len() && b[j] == e;
                    assert(a[j + 1] == e);
                }
            }
        }
        assert(t[i] == rest[i - 1] && t[i + 1] == rest[i]);
    }
}

/// No two edges of a list are equal.
spec fn distinct(edges: Seq<Edge>) -> bool {
    forall|i: int, j: int| 0 <= i < j < edges.len() ==> #[trigger] edges[i] != #[trigger] edges[j]
}

/// A corner where a right turn leads from one trail into a later one is where the first trail
/// began, with the other edge that leaves the corner; then no edge of either comes before that.
proof fn lemma_first_pass(
    edges: Seq<Edge>,
    first: int,
    second: int,
    r: (int, int),
    next: (int, int),
    other: (int, int),
    f: int,
    l: int,
    i: int,
)
    requires
        distinct(edges),
        0 <= first < second,
        placed(all_trails(edges), r.0, first, r.1),
        placed(all_trails(edges), next.0, second, next.1),
        placed(all_trails(edges), other.0, first, other.1),
        closes(edges, all_trails(edges)[first]),
        edges[next.0].0 == edges[r.0].1,
        edges[other.0].0 == edges[r.0].1,
        turn(edges[r.0], edges[next.0]) == 0,
        turn(edges[r.0], edges[other.0]) > 0,
        forall|g: int|
            0 <= g < edges.len() && (#[trigger] edges[g]).0 == edges[r.0].1 ==> edges[g]
                == edges[next.0] || edges[g] == edges[other.0],
        placed(all_trails(edges), f, l, i),
        l >= first,
    ensures
        f >= other.0,
{
    let used = fresh(edges.len());
    let ts = all_trails(edges);
    let t = ts[first];
    let u = lemma_state(edges, used, 0, first);
    let home = edges[t[0]].0;
    let v = edges[r.0].1;
    lemma_trail(edges, u, home, t[0]);
    assert(placed(ts, t[0], first, 0));
    lemma_trails_unused(edges, used, 0, next.0, second, next.1);
    lemma_trails_unused(edges, used, 0, other.0, first, other.1);
    lemma_trails_unused(edges, used, 0, f, l, i);
    law_trails_use_every_edge_once(edges, next.0);
    if v != home {
        assert(r.1 != t.len() - 1);
        lemma_trail_next(edges, u, home, t[0], r.1);
        let now = marked(u, t.take(r.1 + 1));
        let g = t[r.1 + 1];
        assert(is_next(edges, now, r.0, g));
        let so_far = t.take(r.1 + 1);
        assert(!so_far.contains(next.0)) by {
            if so_far.contains(next.0) {
                let j = choose|j: int| 0 <= j < so_far.len() && so_far[j] == next.0;
                assert(placed(ts, next.0, first, j));
            }
        }
        assert(continues(edges, now, r.0, next.0));
        assert(continues(edges, now, r.0, g));
        assert(edges[g] == edges[next.0]);
        if g < next.0 {
            assert(edges[g] != edges[next.0]);
        } else if g > next.0 {
            assert(edges[next.0] != edges[g]);
        }
        assert(placed(ts, next.0, first, r.1 + 1));
    } else {
        let s = t[0];
        if edges[s] == edges[next.0] {
            if s < next.0 {
                assert(edges[s] != edges[next.0]);
            } else if s > next.0 {
                assert(edges[next.0] != edges[s]);
            }
            assert(placed(ts, next.0, first, 0));
        } else {
            if s < other.0 {
                assert(edges[s] != edges[other.0]);
            } else if s > other.0 {
                assert(edges[other.0] != edges[s]);
            }
            if f < s {
                assert(u[f]);
            }
        }
    }
}

/// How often contour `k` winds round cell `(x, y)`.
spec fn round(
    inside: spec_fn(int, int) -> bool,
    bbox: (usize, usize, usize, usize),
    k: int,
    x: int,
    y: int,
) -> int {
    turns(boundary(inside, bbox), all_trails(boundary(inside, bbox))[k], x, y)
}

/// The contours of a region on the lattice, of which `k` is one.
spec fn has_contour(
    inside: spec_fn(int, int) -> bool,
    bbox: (usize, usize, usize, usize),
    k: int,
) -> bool {
    &&& covers(bbox, inside)
    &&& on_grid(bbox)
    &&& 0 <= k < all_trails(boundary(inside, bbox)).len()
}

/// Contour `k` takes edge `g`, as edge number `f` and in place `i`.
spec fn takes(edges: Seq<Edge>, k: int, g: Edge, f: int, i: int) -> bool {
    placed(all_trails(edges), f, k, i) && 0 <= f < edges.len() && edges[f] == g
}

/// Edge `g` is the side of cell `(a, b)` towards its neighbour `(x, y)`.
spec fn between(g: Edge, a: int, b: int, x: int, y: int) -> bool {
    ||| g == upper(a, b) && x == a && y == b - 1
    ||| g == right(a, b) && x == a + 1 && y == b
    ||| g == lower(a, b) && x == a && y == b + 1
    ||| g == left(a, b) && x == a - 1 && y == b
}

/// Across an edge of the boundary a contour winds once more on the inside if it takes the edge,
/// and as often on both sides if it does not.
proof fn lemma_across(
    inside: spec_fn(int, int) -> bool,
    bbox: (usize, usize, usize, usize),
    k: int,
    g: Edge,
    a: int,
    b: int,
    x: int,
    y: int,
)
    requires
        has_contour(inside, bbox, k),
        inside(a, b),
        !inside(x, y),
        between(g, a, b, x, y),
    ensures
        ({
            let d = round(inside, bbox, k, a, b) - round(inside, bbox, k, x, y);
            &&& d == 0 || d == 1
            &&& d == 1 <==> exists|f: int, i: int| takes(boundary(inside, bbox), k, g, f, i)
        }),
{
    let edges = boundary(inside, bbox);
    let t = all_trails(edges)[k];
    lemma_traced(inside, bbox, k);
    assert(contour_trail(inside, bbox, t));
    lemma_way_in(inside, bbox, k, a, b, x, y);
    lemma_taken(edges, t, g);
    if g == upper(a, b) && x == a && y == b - 1 {
        lemma_step_down(edges, t, a, b - 1);
        lemma_absent(inside, bbox, t, lower(a, b - 1), a, b - 1);
    } else if g == right(a, b) && x == a + 1 && y == b {
        lemma_step_right(edges, t, a, b);
        lemma_absent(inside, bbox, t, left(a + 1, b), a, b);
    } else if g == lower(a, b) && x == a && y == b + 1 {
        lemma_step_down(edges, t, a, b);
        lemma_absent(inside, bbox, t, upper(a, b + 1), a, b);
    } else {
        lemma_step_right(edges, t, a - 1, b);
        lemma_absent(inside, bbox, t, right(a - 1, b), a - 1, b);
    }
    let d = taken(edges, t, g);
    if d == 1 {
        let i = choose|i: int| 0 <= i < t.len() && edges[#[trigger] t[i]] == g;
        assert(takes(edges, k, g, t[i], i));
    }
    if exists|f: int, i: int| takes(edges, k, g, f, i) {
        let (f, i) = choose|f: int, i: int| takes(edges, k, g, f, i);
        assert(edges[t[i]] == g);
    }
}

/// Some contour takes every edge of the boundary.
proof fn lemma_some_contour(
    inside: spec_fn(int, int) -> bool,
    bbox: (usize, usize, usize, usize),
    g: Edge,
    a: int,
    b: int,
    x: int,
    y: int,
) -> (r: (int, int, int))
    requires
        covers(bbox, inside),
        on_grid(bbox),
        inside(a, b),
        !inside(x, y),
        between(g, a, b, x, y),
    ensures
        has_contour(inside, bbox, r.0),
        takes(boundary(inside, bbox), r.0, g, r.1, r.2),
{
    let edges = boundary(inside, bbox);
    let f = lemma_present(
        inside,
        bbox.0 as int,
        bbox.2 as int,
        bbox.1 as int,
        bbox.0 as int,
        bbox.3 + 1,
        g,
        a,
        b,
        x,
        y,
    );
    law_trails_use_every_edge_once(edges, f);
    let (k, i) = choose|k: int, i: int| placed(all_trails(edges), f, k, i);
    assert(takes(edges, k, g, f, i));
    (k, f, i)
}

proof fn lemma_present(
    inside: spec_fn(int, int) -> bool,
    min_x: int,
    max_x: int,
    min_y: int,
    u: int,
    v: int,
    g: Edge,
    a: int,
    b: int,
    x: int,
    y: int,
) -> (f: int)
    requires
        inside(a, b),
        !inside(x, y),
        between(g, a, b, x, y),
        min_x <= a <= max_x,
        min_y <= b,
        b < v || b == v && a < u,
        min_x <= u <= max_x + 1,
    ensures
        0 <= f < edges_before(inside, min_x, max_x, min_y, u, v).len(),
        edges_before(inside, min_x, max_x, min_y, u, v)[f] == g,
    decreases v - min_y, u - min_x,
{
    if u > min_x {
        let s = edges_before(inside, min_x, max_x, min_y, u - 1, v);
        let c = cell_edges(inside, u - 1, v);
        if a == u - 1 && b == v {
            let p = optional(!inside(a, b - 1), upper(a, b));
            let q = optional(!inside(a + 1, b), right(a, b));
            let r = optional(!inside(a, b + 1), lower(a, b));
            let t = optional(!inside(a - 1, b), left(a, b));
            assert(c == p + q + r + t);
            let i = if g == upper(a, b) && x == a && y == b - 1 {
                0
            } else if g == right(a, b) && x == a + 1 && y == b {
                p.len() as int
            } else if g == lower(a, b) && x == a && y == b + 1 {
                (p + q).len() as int
            } else {
                (p + q + r).len() as int
            };
            assert(c[i] == g);
            assert((s + c)[s.len() + i] == g);
            s.len() + i
        } else {
            let i = lemma_present(inside, min_x, max_x, min_y, u - 1, v, g, a, b, x, y);
            assert((s + c)[i] == s[i]);
            i
        }
    } else {
        lemma_present(inside, min_x, max_x, min_y, max_x + 1, v - 1, g, a, b, x, y)
    }
}

/// Each contour winds equally often round all cells of the region.
spec fn united(inside: spec_fn(int, int) -> bool, bbox: (usize, usize, usize, usize)) -> bool {
    forall|j: int, a: int, b: int, c: int, d: int|
        #![trigger round(inside, bbox, j, a, b), round(inside, bbox, j, c, d)]
        has_contour(inside, bbox, j) && inside(a, b) && inside(c, d) ==> round(
            inside,
            bbox,
            j,
            a,
            b,
        ) == round(inside, bbox, j, c, d)
}

/// One edge is taken by one contour.
proof fn lemma_taken_once(
    inside: spec_fn(int, int) -> bool,
    bbox: (usize, usize, usize, usize),
    g: Edge,
    j: int,
    k: int,
)
    requires
        on_grid(bbox),
        exists|f: int, i: int| takes(boundary(inside, bbox), j, g, f, i),
        exists|f: int, i: int| takes(boundary(inside, bbox), k, g, f, i),
    ensures
        j == k,
{
    let edges = boundary(inside, bbox);
    lemma_sorted(inside, bbox);
    let (f, i) = choose|f: int, i: int| takes(edges, j, g, f, i);
    let (e, l) = choose|e: int, l: int| takes(edges, k, g, e, l);
    if e < f {
        assert(edges[e] != edges[f]);
    } else if f < e {
        assert(edges[f] != edges[e]);
    }
    law_trails_use_every_edge_once(edges, f);
    assert(placed(all_trails(edges), f, j, i) && placed(all_trails(edges), f, k, l));
}

/// Two cells `c` and `d` of the region touch at a corner only, where the walk comes in along `p`
/// and `q` and leaves along `after_p` and `after_q`; `a` and `b` are the cells between them.
spec fn pinched(
    inside: spec_fn(int, int) -> bool,
    bbox: (usize, usize, usize, usize),
    c: (int, int),
    d: (int, int),
    a: (int, int),
    b: (int, int),
    p: Edge,
    after_p: Edge,
    q: Edge,
    after_q: Edge,
) -> bool {
    &&& inside(c.0, c.1)
    &&& inside(d.0, d.1)
    &&& !inside(a.0, a.1)
    &&& !inside(b.0, b.1)
    &&& between(p, c.0, c.1, a.0, a.1)
    &&& between(after_p, c.0, c.1, b.0, b.1)
    &&& between(q, d.0, d.1, b.0, b.1)
    &&& between(after_q, d.0, d.1, a.0, a.1)
    &&& after_p.0 == p.1
    &&& q.1 == p.1
    &&& after_q.0 == p.1
    &&& turn(p, after_p) == 0
    &&& turn(q, after_q) == 0
    &&& turn(p, after_q) > 0
    &&& turn(q, after_p) > 0
    &&& earlier(p, after_p)
    &&& earlier(p, after_q)
    &&& forall|g: int|
        0 <= g < boundary(inside, bbox).len() && (#[trigger] boundary(inside, bbox)[g]).0 == p.1
            ==> boundary(inside, bbox)[g] == after_p || boundary(inside, bbox)[g] == after_q
}

/// A contour winds equally often round the outside cells on either side of such a corner.
proof fn lemma_pinch(
    inside: spec_fn(int, int) -> bool,
    bbox: (usize, usize, usize, usize),
    k: int,
    c: (int, int),
    d: (int, int),
    a: (int, int),
    b: (int, int),
    p: Edge,
    after_p: Edge,
    q: Edge,
    after_q: Edge,
)
    requires
        has_contour(inside, bbox, k),
        united(inside, bbox),
        pinched(inside, bbox, c, d, a, b, p, after_p, q, after_q),
    ensures
        round(inside, bbox, k, a.0, a.1) == round(inside, bbox, k, b.0, b.1),
{
    let edges = boundary(inside, bbox);
    let ts = all_trails(edges);
    lemma_sorted(inside, bbox);
    let (x, fp, ip) = lemma_some_contour(inside, bbox, p, c.0, c.1, a.0, a.1);
    let (y, fo, io) = lemma_some_contour(inside, bbox, after_p, c.0, c.1, b.0, b.1);
    lemma_across(inside, bbox, x, p, c.0, c.1, a.0, a.1);
    lemma_across(inside, bbox, x, after_q, d.0, d.1, a.0, a.1);
    lemma_across(inside, bbox, y, after_p, c.0, c.1, b.0, b.1);
    lemma_across(inside, bbox, y, q, d.0, d.1, b.0, b.1);
    assert(round(inside, bbox, x, c.0, c.1) == round(inside, bbox, x, d.0, d.1));
    assert(round(inside, bbox, y, c.0, c.1) == round(inside, bbox, y, d.0, d.1));
    let (fz, iz) = choose|f: int, i: int| takes(edges, x, after_q, f, i);
    let (fq, iq) = choose|f: int, i: int| takes(edges, y, q, f, i);
    assert(takes(edges, x, after_q, fz, iz) && takes(edges, y, q, fq, iq));
    if fz <= fp {
        assert(fz == fp || earlier(edges[fz], edges[fp]));
    }
    if fo <= fp {
        assert(fo == fp || earlier(edges[fo], edges[fp]));
    }
    lemma_traced(inside, bbox, x);
    lemma_traced(inside, bbox, y);
    if x < y {
        lemma_first_pass(edges, x, y, (fp, ip), (fo, io), (fz, iz), fp, x, ip);
    } else if y < x {
        lemma_first_pass(edges, y, x, (fq, iq), (fz, iz), (fo, io), fp, x, ip);
    }
    lemma_across(inside, bbox, k, p, c.0, c.1, a.0, a.1);
    lemma_across(inside, bbox, k, after_p, c.0, c.1, b.0, b.1);
    if exists|f: int, i: int| takes(edges, k, p, f, i) {
        lemma_taken_once(inside, bbox, p, x, k);
    }
    if exists|f: int, i: int| takes(edges, k, after_p, f, i) {
        lemma_taken_once(inside, bbox, after_p, y, k);
    }
}

/// Cells `a` and `b` share a side or a corner, or are the same.
pub open spec fn near(a: (int, int), b: (int, int)) -> bool {
    -1 <= a.0 - b.0 <= 1 && -1 <= a.1 - b.1 <= 1
}

/// Corner `(x, y)` between an inside cell above it on the left and one below it on the right.
proof fn lemma_pinch_falling(
    inside: spec_fn(int, int) -> bool,
    bbox: (usize, usize, usize, usize),
    k: int,
    x: int,
    y: int,
)
    requires
        has_contour(inside, bbox, k),
        united(inside, bbox),
        inside(x - 1, y - 1),
        inside(x, y),
        !inside(x, y - 1),
        !inside(x - 1, y),
    ensures
        round(inside, bbox, k, x, y - 1) == round(inside, bbox, k, x - 1, y),
{
    let edges = boundary(inside, bbox);
    let (p, o) = (right(x - 1, y - 1), lower(x - 1, y - 1));
    let (q, z) = (left(x, y), upper(x, y));
    assert forall|g: int| 0 <= g < edges.len() && (#[trigger] edges[g]).0 == p.1 implies edges[g]
        == o || edges[g] == z by {
        let (a, b) = lemma_borders(inside, bbox, g);
        assert(inside(a, b));
    }
    assert(pinched(
        inside,
        bbox,
        (x - 1, y - 1),
        (x, y),
        (x, y - 1),
        (x - 1, y),
        p,
        o,
        q,
        z,
    ));
    lemma_pinch(
        inside,
        bbox,
        k,
        (x - 1, y - 1),
        (x, y),
        (x, y - 1),
        (x - 1, y),
        p,
        o,
        q,
        z,
    );
}

/// Corner `(x, y)` between an inside cell above it on the right and one below it on the left.
proof fn lemma_pinch_rising(
    inside: spec_fn(int, int) -> bool,
    bbox: (usize, usize, usize, usize),
    k: int,
    x: int,
    y: int,
)
    requires
        has_contour(inside, bbox, k),
        united(inside, bbox),
        inside(x, y - 1),
        inside(x - 1, y),
        !inside(x - 1, y - 1),
        !inside(x, y),
    ensures
        round(inside, bbox, k, x - 1, y - 1) == round(inside, bbox, k, x, y),
{
    let edges = boundary(inside, bbox);
    let (p, o) = (lower(x, y - 1), left(x, y - 1));
    let (q, z) = (upper(x - 1, y), right(x - 1, y));
    assert forall|g: int| 0 <= g < edges.len() && (#[trigger] edges[g]).0 == p.1 implies edges[g]
        == o || edges[g] == z by {
        let (a, b) = lemma_borders(inside, bbox, g);
        assert(inside(a, b));
    }
    assert(pinched(
        inside,
        bbox,
        (x, y - 1),
        (x - 1, y),
        (x, y),
        (x - 1, y - 1),
        p,
        o,
        q,
        z,
    ));
    lemma_pinch(
        inside,
        bbox,
        k,
        (x, y - 1),
        (x - 1, y),
        (x, y),
        (x - 1, y - 1),
        p,
        o,
        q,
        z,
    );
}

/// Round outside cells that share a side a contour winds equally often.
proof fn lemma_beside(
    inside: spec_fn(int, int) -> bool,
    bbox: (usize, usize, usize, usize),
    k: int,
    a: (int, int),
    b: (int, int),
)
    requires
        has_contour(inside, bbox, k),
        !inside(a.0, a.1),
        !inside(b.0, b.1),
        near(a, b),
        a.0 == b.0 || a.1 == b.1,
    ensures
        round(inside, bbox, k, a.0, a.1) == round(inside, bbox, k, b.0, b.1),
{
    let t = all_trails(boundary(inside, bbox))[k];
    lemma_traced(inside, bbox, k);
    assert(contour_trail(inside, bbox, t));
    lemma_same_side(inside, bbox, t, a.0, a.1);
    lemma_same_side(inside, bbox, t, b.0, b.1);
}

/// Round outside cells that touch a contour winds equally often.
proof fn lemma_near_alike(
    inside: spec_fn(int, int) -> bool,
    bbox: (usize, usize, usize, usize),
    k: int,
    a: (int, int),
    b: (int, int),
)
    requires
        has_contour(inside, bbox, k),
        united(inside, bbox),
        !inside(a.0, a.1),
        !inside(b.0, b.1),
        near(a, b),
    ensures
        round(inside, bbox, k, a.0, a.1) == round(inside, bbox, k, b.0, b.1),
{
    if a.0 == b.0 || a.1 == b.1 {
        lemma_beside(inside, bbox, k, a, b);
    } else if !inside(a.0, b.1) {
        lemma_beside(inside, bbox, k, a, (a.0, b.1));
        lemma_beside(inside, bbox, k, (a.0, b.1), b);
    } else if !inside(b.0, a.1) {
        lemma_beside(inside, bbox, k, a, (b.0, a.1));
        lemma_beside(inside, bbox, k, (b.0, a.1), b);
    } else {
        let x = if a.0 < b.0 {
            b.0
        } else {
            a.0
        };
        let y = if a.1 < b.1 {
            b.1
        } else {
            a.1
        };
        if (a.0 < b.0) == (a.1 < b.1) {
            lemma_pinch_rising(inside, bbox, k, x, y);
        } else {
            lemma_pinch_falling(inside, bbox, k, x, y);
        }
    }
}

/// A way leads from `a` to `b` over outside cells that touch each other at a side or a corner.
pub open spec fn is_way(
    inside: spec_fn(int, int) -> bool,
    way: Seq<(int, int)>,
    a: (int, int),
    b: (int, int),
) -> bool {
    &&& way.len() > 0
    &&& way[0] == a
    &&& way.last() == b
    &&& forall|i: int| 0 <= i < way.len() ==> !inside((#[trigger] way[i]).0, way[i].1)
    &&& forall|i: int, j: int|
        0 <= i && j == i + 1 && j < way.len() ==> near(#[trigger] way[i], #[trigger] way[j])
}

/// Cells `a` and `b` lie in one part of the outside.
pub open spec fn linked(
    inside: spec_fn(int, int) -> bool,
    a: (int, int),
    b: (int, int),
) -> bool {
    exists|way: Seq<(int, int)>| is_way(inside, way, a, b)
}

proof fn lemma_linked_near(inside: spec_fn(int, int) -> bool, a: (int, int), b: (int, int))
    requires
        !inside(a.0, a.1),
        !inside(b.0, b.1),
        near(a, b),
    ensures
        linked(inside, a, b),
{
    assert(is_way(inside, seq![a, b], a, b));
}

proof fn lemma_linked_back(inside: spec_fn(int, int) -> bool, a: (int, int), b: (int, int))
    requires
        linked(inside, a, b),
    ensures
        linked(inside, b, a),
{
    let way = choose|way: Seq<(int, int)>| is_way(inside, way, a, b);
    let back = way.reverse();
    let n = way.len() as int;
    assert forall|i: int| 0 <= i < n implies !inside((#[trigger] back[i]).0, back[i].1) by {
        assert(back[i] == way[n - 1 - i]);
    }
    assert forall|i: int, j: int| 0 <= i && j == i + 1 && j < n implies near(
        #[trigger] back[i],
        #[trigger] back[j],
    ) by {
        assert(back[i] == way[n - 1 - i] && back[j] == way[n - 1 - j]);
        assert(near(way[n - 1 - j], way[n - 1 - i]));
    }
    assert(is_way(inside, back, b, a));
}

proof fn lemma_linked_on(
    inside: spec_fn(int, int) -> bool,
    a: (int, int),
    b: (int, int),
    c: (int, int),
)
    requires
        linked(inside, a, b),
        linked(inside, b, c),
    ensures
        linked(inside, a, c),
{
    let v = choose|way: Seq<(int, int)>| is_way(inside, way, a, b);
    let w = choose|way: Seq<(int, int)>| is_way(inside, way, b, c);
    let way = v + w;
    let n = v.len() as int;
    assert forall|i: int| 0 <= i < way.len() implies !inside(
        (#[trigger] way[i]).0,
        way[i].1,
    ) by {
        if i < n {
            assert(way[i] == v[i]);
        } else {
            assert(way[i] == w[i - n]);
        }
    }
    assert forall|i: int, j: int| 0 <= i && j == i + 1 && j < way.len() implies near(
        #[trigger] way[i],
        #[trigger] way[j],
    ) by {
        if j < n {
            assert(way[i] == v[i] && way[j] == v[j]);
        } else if i >= n {
            assert(way[i] == w[i - n] && way[j] == w[j - n]);
        } else {
            assert(way[i] == v.last() && way[j] == w[0]);
        }
    }
    assert(is_way(inside, way, a, c));
}

/// Along a way a contour winds equally often.
proof fn lemma_linked_alike(
    inside: spec_fn(int, int) -> bool,
    bbox: (usize, usize, usize, usize),
    k: int,
    a: (int, int),
    b: (int, int),
)
    requires
        has_contour(inside, bbox, k),
        united(inside, bbox),
        linked(inside, a, b),
    ensures
        !inside(a.0, a.1),
        !inside(b.0, b.1),
        round(inside, bbox, k, a.0, a.1) == round(inside, bbox, k, b.0, b.1),
{
    let way = choose|way: Seq<(int, int)>| is_way(inside, way, a, b);
    lemma_way_alike(inside, bbox, k, way, a, b, way.len() - 1);
    assert(!inside(way[0].0, way[0].1));
    assert(!inside(way[way.len() - 1].0, way[way.len() - 1].1));
}

proof fn lemma_way_alike(
    inside: spec_fn(int, int) -> bool,
    bbox: (usize, usize, usize, usize),
    k: int,
    way: Seq<(int, int)>,
    a: (int, int),
    b: (int, int),
    i: int,
)
    requires
        has_contour(inside, bbox, k),
        united(inside, bbox),
        is_way(inside, way, a, b),
        0 <= i < way.len(),
    ensures
        round(inside, bbox, k, a.0, a.1) == round(inside, bbox, k, way[i].0, way[i].1),
    decreases i,
{
    if i > 0 {
        lemma_way_alike(inside, bbox, k, way, a, b, i - 1);
        assert(near(way[i - 1], way[i]));
        assert(!inside(way[i - 1].0, way[i - 1].1) && !inside(way[i].0, way[i].1));
        lemma_near_alike(inside, bbox, k, way[i - 1], way[i]);
    }
}

/// From an outside cell to the right up to the next inside cell or out of the box.
proof fn lemma_eastward(
    inside: spec_fn(int, int) -> bool,
    bbox: (usize, usize, usize, usize),
    x: int,
    y: int,
) -> (e: int)
    requires
        !inside(x, y),
    ensures
        x <= e,
        !inside(e, y),
        linked(inside, (x, y), (e, y)),
        e > bbox.2 || inside(e + 1, y),
    decreases bbox.2 + 1 - x,
{
    lemma_linked_near(inside, (x, y), (x, y));
    if x > bbox.2 || inside(x + 1, y) {
        x
    } else {
        let e = lemma_eastward(inside, bbox, x + 1, y);
        lemma_linked_near(inside, (x, y), (x + 1, y));
        lemma_linked_on(inside, (x, y), (x + 1, y), (e, y));
        e
    }
}

/// The cell behind an edge: the one on its left.
spec fn behind(e: Edge) -> (int, int) {
    let (x, y) = (e.0.0 as int, e.0.1 as int);
    if e.1.0 > e.0.0 {
        (x, y - 1)
    } else if e.1.1 > e.0.1 {
        (x, y)
    } else if e.1.0 < e.0.0 {
        (x - 1, y)
    } else {
        (x - 1, y - 1)
    }
}

proof fn lemma_behind_is_outside(
    inside: spec_fn(int, int) -> bool,
    bbox: (usize, usize, usize, usize),
    f: int,
)
    requires
        covers(bbox, inside),
        on_grid(bbox),
        0 <= f < boundary(inside, bbox).len(),
    ensures
        !inside(behind(boundary(inside, bbox)[f]).0, behind(boundary(inside, bbox)[f]).1),
{
    let (a, b) = lemma_borders(inside, bbox, f);
    assert(inside(a, b));
}

/// The cells behind the edges of one contour are linked.
proof fn lemma_behind_linked(
    inside: spec_fn(int, int) -> bool,
    bbox: (usize, usize, usize, usize),
    k: int,
    i: int,
)
    requires
        has_contour(inside, bbox, k),
        0 <= i < all_trails(boundary(inside, bbox))[k].len(),
    ensures
        ({
            let edges = boundary(inside, bbox);
            let t = all_trails(edges)[k];
            linked(inside, behind(edges[t[0]]), behind(edges[t[i]]))
        }),
    decreases i,
{
    let edges = boundary(inside, bbox);
    let t = all_trails(edges)[k];
    lemma_traced(inside, bbox, k);
    assert(0 <= t[0] < edges.len());
    lemma_behind_is_outside(inside, bbox, t[0]);
    if i == 0 {
        lemma_linked_near(inside, behind(edges[t[0]]), behind(edges[t[0]]));
    } else {
        lemma_behind_linked(inside, bbox, k, i - 1);
        assert(edges[t[i - 1]].1 == edges[t[i]].0);
        assert(one_apart(edges[t[i - 1]].0, edges[t[i - 1]].1));
        assert(one_apart(edges[t[i]].0, edges[t[i]].1));
        lemma_behind_is_outside(inside, bbox, t[i - 1]);
        lemma_behind_is_outside(inside, bbox, t[i]);
        lemma_linked_near(inside, behind(edges[t[i - 1]]), behind(edges[t[i]]));
        lemma_linked_on(
            inside,
            behind(edges[t[0]]),
            behind(edges[t[i - 1]]),
            behind(edges[t[i]]),
        );
    }
}

/// An outside cell round which a contour winds differently than round the region is linked to
/// the cells behind the contour's edges, or else to a cell out of the box.
proof fn lemma_linked_to_contour(
    inside: spec_fn(int, int) -> bool,
    bbox: (usize, usize, usize, usize),
    k: int,
    c: int,
    a: (int, int),
) -> (e: int)
    requires
        has_contour(inside, bbox, k),
        united(inside, bbox),
        !inside(a.0, a.1),
        forall|u: int, v: int| #[trigger] inside(u, v) ==> round(inside, bbox, k, u, v) == c,
        round(inside, bbox, k, a.0, a.1) != c,
    ensures
        ({
            let edges = boundary(inside, bbox);
            let t = all_trails(edges)[k];
            if e > bbox.2 {
                linked(inside, a, (e, a.1))
            } else {
                linked(inside, a, behind(edges[t[0]]))
            }
        }),
{
    let edges = boundary(inside, bbox);
    let t = all_trails(edges)[k];
    let e = lemma_eastward(inside, bbox, a.0, a.1);
    if e <= bbox.2 {
        lemma_linked_alike(inside, bbox, k, a, (e, a.1));
        let g = left(e + 1, a.1);
        assert(inside(e + 1, a.1));
        lemma_across(inside, bbox, k, g, e + 1, a.1, e, a.1);
        let (f, i) = choose|f: int, i: int| takes(edges, k, g, f, i);
        assert(takes(edges, k, g, f, i));
        assert(behind(g) == (e, a.1));
        lemma_behind_linked(inside, bbox, k, i);
        lemma_linked_back(inside, behind(edges[t[0]]), (e, a.1));
        lemma_linked_on(inside, a, (e, a.1), behind(edges[t[0]]));
    }
    e
}

/// Cell `a` lies in a hole: outside the region, and no way leads out of the box from there.
pub open spec fn enclosed(
    inside: spec_fn(int, int) -> bool,
    bbox: (usize, usize, usize, usize),
    a: (int, int),
) -> bool {
    &&& !inside(a.0, a.1)
    &&& forall|b: (int, int)| #[trigger]
        linked(inside, a, b) ==> 0 <= b.0 <= bbox.2 && 0 <= b.1 <= bbox.3
}

/// The closed polygon winds round cell `a`.
pub open spec fn goes_round(pts: Seq<Pt>, a: (int, int)) -> bool {
    sides_upto(crossing(a.0, a.1), pts, pts.len() as int) != 0
}

/// Contour `k` winds once round all cells of the region, and the others do not; from the cell
/// above cell `(x, y)` of the region the way to the right is clear.
spec fn ordered_round(
    inside: spec_fn(int, int) -> bool,
    bbox: (usize, usize, usize, usize),
    k: int,
    x: int,
    y: int,
) -> bool {
    &&& has_contour(inside, bbox, k)
    &&& united(inside, bbox)
    &&& forall|j: int, a: int, b: int|
        #![trigger round(inside, bbox, j, a, b)]
        has_contour(inside, bbox, j) && inside(a, b) ==> round(inside, bbox, j, a, b) == if j == k {
            1int
        } else {
            0
        }
    &&& inside(x, y)
    &&& forall|a: int| x <= a ==> !#[trigger] inside(a, y - 1)
}

/// Outside cells that an inner contour goes round are enclosed, and those round which it goes
/// are those of one part of the outside.
proof fn lemma_inner(
    inside: spec_fn(int, int) -> bool,
    bbox: (usize, usize, usize, usize),
    k: int,
    x: int,
    y: int,
    j: int,
    a: (int, int),
    b: (int, int),
)
    requires
        ordered_round(inside, bbox, k, x, y),
        has_contour(inside, bbox, j),
        j != k,
        !inside(a.0, a.1),
        !inside(b.0, b.1),
        round(inside, bbox, j, a.0, a.1) != 0,
    ensures
        enclosed(inside, bbox, a),
        round(inside, bbox, j, b.0, b.1) != 0 <==> linked(inside, a, b),
{
    let edges = boundary(inside, bbox);
    let t = all_trails(edges)[j];
    lemma_traced(inside, bbox, j);
    assert(contour_trail(inside, bbox, t));
    assert forall|c: (int, int)| #[trigger] linked(inside, a, c) implies 0 <= c.0 <= bbox.2 && 0
        <= c.1 <= bbox.3 && round(inside, bbox, j, c.0, c.1) != 0 by {
        lemma_linked_alike(inside, bbox, j, a, c);
        if !(0 <= c.0 <= bbox.2 && 0 <= c.1 <= bbox.3) {
            lemma_turns_outside_box(inside, bbox, t, c.0, c.1);
        }
    }
    if round(inside, bbox, j, b.0, b.1) != 0 {
        assert forall|u: int, v: int| #[trigger] inside(u, v) implies round(
            inside,
            bbox,
            j,
            u,
            v,
        ) == 0 by {}
        let e = lemma_linked_to_contour(inside, bbox, j, 0, a);
        let g = lemma_linked_to_contour(inside, bbox, j, 0, b);
        if g > bbox.2 {
            lemma_linked_alike(inside, bbox, j, b, (g, b.1));
            lemma_turns_outside_box(inside, bbox, t, g, b.1);
        }
        lemma_linked_back(inside, b, behind(edges[t[0]]));
        lemma_linked_on(inside, a, behind(edges[t[0]]), b);
    }
}

/// Two inner contours do not go round the same cell.
proof fn lemma_inner_unique(
    inside: spec_fn(int, int) -> bool,
    bbox: (usize, usize, usize, usize),
    k: int,
    x: int,
    y: int,
    i: int,
    j: int,
    a: (int, int),
)
    requires
        ordered_round(inside, bbox, k, x, y),
        has_contour(inside, bbox, i),
        has_contour(inside, bbox, j),
        i != k,
        j != k,
        !inside(a.0, a.1),
        round(inside, bbox, i, a.0, a.1) != 0,
        round(inside, bbox, j, a.0, a.1) != 0,
    ensures
        i == j,
{
    lemma_inner(inside, bbox, k, x, y, i, a, a);
    let e = lemma_eastward(inside, bbox, a.0, a.1);
    assert(linked(inside, a, (e, a.1)));
    assert(inside(e + 1, a.1));
    lemma_linked_alike(inside, bbox, i, a, (e, a.1));
    lemma_linked_alike(inside, bbox, j, a, (e, a.1));
    let g = left(e + 1, a.1);
    lemma_across(inside, bbox, i, g, e + 1, a.1, e, a.1);
    lemma_across(inside, bbox, j, g, e + 1, a.1, e, a.1);
    lemma_taken_once(inside, bbox, g, i, j);
}

/// An inner contour goes round some cell.
proof fn lemma_inner_exists(
    inside: spec_fn(int, int) -> bool,
    bbox: (usize, usize, usize, usize),
    k: int,
    x: int,
    y: int,
    j: int,
) -> (a: (int, int))
    requires
        ordered_round(inside, bbox, k, x, y),
        has_contour(inside, bbox, j),
        j != k,
    ensures
        !inside(a.0, a.1),
        round(inside, bbox, j, a.0, a.1) != 0,
{
    let edges = boundary(inside, bbox);
    let t = all_trails(edges)[j];
    lemma_traced(inside, bbox, j);
    assert(0 <= t[0] < edges.len());
    let g = edges[t[0]];
    let (u, v) = lemma_borders(inside, bbox, t[0]);
    assert(inside(u, v));
    let a = behind(g);
    lemma_behind_is_outside(inside, bbox, t[0]);
    assert(between(g, u, v, a.0, a.1));
    lemma_across(inside, bbox, j, g, u, v, a.0, a.1);
    assert(takes(edges, j, g, t[0], 0));
    a
}

/// Round every enclosed cell an inner contour goes.
proof fn lemma_enclosed(
    inside: spec_fn(int, int) -> bool,
    bbox: (usize, usize, usize, usize),
    k: int,
    x: int,
    y: int,
    a: (int, int),
) -> (j: int)
    requires
        ordered_round(inside, bbox, k, x, y),
        enclosed(inside, bbox, a),
    ensures
        has_contour(inside, bbox, j),
        j != k,
        round(inside, bbox, j, a.0, a.1) != 0,
{
    let edges = boundary(inside, bbox);
    let t = all_trails(edges)[k];
    let e = lemma_eastward(inside, bbox, a.0, a.1);
    assert(linked(inside, a, (e, a.1)));
    assert(inside(e + 1, a.1));
    let g = left(e + 1, a.1);
    assert(behind(g) == (e, a.1));
    let (j, f, i) = lemma_some_contour(inside, bbox, g, e + 1, a.1, e, a.1);
    lemma_across(inside, bbox, j, g, e + 1, a.1, e, a.1);
    lemma_linked_alike(inside, bbox, j, a, (e, a.1));
    if j == k {
        lemma_traced(inside, bbox, k);
        assert(contour_trail(inside, bbox, t));
        let up = upper(x, y);
        assert(!inside(x, y - 1));
        lemma_turns_in_the_clear(inside, bbox, t, x, y - 1);
        lemma_across(inside, bbox, k, up, x, y, x, y - 1);
        let (h, l) = choose|h: int, l: int| takes(edges, k, up, h, l);
        assert(takes(edges, k, up, h, l));
        assert(behind(up) == (x, y - 1));
        let base = behind(edges[t[0]]);
        lemma_behind_linked(inside, bbox, k, i);
        lemma_behind_linked(inside, bbox, k, l);
        lemma_linked_back(inside, base, (e, a.1));
        lemma_linked_on(inside, a, (e, a.1), base);
        lemma_linked_on(inside, a, base, (x, y - 1));
        let out = lemma_eastward(inside, bbox, x, y - 1);
        lemma_linked_on(inside, a, (x, y - 1), (out, y - 1));
        assert(!inside(out + 1, y - 1));
    }
    j
}

/// The closed polygon winds round a cell of some hole.
pub open spec fn rounds_a_hole(
    inside: spec_fn(int, int) -> bool,
    bbox: (usize, usize, usize, usize),
    pts: Seq<Pt>,
) -> bool {
    exists|a: (int, int)| enclosed(inside, bbox, a) && #[trigger] goes_round(pts, a)
}

/// Some loop other than `k` winds round cell `a`.
pub open spec fn has_loop(loops: Seq<Seq<Pt>>, k: int, a: (int, int)) -> bool {
    exists|j: int| 0 <= j < loops.len() && j != k && #[trigger] goes_round(loops[j], a)
}

/// Loops and holes correspond: every loop but `k` goes round some hole, every hole has one loop
/// but `k` that goes round it, no cell outside the region has two, and such a loop goes round the
/// cells of one hole and round no other cell outside the region.
pub open spec fn one_loop_per_hole(
    inside: spec_fn(int, int) -> bool,
    bbox: (usize, usize, usize, usize),
    loops: Seq<Seq<Pt>>,
    k: int,
) -> bool {
    &&& forall|j: int|
        0 <= j < loops.len() && j != k ==> rounds_a_hole(inside, bbox, #[trigger] loops[j])
    &&& forall|a: (int, int)| #[trigger]
        enclosed(inside, bbox, a) ==> has_loop(loops, k, a)
    &&& forall|a: (int, int), i: int, j: int|
        0 <= i < loops.len() && 0 <= j < loops.len() && i != k && j != k && !inside(a.0, a.1)
            && #[trigger] goes_round(loops[i], a) && #[trigger] goes_round(loops[j], a) ==> i == j
    &&& forall|j: int, a: (int, int), b: (int, int)|
        #![trigger goes_round(loops[j], a), goes_round(loops[j], b)]
        0 <= j < loops.len() && j != k && !inside(a.0, a.1) && !inside(b.0, b.1) && goes_round(
            loops[j],
            a,
        ) ==> enclosed(inside, bbox, a) && (goes_round(loops[j], b) <==> linked(inside, a, b))
}

/// A connected region has one loop per hole besides its outer loop `k`. Each other loop goes
/// round some hole, and every hole has exactly one loop that goes round it; that loop goes round
/// all cells of the hole and round no other cell outside the region.
pub proof fn law_one_loop_per_hole(
    labels: Seq<u32>,
    w: int,
    h: int,
    label: u32,
    bbox: (usize, usize, usize, usize),
    k: int,
)
    requires
        w >= 0,
        h >= 0,
        labels.len() == w * h,
        labels.contains(label),
        is_connected(labels, w, label),
        covers(bbox, region_of(labels, w, h, label)),
        box_fits(w, h, bbox),
        one_outer(outlines(boundary(region_of(labels, w, h, label), bbox)), k),
    ensures
        one_loop_per_hole(
            region_of(labels, w, h, label),
            bbox,
            outlines(boundary(region_of(labels, w, h, label), bbox)),
            k,
        ),
{
    let inside = region_of(labels, w, h, label);
    let edges = boundary(inside, bbox);
    let loops = outlines(edges);
    assert(w > 0) by (nonlinear_arith)
        requires
            w >= 0,
            w * h > 0,
    ;
    let q = choose|q: int| 0 <= q < labels.len() && labels[q] == label;
    let p = lemma_first_place(labels, q);
    lemma_coords(w, h, p);
    let (x, y) = (p % w, p / w);
    assert(inside(x, y));
    assert(on_grid(bbox));
    assert forall|j: int, a: int, b: int|
        #![trigger round(inside, bbox, j, a, b)]
        has_contour(inside, bbox, j) && inside(a, b) implies round(inside, bbox, j, a, b) == if j
        == k {
        1int
    } else {
        0
    } by {
        lemma_common_everywhere(labels, w, h, bbox, j, p, a, b);
        lemma_common_range(labels, w, h, bbox, j, p);
        lemma_sign_by_common(labels, w, h, bbox, j, p);
        assert(j != k ==> shoelace(loops[j]) < 0);
    }
    assert forall|a: int| x <= a implies !#[trigger] inside(a, y - 1) by {
        if inside(a, y - 1) {
            lemma_above(labels, w, h, p, a);
        }
    }
    assert(ordered_round(inside, bbox, k, x, y));
    assert forall|j: int, a: (int, int)| 0 <= j < loops.len() implies #[trigger] goes_round(
        loops[j],
        a,
    ) == (round(inside, bbox, j, a.0, a.1) != 0) by {
        lemma_traced_sides(inside, bbox, j);
        assert(crossing(a.0, a.1) == crossing(a.0, a.1));
    }
    assert forall|j: int| 0 <= j < loops.len() && j != k implies rounds_a_hole(
        inside,
        bbox,
        #[trigger] loops[j],
    ) by {
        let a = lemma_inner_exists(inside, bbox, k, x, y, j);
        lemma_inner(inside, bbox, k, x, y, j, a, a);
        assert(goes_round(loops[j], a));
    }
    assert forall|a: (int, int)| #[trigger] enclosed(inside, bbox, a) implies has_loop(
        loops,
        k,
        a,
    ) by {
        let j = lemma_enclosed(inside, bbox, k, x, y, a);
        assert(goes_round(loops[j], a));
    }
    assert forall|a: (int, int), i: int, j: int|
        0 <= i < loops.len() && 0 <= j < loops.len() && i != k && j != k && !inside(a.0, a.1)
            && #[trigger] goes_round(loops[i], a) && #[trigger] goes_round(loops[j], a) implies i
        == j by {
        lemma_inner_unique(inside, bbox, k, x, y, i, j, a);
    }
    assert forall|j: int, a: (int, int), b: (int, int)|
        #![trigger goes_round(loops[j], a), goes_round(loops[j], b)]
        0 <= j < loops.len() && j != k && !inside(a.0, a.1) && !inside(b.0, b.1) && goes_round(
            loops[j],
            a,
        ) implies enclosed(inside, bbox, a) && (goes_round(loops[j], b) <==> linked(
        inside,
        a,
        b,
    )) by {
        lemma_inner(inside, bbox, k, x, y, j, a, b);
    }
}

} // verus!
