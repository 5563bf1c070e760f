//! Which way the traced contours run: of a connected region one loop encloses an area of
//! positive sign, and every other one, which goes round a hole, one of negative sign.

use vstd::prelude::*;

use crate::contour::{
    all_trails, boundary, box_fits, cell_edges, edges_before, left, lower, outlines, region_of,
    right, shoelace, upper, Edge, Pt,
};
use crate::grid::{
    adjacent, connected, is_first, lemma_closed_labels, lemma_coords, lemma_first_place,
    lemma_pixel_index,
};
use crate::loops::{
    all_unit, below, chained, closes, covers, crossing, in_range,
    law_contours_wind_round_the_region, lemma_traced, lemma_traced_sides, of_edge, on_grid,
    one_apart, over_sides, over_trail, sides_upto, sweeps, winding,
};

verus! {

/// Edge `e` is a side of the inside cell `(x, y)` with an outside cell behind it.
pub open spec fn borders(inside: spec_fn(int, int) -> bool, e: Edge, x: int, y: int) -> bool {
    &&& inside(x, y)
    &&& ({
        ||| e == upper(x, y) && !inside(x, y - 1)
        ||| e == right(x, y) && !inside(x + 1, y)
        ||| e == lower(x, y) && !inside(x, y + 1)
        ||| e == left(x, y) && !inside(x - 1, y)
    })
}

proof fn lemma_cell_borders(inside: spec_fn(int, int) -> bool, x: int, y: int, i: int)
    requires
        0 <= i < cell_edges(inside, x, y).len(),
    ensures
        borders(inside, cell_edges(inside, x, y)[i], x, y),
{
}

proof fn lemma_borders_before(
    inside: spec_fn(int, int) -> bool,
    min_x: int,
    max_x: int,
    min_y: int,
    x: int,
    y: int,
    i: int,
) -> (c: (int, int))
    requires
        0 <= i < edges_before(inside, min_x, max_x, min_y, x, y).len(),
    ensures
        borders(inside, edges_before(inside, min_x, max_x, min_y, x, y)[i], c.0, c.1),
    decreases y - min_y, x - min_x,
{
    if y >= min_y && x > min_x {
        let a = edges_before(inside, min_x, max_x, min_y, x - 1, y);
        if i < a.len() {
            lemma_borders_before(inside, min_x, max_x, min_y, x - 1, y, i)
        } else {
            lemma_cell_borders(inside, x - 1, y, i - a.len());
            (x - 1, y)
        }
    } else {
        lemma_borders_before(inside, min_x, max_x, min_y, max_x + 1, y - 1, i)
    }
}

/// The cell that an edge of the boundary belongs to.
pub(crate) proof fn lemma_borders(
    inside: spec_fn(int, int) -> bool,
    bbox: (usize, usize, usize, usize),
    i: int,
) -> (c: (int, int))
    requires
        0 <= i < boundary(inside, bbox).len(),
    ensures
        borders(inside, boundary(inside, bbox)[i], c.0, c.1),
{
    lemma_borders_before(
        inside,
        bbox.0 as int,
        bbox.2 as int,
        bbox.1 as int,
        bbox.0 as int,
        bbox.3 + 1,
        i,
    )
}

/// The sides between `(x, y)` and its right and lower neighbours are on the boundary, each in
/// its direction, only where the region ends there.
proof fn lemma_side(
    inside: spec_fn(int, int) -> bool,
    bbox: (usize, usize, usize, usize),
    x: int,
    y: int,
    i: int,
)
    requires
        covers(bbox, inside),
        on_grid(bbox),
        -1 <= x < i32::MAX,
        -1 <= y < i32::MAX,
        0 <= i < boundary(inside, bbox).len(),
    ensures
        ({
            let e = boundary(inside, bbox)[i];
            &&& e == right(x, y) ==> inside(x, y) && !inside(x + 1, y)
            &&& e == left(x + 1, y) ==> inside(x + 1, y) && !inside(x, y)
            &&& e == lower(x, y) ==> inside(x, y) && !inside(x, y + 1)
            &&& e == upper(x, y + 1) ==> inside(x, y + 1) && !inside(x, y)
        }),
{
    let (a, b) = lemma_borders(inside, bbox, i);
    assert(inside(a, b));
}

/// The corners of the boundary lie on the lattice of the box.
proof fn lemma_corner_range(
    inside: spec_fn(int, int) -> bool,
    bbox: (usize, usize, usize, usize),
    i: int,
)
    requires
        covers(bbox, inside),
        on_grid(bbox),
        0 <= i < boundary(inside, bbox).len(),
    ensures
        ({
            let e = boundary(inside, bbox)[i];
            &&& 0 <= e.0.0 <= bbox.2 + 1
            &&& 0 <= e.0.1 <= bbox.3 + 1
            &&& 0 <= e.1.0 <= bbox.2 + 1
            &&& 0 <= e.1.1 <= bbox.3 + 1
        }),
{
    let (a, b) = lemma_borders(inside, bbox, i);
    assert(inside(a, b));
}

/// One for edge `g`, nothing for others.
pub open spec fn tally(g: Edge) -> spec_fn(Edge) -> int {
    |e: Edge|
        if e == g {
            1
        } else {
            0
        }
}

/// How often a trail takes edge `g`.
pub open spec fn taken(edges: Seq<Edge>, t: Seq<int>, g: Edge) -> int {
    over_trail(edges, t, tally(g))
}

/// What an edge adds to `phi` between its ends.
spec fn rise(phi: spec_fn(Pt) -> int) -> spec_fn(Edge) -> int {
    |e: Edge| phi(e.1) - phi(e.0)
}

pub(crate) proof fn lemma_taken(edges: Seq<Edge>, t: Seq<int>, g: Edge)
    ensures
        taken(edges, t, g) >= 0,
        forall|i: int| 0 <= i < t.len() && edges[#[trigger] t[i]] == g ==> taken(edges, t, g) >= 1,
        (forall|i: int| 0 <= i < t.len() ==> edges[#[trigger] t[i]] != g) ==> taken(edges, t, g)
            == 0,
    decreases t.len(),
{
    if t.len() > 0 {
        let s = t.drop_last();
        lemma_taken(edges, s, g);
        assert forall|i: int| 0 <= i < t.len() && edges[#[trigger] t[i]] == g implies taken(
            edges,
            t,
            g,
        ) >= 1 by {
            if i < s.len() {
                assert(s[i] == t[i]);
            }
        }
        if forall|i: int| 0 <= i < t.len() ==> edges[#[trigger] t[i]] != g {
            assert forall|i: int| 0 <= i < s.len() implies edges[#[trigger] s[i]] != g by {
                assert(s[i] == t[i]);
            }
            assert(edges[t[t.len() - 1]] != g);
        }
    }
}

/// What rises along a trail is the difference between its ends.
proof fn lemma_rise(edges: Seq<Edge>, t: Seq<int>, phi: spec_fn(Pt) -> int)
    requires
        t.len() > 0,
        chained(edges, t),
    ensures
        over_trail(edges, t, rise(phi)) == phi(edges[t.last()].1) - phi(edges[t[0]].0),
    decreases t.len(),
{
    let s = t.drop_last();
    if s.len() > 0 {
        assert forall|i: int, j: int| 0 <= i && j == i + 1 && j < s.len() implies edges[
            #[trigger] s[i]].1 == edges[#[trigger] s[j]].0 by {
            assert(s[i] == t[i] && s[j] == t[j]);
        }
        lemma_rise(edges, s, phi);
        assert(edges[t[t.len() - 2]].1 == edges[t[t.len() - 1]].0);
    } else {
        assert(over_trail(edges, s, rise(phi)) == 0);
    }
}

/// `f` exceeds `g` by one on edge `a`, falls behind by one on edge `b`, and else differs by what
/// `phi` rises.
spec fn differs(
    f: spec_fn(Edge) -> int,
    g: spec_fn(Edge) -> int,
    a: Edge,
    b: Edge,
    phi: spec_fn(Pt) -> int,
    e: Edge,
) -> bool {
    f(e) == g(e) + tally(a)(e) - tally(b)(e) + rise(phi)(e)
}

proof fn lemma_differs(
    edges: Seq<Edge>,
    t: Seq<int>,
    f: spec_fn(Edge) -> int,
    g: spec_fn(Edge) -> int,
    a: Edge,
    b: Edge,
    phi: spec_fn(Pt) -> int,
)
    requires
        forall|i: int| 0 <= i < t.len() ==> differs(f, g, a, b, phi, edges[#[trigger] t[i]]),
    ensures
        over_trail(edges, t, f) == over_trail(edges, t, g) + taken(edges, t, a) - taken(
            edges,
            t,
            b,
        ) + over_trail(edges, t, rise(phi)),
    decreases t.len(),
{
    if t.len() > 0 {
        let s = t.drop_last();
        assert forall|i: int| 0 <= i < s.len() implies differs(
            f,
            g,
            a,
            b,
            phi,
            edges[#[trigger] s[i]],
        ) by {
            assert(s[i] == t[i]);
        }
        lemma_differs(edges, s, f, g, a, b, phi);
        assert(differs(f, g, a, b, phi, edges[t[t.len() - 1]]));
    }
}

/// How often a closed trail winds round cell `(x, y)`.
pub open spec fn turns(edges: Seq<Edge>, t: Seq<int>, x: int, y: int) -> int {
    over_trail(edges, t, of_edge(crossing(x, y)))
}

/// From a cell to its right neighbour the winding changes by the edges between them.
pub(crate) proof fn lemma_step_right(edges: Seq<Edge>, t: Seq<int>, x: int, y: int)
    requires
        in_range(edges, t),
        all_unit(edges),
        -1 <= x < i32::MAX,
        -1 <= y < i32::MAX,
    ensures
        turns(edges, t, x, y) == turns(edges, t, x + 1, y) + taken(edges, t, right(x, y)) - taken(
            edges,
            t,
            left(x + 1, y),
        ),
{
    let phi = |p: Pt| 0int;
    let (f, g) = (of_edge(crossing(x, y)), of_edge(crossing(x + 1, y)));
    let (a, b) = (right(x, y), left(x + 1, y));
    assert forall|i: int| 0 <= i < t.len() implies differs(
        f,
        g,
        a,
        b,
        phi,
        edges[#[trigger] t[i]],
    ) by {
        let e = edges[t[i]];
        assert(one_apart(e.0, e.1));
    }
    lemma_differs(edges, t, f, g, a, b, phi);
    lemma_flat(edges, t);
}

proof fn lemma_flat(edges: Seq<Edge>, t: Seq<int>)
    ensures
        over_trail(edges, t, rise(|p: Pt| 0int)) == 0,
    decreases t.len(),
{
    if t.len() > 0 {
        lemma_flat(edges, t.drop_last());
    }
}

/// From a cell to its lower neighbour the winding changes by the edges between them.
pub(crate) proof fn lemma_step_down(edges: Seq<Edge>, t: Seq<int>, x: int, y: int)
    requires
        in_range(edges, t),
        chained(edges, t),
        closes(edges, t),
        all_unit(edges),
        -1 <= x < i32::MAX,
        -1 <= y < i32::MAX,
    ensures
        turns(edges, t, x, y) == turns(edges, t, x, y + 1) + taken(edges, t, lower(x, y)) - taken(
            edges,
            t,
            upper(x, y + 1),
        ),
{
    let phi = |p: Pt|
        if p.0 > x && p.1 == y + 1 {
            1int
        } else {
            0int
        };
    let (f, g) = (of_edge(crossing(x, y)), of_edge(crossing(x, y + 1)));
    let (a, b) = (lower(x, y), upper(x, y + 1));
    assert forall|i: int| 0 <= i < t.len() implies differs(
        f,
        g,
        a,
        b,
        phi,
        edges[#[trigger] t[i]],
    ) by {
        let e = edges[t[i]];
        assert(one_apart(e.0, e.1));
    }
    lemma_differs(edges, t, f, g, a, b, phi);
    lemma_rise(edges, t, phi);
}

/// A trail along the boundary of a region.
pub open spec fn contour_trail(
    inside: spec_fn(int, int) -> bool,
    bbox: (usize, usize, usize, usize),
    t: Seq<int>,
) -> bool {
    let edges = boundary(inside, bbox);
    &&& covers(bbox, inside)
    &&& on_grid(bbox)
    &&& all_unit(edges)
    &&& t.len() > 0
    &&& in_range(edges, t)
    &&& chained(edges, t)
    &&& closes(edges, t)
}

/// How the winding changes between neighbours where the region goes on or ends: it stays the
/// same, or does not fall on the way in.
spec fn steps(a: bool, b: bool, from: int, to: int) -> bool {
    &&& a == b ==> from == to
    &&& a && !b ==> from >= to
    &&& !a && b ==> from <= to
}

proof fn lemma_steps_right(
    inside: spec_fn(int, int) -> bool,
    bbox: (usize, usize, usize, usize),
    t: Seq<int>,
    x: int,
    y: int,
)
    requires
        contour_trail(inside, bbox, t),
        -1 <= x < i32::MAX,
        -1 <= y < i32::MAX,
    ensures
        steps(
            inside(x, y),
            inside(x + 1, y),
            turns(boundary(inside, bbox), t, x, y),
            turns(boundary(inside, bbox), t, x + 1, y),
        ),
{
    let edges = boundary(inside, bbox);
    lemma_step_right(edges, t, x, y);
    lemma_taken(edges, t, right(x, y));
    lemma_taken(edges, t, left(x + 1, y));
    assert forall|i: int| 0 <= i < t.len() implies {
        let e = edges[#[trigger] t[i]];
        &&& e == right(x, y) ==> inside(x, y) && !inside(x + 1, y)
        &&& e == left(x + 1, y) ==> inside(x + 1, y) && !inside(x, y)
    } by {
        lemma_side(inside, bbox, x, y, t[i]);
    }
}

proof fn lemma_steps_down(
    inside: spec_fn(int, int) -> bool,
    bbox: (usize, usize, usize, usize),
    t: Seq<int>,
    x: int,
    y: int,
)
    requires
        contour_trail(inside, bbox, t),
        -1 <= x < i32::MAX,
        -1 <= y < i32::MAX,
    ensures
        steps(
            inside(x, y),
            inside(x, y + 1),
            turns(boundary(inside, bbox), t, x, y),
            turns(boundary(inside, bbox), t, x, y + 1),
        ),
{
    let edges = boundary(inside, bbox);
    lemma_step_down(edges, t, x, y);
    lemma_taken(edges, t, lower(x, y));
    lemma_taken(edges, t, upper(x, y + 1));
    assert forall|i: int| 0 <= i < t.len() implies {
        let e = edges[#[trigger] t[i]];
        &&& e == lower(x, y) ==> inside(x, y) && !inside(x, y + 1)
        &&& e == upper(x, y + 1) ==> inside(x, y + 1) && !inside(x, y)
    } by {
        lemma_side(inside, bbox, x, y, t[i]);
    }
}

proof fn lemma_no_turns(edges: Seq<Edge>, t: Seq<int>, x: int, y: int)
    requires
        forall|i: int|
            0 <= i < t.len() ==> of_edge(crossing(x, y))(edges[#[trigger] t[i]]) == 0,
    ensures
        turns(edges, t, x, y) == 0,
    decreases t.len(),
{
    if t.len() > 0 {
        let s = t.drop_last();
        assert forall|i: int| 0 <= i < s.len() implies of_edge(crossing(x, y))(
            edges[#[trigger] s[i]],
        ) == 0 by {
            assert(s[i] == t[i]);
        }
        lemma_no_turns(edges, s, x, y);
        assert(of_edge(crossing(x, y))(edges[t[t.len() - 1]]) == 0);
    }
}

/// A trail does not wind round cells outside the box.
pub(crate) proof fn lemma_turns_outside_box(
    inside: spec_fn(int, int) -> bool,
    bbox: (usize, usize, usize, usize),
    t: Seq<int>,
    x: int,
    y: int,
)
    requires
        contour_trail(inside, bbox, t),
        !(0 <= x <= bbox.2 && 0 <= y <= bbox.3),
    ensures
        turns(boundary(inside, bbox), t, x, y) == 0,
{
    let edges = boundary(inside, bbox);
    assert forall|i: int| 0 <= i < t.len() implies {
        let e = edges[#[trigger] t[i]];
        &&& 0 <= e.0.0 <= bbox.2 + 1
        &&& 0 <= e.0.1 <= bbox.3 + 1
        &&& 0 <= e.1.0 <= bbox.2 + 1
        &&& 0 <= e.1.1 <= bbox.3 + 1
        &&& one_apart(e.0, e.1)
    } by {
        lemma_corner_range(inside, bbox, t[i]);
    }
    if x < 0 {
        let phi = |p: Pt| below(p, y);
        let g = |e: Edge| 0int;
        let none = ((0i32, 0i32), (0i32, 0i32));
        let f = of_edge(crossing(x, y));
        assert forall|i: int| 0 <= i < t.len() implies differs(
            f,
            g,
            none,
            none,
            phi,
            edges[#[trigger] t[i]],
        ) by {}
        lemma_differs(edges, t, f, g, none, none, phi);
        lemma_rise(edges, t, phi);
        lemma_nothing(edges, t);
    } else {
        lemma_no_turns(edges, t, x, y);
    }
}

proof fn lemma_nothing(edges: Seq<Edge>, t: Seq<int>)
    ensures
        over_trail(edges, t, |e: Edge| 0int) == 0,
    decreases t.len(),
{
    if t.len() > 0 {
        lemma_nothing(edges, t.drop_last());
    }
}

/// A trail does not wind round a cell from which the way to the right is clear.
pub(crate) proof fn lemma_turns_in_the_clear(
    inside: spec_fn(int, int) -> bool,
    bbox: (usize, usize, usize, usize),
    t: Seq<int>,
    x: int,
    y: int,
)
    requires
        contour_trail(inside, bbox, t),
        0 <= x,
        -1 <= y < i32::MAX,
        forall|a: int| x <= a ==> !#[trigger] inside(a, y),
    ensures
        turns(boundary(inside, bbox), t, x, y) == 0,
    decreases bbox.2 + 1 - x,
{
    if x > bbox.2 {
        lemma_turns_outside_box(inside, bbox, t, x, y);
    } else {
        lemma_turns_in_the_clear(inside, bbox, t, x + 1, y);
        lemma_steps_right(inside, bbox, t, x, y);
        assert(!inside(x, y) && !inside(x + 1, y));
    }
}

/// Every loop winds at least as often by `m` as by `n`.
spec fn dominates(
    m: spec_fn(Pt, Pt) -> int,
    n: spec_fn(Pt, Pt) -> int,
    loops: Seq<Seq<Pt>>,
) -> bool {
    forall|j: int|
        0 <= j < loops.len() ==> sides_upto(m, #[trigger] loops[j], loops[j].len() as int)
            >= sides_upto(n, loops[j], loops[j].len() as int)
}

/// No loop makes a larger difference than all of them together.
proof fn lemma_share(
    m: spec_fn(Pt, Pt) -> int,
    n: spec_fn(Pt, Pt) -> int,
    loops: Seq<Seq<Pt>>,
    k: int,
)
    requires
        dominates(m, n, loops),
        0 <= k <= loops.len(),
    ensures
        over_sides(m, loops) >= over_sides(n, loops),
        k < loops.len() ==> sides_upto(m, loops[k], loops[k].len() as int) - sides_upto(
            n,
            loops[k],
            loops[k].len() as int,
        ) <= over_sides(m, loops) - over_sides(n, loops),
    decreases loops.len(),
{
    if loops.len() > 0 {
        let rest = loops.drop_first();
        assert forall|j: int| 0 <= j < rest.len() implies sides_upto(
            m,
            #[trigger] rest[j],
            rest[j].len() as int,
        ) >= sides_upto(n, rest[j], rest[j].len() as int) by {
            assert(rest[j] == loops[j + 1]);
        }
        assert(sides_upto(m, loops[0], loops[0].len() as int) >= sides_upto(
            n,
            loops[0],
            loops[0].len() as int,
        ));
        if k == 0 {
            lemma_share(m, n, rest, 0);
        } else {
            lemma_share(m, n, rest, k - 1);
            assert(k < loops.len() ==> rest[k - 1] == loops[k]);
        }
    }
}

/// Cells `(a, b)` and `(x, y)` share a side.
pub open spec fn neighbours(a: int, b: int, x: int, y: int) -> bool {
    ||| b == y && (x == a + 1 || x == a - 1)
    ||| a == x && (y == b + 1 || y == b - 1)
}

/// On the way into the region a loop winds once more, or as often as before.
pub(crate) proof fn lemma_way_in(
    inside: spec_fn(int, int) -> bool,
    bbox: (usize, usize, usize, usize),
    k: int,
    a: int,
    b: int,
    x: int,
    y: int,
)
    requires
        covers(bbox, inside),
        on_grid(bbox),
        0 <= k < all_trails(boundary(inside, bbox)).len(),
        neighbours(a, b, x, y),
        inside(a, b),
        !inside(x, y),
    ensures
        ({
            let edges = boundary(inside, bbox);
            let t = all_trails(edges)[k];
            0 <= turns(edges, t, a, b) - turns(edges, t, x, y) <= 1
        }),
{
    let edges = boundary(inside, bbox);
    let loops = outlines(edges);
    let (m, n) = (crossing(a, b), crossing(x, y));
    assert forall|j: int| 0 <= j < loops.len() implies ({
        let t = all_trails(edges)[j];
        &&& turns(edges, t, a, b) >= turns(edges, t, x, y)
        &&& sides_upto(m, #[trigger] loops[j], loops[j].len() as int) == turns(edges, t, a, b)
        &&& sides_upto(n, loops[j], loops[j].len() as int) == turns(edges, t, x, y)
    }) by {
        let t = all_trails(edges)[j];
        lemma_traced(inside, bbox, j);
        lemma_traced_sides(inside, bbox, j);
        assert(contour_trail(inside, bbox, t));
        if x == a + 1 {
            lemma_steps_right(inside, bbox, t, a, b);
        } else if x == a - 1 {
            lemma_steps_right(inside, bbox, t, x, y);
        } else if y == b + 1 {
            lemma_steps_down(inside, bbox, t, a, b);
        } else {
            lemma_steps_down(inside, bbox, t, x, y);
        }
    }
    assert(dominates(m, n, loops));
    lemma_share(m, n, loops, k);
    law_contours_wind_round_the_region(inside, bbox, a, b);
    law_contours_wind_round_the_region(inside, bbox, x, y);
}

/// Round an outside cell a loop winds as round the inside cells, once less, or not at all.
proof fn lemma_turns_outside(
    inside: spec_fn(int, int) -> bool,
    bbox: (usize, usize, usize, usize),
    k: int,
    common: int,
    x: int,
    y: int,
)
    requires
        covers(bbox, inside),
        on_grid(bbox),
        0 <= k < all_trails(boundary(inside, bbox)).len(),
        forall|a: int, b: int| #[trigger]
            inside(a, b) ==> turns(
                boundary(inside, bbox),
                all_trails(boundary(inside, bbox))[k],
                a,
                b,
            ) == common,
        !inside(x, y),
        0 <= x,
        0 <= y < i32::MAX,
    ensures
        ({
            let edges = boundary(inside, bbox);
            let c = turns(edges, all_trails(edges)[k], x, y);
            c == common || c == common - 1 || c == 0
        }),
    decreases bbox.2 + 1 - x,
{
    let t = all_trails(boundary(inside, bbox))[k];
    lemma_traced(inside, bbox, k);
    assert(contour_trail(inside, bbox, t));
    if x > bbox.2 {
        lemma_turns_outside_box(inside, bbox, t, x, y);
    } else if inside(x + 1, y) {
        lemma_way_in(inside, bbox, k, x + 1, y, x, y);
    } else {
        lemma_turns_outside(inside, bbox, k, common, x + 1, y);
        lemma_steps_right(inside, bbox, t, x, y);
    }
}

/// The sum of `h` over the first `n` cells of row `y`.
spec fn row_sum(h: spec_fn(int, int) -> int, n: int, y: int) -> int
    decreases n,
{
    if n <= 0 {
        0
    } else {
        row_sum(h, n - 1, y) + h(n - 1, y)
    }
}

/// The sum of `h` over the first `n` cells of the first `m` rows.
spec fn box_sum(h: spec_fn(int, int) -> int, n: int, m: int) -> int
    decreases m,
{
    if m <= 0 {
        0
    } else {
        box_sum(h, n, m - 1) + row_sum(h, n, m - 1)
    }
}

proof fn lemma_row_sum_adds(
    f: spec_fn(int, int) -> int,
    g: spec_fn(int, int) -> int,
    h: spec_fn(int, int) -> int,
    n: int,
    y: int,
)
    requires
        forall|x: int| 0 <= x < n ==> #[trigger] f(x, y) == g(x, y) + h(x, y),
    ensures
        row_sum(f, n, y) == row_sum(g, n, y) + row_sum(h, n, y),
    decreases n,
{
    if n > 0 {
        lemma_row_sum_adds(f, g, h, n - 1, y);
        assert(f(n - 1, y) == g(n - 1, y) + h(n - 1, y));
    }
}

proof fn lemma_box_sum_adds(
    f: spec_fn(int, int) -> int,
    g: spec_fn(int, int) -> int,
    h: spec_fn(int, int) -> int,
    n: int,
    m: int,
)
    requires
        forall|x: int, y: int|
            0 <= x < n && 0 <= y < m ==> #[trigger] f(x, y) == g(x, y) + h(x, y),
    ensures
        box_sum(f, n, m) == box_sum(g, n, m) + box_sum(h, n, m),
    decreases m,
{
    if m > 0 {
        lemma_box_sum_adds(f, g, h, n, m - 1);
        lemma_row_sum_adds(f, g, h, n, m - 1);
    }
}

proof fn lemma_row_sum_grows(h: spec_fn(int, int) -> int, n: int, y: int, x: int)
    requires
        forall|a: int| 0 <= a < n ==> #[trigger] h(a, y) >= 0,
        0 <= x < n ==> h(x, y) > 0,
    ensures
        row_sum(h, n, y) >= 0,
        0 <= x < n ==> row_sum(h, n, y) > 0,
    decreases n,
{
    if n > 0 {
        lemma_row_sum_grows(h, n - 1, y, x);
        assert(h(n - 1, y) >= 0);
    }
}

/// A sum of numbers that are not negative, one of them positive, is positive.
proof fn lemma_box_sum_positive(h: spec_fn(int, int) -> int, n: int, m: int, x: int, y: int)
    requires
        forall|a: int, b: int| 0 <= a < n && 0 <= b < m ==> #[trigger] h(a, b) >= 0,
        0 <= x < n,
        0 <= y < m ==> h(x, y) > 0,
    ensures
        box_sum(h, n, m) >= 0,
        0 <= y < m ==> box_sum(h, n, m) > 0,
    decreases m,
{
    if m > 0 {
        lemma_box_sum_positive(h, n, m - 1, x, y);
        lemma_row_sum_grows(
            h,
            n,
            m - 1,
            if y == m - 1 {
                x
            } else {
                n
            },
        );
    }
}

/// What the winding numbers of an edge add up to: a downward edge counts the cells to its left,
/// an upward one takes them away.
spec fn lift() -> spec_fn(Edge) -> int {
    |e: Edge|
        if e.0.0 != e.1.0 {
            0
        } else if e.1.1 > e.0.1 {
            e.0.0 as int
        } else {
            -e.0.0
        }
}

/// How edge `e` crosses the rays of the cells.
spec fn crossings(e: Edge) -> spec_fn(int, int) -> int {
    |x: int, y: int| of_edge(crossing(x, y))(e)
}

proof fn lemma_row_crossings(e: Edge, n: int, y: int)
    requires
        one_apart(e.0, e.1),
        0 <= e.0.0,
        0 <= n,
    ensures
        row_sum(crossings(e), n, y) == if e.0.0 != e.1.0 || below(e.0, y) == below(e.1, y) {
            0
        } else {
            let m = if n < e.0.0 {
                n
            } else {
                e.0.0 as int
            };
            if e.1.1 > e.0.1 {
                m
            } else {
                -m
            }
        },
    decreases n,
{
    if n > 0 {
        lemma_row_crossings(e, n - 1, y);
    }
}

proof fn lemma_box_crossings(e: Edge, n: int, m: int)
    requires
        one_apart(e.0, e.1),
        0 <= e.0.0 <= n,
        0 <= e.0.1,
        0 <= e.1.1,
        0 <= m,
    ensures
        box_sum(crossings(e), n, m) == if e.0.1 < m || e.1.1 < m {
            lift()(e)
        } else {
            0
        },
    decreases m,
{
    if m > 0 {
        lemma_box_crossings(e, n, m - 1);
        lemma_row_crossings(e, n, m - 1);
    }
}

/// The winding numbers of a trail, cell by cell.
spec fn turning(edges: Seq<Edge>, t: Seq<int>) -> spec_fn(int, int) -> int {
    |x: int, y: int| turns(edges, t, x, y)
}

proof fn lemma_box_zero(h: spec_fn(int, int) -> int, n: int, m: int)
    requires
        forall|x: int, y: int| 0 <= x < n && 0 <= y < m ==> #[trigger] h(x, y) == 0,
    ensures
        box_sum(h, n, m) == 0,
{
    lemma_box_sum_adds(h, h, h, n, m);
}

/// Edges within the lattice of `n` by `m` cells.
spec fn within(edges: Seq<Edge>, t: Seq<int>, n: int, m: int) -> bool {
    forall|i: int|
        0 <= i < t.len() ==> {
            let e = edges[#[trigger] t[i]];
            &&& one_apart(e.0, e.1)
            &&& 0 <= e.0.0 <= n
            &&& 0 <= e.0.1 <= m
            &&& 0 <= e.1.0 <= n
            &&& 0 <= e.1.1 <= m
        }
}

proof fn lemma_turning_lift(edges: Seq<Edge>, t: Seq<int>, n: int, m: int)
    requires
        0 <= n,
        0 <= m,
        within(edges, t, n, m),
    ensures
        box_sum(turning(edges, t), n, m) == over_trail(edges, t, lift()),
    decreases t.len(),
{
    if t.len() == 0 {
        lemma_box_zero(turning(edges, t), n, m);
    } else {
        let s = t.drop_last();
        let e = edges[t.last()];
        assert(e == edges[t[t.len() - 1]]);
        assert forall|i: int| 0 <= i < s.len() implies {
            let e = edges[#[trigger] s[i]];
            &&& one_apart(e.0, e.1)
            &&& 0 <= e.0.0 <= n
            &&& 0 <= e.0.1 <= m
            &&& 0 <= e.1.0 <= n
            &&& 0 <= e.1.1 <= m
        } by {
            assert(s[i] == t[i]);
        }
        lemma_turning_lift(edges, s, n, m);
        lemma_box_crossings(e, n, m);
        lemma_box_sum_adds(turning(edges, t), turning(edges, s), crossings(e), n, m);
    }
}

proof fn lemma_sweep_lift(edges: Seq<Edge>, t: Seq<int>)
    requires
        forall|i: int|
            0 <= i < t.len() ==> one_apart(edges[#[trigger] t[i]].0, edges[t[i]].1),
    ensures
        over_trail(edges, t, of_edge(sweeps())) == 2 * over_trail(edges, t, lift()) - over_trail(
            edges,
            t,
            rise(|p: Pt| p.0 * p.1),
        ),
    decreases t.len(),
{
    if t.len() > 0 {
        let s = t.drop_last();
        assert forall|i: int| 0 <= i < s.len() implies one_apart(
            edges[#[trigger] s[i]].0,
            edges[s[i]].1,
        ) by {
            assert(s[i] == t[i]);
        }
        lemma_sweep_lift(edges, s);
        let e = edges[t[t.len() - 1]];
        assert(one_apart(e.0, e.1));
        let (a, b, c, d) = (e.0.0 as int, e.0.1 as int, e.1.0 as int, e.1.1 as int);
        assert(a == c && d == b + 1 ==> a * d - c * b == 2 * a - (c * d - a * b))
            by (nonlinear_arith);
        assert(a == c && b == d + 1 ==> a * d - c * b == -2 * a - (c * d - a * b))
            by (nonlinear_arith);
        assert(b == d ==> a * d - c * b == -(c * d - a * b)) by (nonlinear_arith);
    }
}

/// The signed area of a contour is the sum of its winding numbers.
proof fn lemma_area_by_turns(
    inside: spec_fn(int, int) -> bool,
    bbox: (usize, usize, usize, usize),
    k: int,
)
    requires
        covers(bbox, inside),
        on_grid(bbox),
        0 <= k < all_trails(boundary(inside, bbox)).len(),
    ensures
        ({
            let edges = boundary(inside, bbox);
            shoelace(outlines(edges)[k]) == 2 * box_sum(
                turning(edges, all_trails(edges)[k]),
                bbox.2 + 1,
                bbox.3 + 1,
            )
        }),
{
    let edges = boundary(inside, bbox);
    let t = all_trails(edges)[k];
    lemma_traced(inside, bbox, k);
    lemma_traced_sides(inside, bbox, k);
    assert(within(edges, t, bbox.2 + 1, bbox.3 + 1)) by {
        assert forall|i: int| 0 <= i < t.len() implies {
            let e = edges[#[trigger] t[i]];
            &&& one_apart(e.0, e.1)
            &&& 0 <= e.0.0 <= bbox.2 + 1
            &&& 0 <= e.0.1 <= bbox.3 + 1
            &&& 0 <= e.1.0 <= bbox.2 + 1
            &&& 0 <= e.1.1 <= bbox.3 + 1
        } by {
            lemma_corner_range(inside, bbox, t[i]);
        }
    }
    lemma_turning_lift(edges, t, bbox.2 + 1, bbox.3 + 1);
    lemma_sweep_lift(edges, t);
    lemma_rise(edges, t, |p: Pt| p.0 * p.1);
}

/// Between neighbours that are both inside or both outside the winding stays the same.
pub(crate) proof fn lemma_same_side(
    inside: spec_fn(int, int) -> bool,
    bbox: (usize, usize, usize, usize),
    t: Seq<int>,
    x: int,
    y: int,
)
    requires
        contour_trail(inside, bbox, t),
    ensures
        inside(x, y) == inside(x + 1, y) ==> turns(boundary(inside, bbox), t, x, y) == turns(
            boundary(inside, bbox),
            t,
            x + 1,
            y,
        ),
        inside(x, y) == inside(x, y + 1) ==> turns(boundary(inside, bbox), t, x, y) == turns(
            boundary(inside, bbox),
            t,
            x,
            y + 1,
        ),
{
    if -1 <= x <= bbox.2 && -1 <= y <= bbox.3 {
        lemma_steps_right(inside, bbox, t, x, y);
        lemma_steps_down(inside, bbox, t, x, y);
    } else {
        lemma_turns_outside_box(inside, bbox, t, x, y);
        lemma_turns_outside_box(inside, bbox, t, x + 1, y);
        lemma_turns_outside_box(inside, bbox, t, x, y + 1);
    }
}

/// Any two pixels of the label are joined by a path inside its region.
pub open spec fn is_connected(labels: Seq<u32>, w: int, label: u32) -> bool {
    forall|p: int, q: int|
        0 <= p < labels.len() && 0 <= q < labels.len() && #[trigger] labels[p] == label
            && #[trigger] labels[q] == label ==> connected(labels, w, p, q)
}

/// How a contour winds round all cells of a connected region.
pub open spec fn common_turns(
    labels: Seq<u32>,
    w: int,
    h: int,
    bbox: (usize, usize, usize, usize),
    k: int,
    p: int,
) -> int {
    let edges = boundary(region_of(labels, w, h, labels[p]), bbox);
    turns(edges, all_trails(edges)[k], p % w, p / w)
}

pub(crate) proof fn lemma_common_everywhere(
    labels: Seq<u32>,
    w: int,
    h: int,
    bbox: (usize, usize, usize, usize),
    k: int,
    p: int,
    x: int,
    y: int,
)
    requires
        w > 0,
        labels.len() == w * h,
        0 <= p < labels.len(),
        covers(bbox, region_of(labels, w, h, labels[p])),
        on_grid(bbox),
        0 <= k < all_trails(boundary(region_of(labels, w, h, labels[p]), bbox)).len(),
        is_connected(labels, w, labels[p]),
        region_of(labels, w, h, labels[p])(x, y),
    ensures
        ({
            let edges = boundary(region_of(labels, w, h, labels[p]), bbox);
            turns(edges, all_trails(edges)[k], x, y) == common_turns(labels, w, h, bbox, k, p)
        }),
{
    let inside = region_of(labels, w, h, labels[p]);
    let edges = boundary(inside, bbox);
    let t = all_trails(edges)[k];
    let c = common_turns(labels, w, h, bbox, k, p);
    lemma_traced(inside, bbox, k);
    assert(contour_trail(inside, bbox, t));
    let same = Seq::new(
        labels.len(),
        |a: int|
            if turns(edges, t, a % w, a / w) == c {
                1u32
            } else {
                0u32
            },
    );
    assert forall|a: int, b: int| #[trigger]
        adjacent(w, labels.len() as int, a, b) && labels[a] == labels[b] implies same[a]
        == same[b] by {
        let (lo, hi) = if a < b {
            (a, b)
        } else {
            (b, a)
        };
        lemma_coords(w, h, lo);
        lemma_coords(w, h, hi);
        let (u, v) = (lo % w, lo / w);
        assert(labels[v * w + u] == labels[lo]);
        assert(labels[(hi / w) * w + hi % w] == labels[hi]);
        lemma_same_side(inside, bbox, t, u, v);
        if hi == lo + 1 && hi % w != 0 {
            assert(hi == v * w + (u + 1));
            lemma_pixel_index(w, h, u + 1, v);
        } else {
            assert(hi == lo + w);
            assert(hi == (v + 1) * w + u) by (nonlinear_arith)
                requires
                    hi == v * w + u + w,
            ;
            lemma_pixel_index(w, h, u, v + 1);
        }
    }
    lemma_pixel_index(w, h, x, y);
    let q = y * w + x;
    assert(labels[q] == labels[p]);
    lemma_closed_labels(labels, w, same, p, q);
}

/// No cell of the row above the first pixel of a label carries the label.
pub(crate) proof fn lemma_above(labels: Seq<u32>, w: int, h: int, p: int, a: int)
    requires
        w > 0,
        labels.len() == w * h,
        is_first(labels, p),
        0 <= a < w,
        0 <= p / w - 1,
    ensures
        labels[(p / w - 1) * w + a] != labels[p],
{
    lemma_coords(w, h, p);
    let (x, y) = (p % w, p / w);
    lemma_pixel_index(w, h, a, y - 1);
    let q = (y - 1) * w + a;
    assert(q < p) by (nonlinear_arith)
        requires
            q == (y - 1) * w + a,
            p == y * w + x,
            a < w,
            0 <= x,
    ;
    assert(labels[q] != labels[p]);
}

/// Round the cells of a connected region a contour winds once or not at all.
pub(crate) proof fn lemma_common_range(
    labels: Seq<u32>,
    w: int,
    h: int,
    bbox: (usize, usize, usize, usize),
    k: int,
    p: int,
)
    requires
        w > 0,
        labels.len() == w * h,
        is_first(labels, p),
        covers(bbox, region_of(labels, w, h, labels[p])),
        on_grid(bbox),
        0 <= k < all_trails(boundary(region_of(labels, w, h, labels[p]), bbox)).len(),
    ensures
        0 <= common_turns(labels, w, h, bbox, k, p) <= 1,
        region_of(labels, w, h, labels[p])(p % w, p / w),
{
    let inside = region_of(labels, w, h, labels[p]);
    let t = all_trails(boundary(inside, bbox))[k];
    lemma_traced(inside, bbox, k);
    assert(contour_trail(inside, bbox, t));
    lemma_coords(w, h, p);
    let (x, y) = (p % w, p / w);
    assert(inside(x, y));
    assert forall|a: int| x <= a implies !#[trigger] inside(a, y - 1) by {
        if inside(a, y - 1) {
            lemma_above(labels, w, h, p, a);
        }
    }
    lemma_turns_in_the_clear(inside, bbox, t, x, y - 1);
    lemma_way_in(inside, bbox, k, x, y, x, y - 1);
}

/// A contour that winds round the region encloses a positive area, one that does not a negative
/// one.
pub(crate) proof fn lemma_sign_by_common(
    labels: Seq<u32>,
    w: int,
    h: int,
    bbox: (usize, usize, usize, usize),
    k: int,
    p: int,
)
    requires
        w > 0,
        labels.len() == w * h,
        is_first(labels, p),
        covers(bbox, region_of(labels, w, h, labels[p])),
        on_grid(bbox),
        0 <= k < all_trails(boundary(region_of(labels, w, h, labels[p]), bbox)).len(),
        is_connected(labels, w, labels[p]),
    ensures
        ({
            let area = shoelace(outlines(boundary(region_of(labels, w, h, labels[p]), bbox))[k]);
            if common_turns(labels, w, h, bbox, k, p) == 1 {
                area > 0
            } else {
                area < 0
            }
        }),
{
    let inside = region_of(labels, w, h, labels[p]);
    let edges = boundary(inside, bbox);
    let t = all_trails(edges)[k];
    let c = common_turns(labels, w, h, bbox, k, p);
    let (n, m) = (bbox.2 + 1, bbox.3 + 1);
    lemma_traced(inside, bbox, k);
    assert(contour_trail(inside, bbox, t));
    lemma_common_range(labels, w, h, bbox, k, p);
    assert forall|a: int, b: int| #[trigger] inside(a, b) implies turns(edges, t, a, b) == c by {
        lemma_common_everywhere(labels, w, h, bbox, k, p, a, b);
    }
    assert forall|a: int, b: int| 0 <= a < n && 0 <= b < m implies {
        let v = #[trigger] turns(edges, t, a, b);
        v == c || v == c - 1 || v == 0
    } by {
        if !inside(a, b) {
            lemma_turns_outside(inside, bbox, k, c, a, b);
        }
    }
    lemma_area_by_turns(inside, bbox, k);
    let f = turning(edges, t);
    if c == 1 {
        lemma_box_sum_positive(f, n, m, p % w, p / w);
    } else {
        let g = |a: int, b: int| -turns(edges, t, a, b);
        let zero = |a: int, b: int| 0int;
        let (u, v) = lemma_borders(inside, bbox, t[0]);
        let (x, y) = lemma_behind(inside, bbox, t, u, v);
        if !(0 <= x < n && 0 <= y < m) {
            lemma_turns_outside_box(inside, bbox, t, x, y);
        }
        lemma_box_sum_positive(g, n, m, x, y);
        lemma_box_zero(zero, n, m);
        lemma_box_sum_adds(zero, f, g, n, m);
    }
}

/// Behind the first edge of a trail the trail winds less than before it.
pub(crate) proof fn lemma_behind(
    inside: spec_fn(int, int) -> bool,
    bbox: (usize, usize, usize, usize),
    t: Seq<int>,
    u: int,
    v: int,
) -> (c: (int, int))
    requires
        contour_trail(inside, bbox, t),
        borders(inside, boundary(inside, bbox)[t[0]], u, v),
    ensures
        turns(boundary(inside, bbox), t, c.0, c.1) < turns(boundary(inside, bbox), t, u, v),
{
    let edges = boundary(inside, bbox);
    let e = edges[t[0]];
    assert(inside(u, v));
    lemma_taken(edges, t, e);
    assert(taken(edges, t, e) >= 1);
    if e == upper(u, v) && !inside(u, v - 1) {
        lemma_step_down(edges, t, u, v - 1);
        lemma_absent(inside, bbox, t, lower(u, v - 1), u, v - 1);
        (u, v - 1)
    } else if e == right(u, v) && !inside(u + 1, v) {
        lemma_step_right(edges, t, u, v);
        lemma_absent(inside, bbox, t, left(u + 1, v), u, v);
        (u + 1, v)
    } else if e == lower(u, v) && !inside(u, v + 1) {
        lemma_step_down(edges, t, u, v);
        lemma_absent(inside, bbox, t, upper(u, v + 1), u, v);
        (u, v + 1)
    } else {
        lemma_step_right(edges, t, u - 1, v);
        lemma_absent(inside, bbox, t, right(u - 1, v), u - 1, v);
        (u - 1, v)
    }
}

/// An edge that the boundary does not have is never taken.
pub(crate) proof fn lemma_absent(
    inside: spec_fn(int, int) -> bool,
    bbox: (usize, usize, usize, usize),
    t: Seq<int>,
    g: Edge,
    x: int,
    y: int,
)
    requires
        contour_trail(inside, bbox, t),
        -1 <= x < i32::MAX,
        -1 <= y < i32::MAX,
        ({
            ||| g == right(x, y) && !inside(x, y)
            ||| g == left(x + 1, y) && !inside(x + 1, y)
            ||| g == lower(x, y) && !inside(x, y)
            ||| g == upper(x, y + 1) && !inside(x, y + 1)
        }),
    ensures
        taken(boundary(inside, bbox), t, g) == 0,
{
    let edges = boundary(inside, bbox);
    lemma_taken(edges, t, g);
    assert forall|i: int| 0 <= i < t.len() implies edges[#[trigger] t[i]] != g by {
        lemma_side(inside, bbox, x, y, t[i]);
    }
}

/// Where numbers that are not negative add up to one, one of them is one and the others are zero.
proof fn lemma_one_turn(m: spec_fn(Pt, Pt) -> int, loops: Seq<Seq<Pt>>) -> (k: int)
    requires
        forall|j: int|
            0 <= j < loops.len() ==> sides_upto(m, #[trigger] loops[j], loops[j].len() as int)
                >= 0,
        over_sides(m, loops) == 1,
    ensures
        0 <= k < loops.len(),
        sides_upto(m, loops[k], loops[k].len() as int) == 1,
        forall|j: int|
            0 <= j < loops.len() && j != k ==> sides_upto(
                m,
                #[trigger] loops[j],
                loops[j].len() as int,
            ) == 0,
    decreases loops.len(),
{
    let rest = loops.drop_first();
    assert forall|j: int| 0 <= j < rest.len() implies sides_upto(
        m,
        #[trigger] rest[j],
        rest[j].len() as int,
    ) >= 0 by {
        assert(rest[j] == loops[j + 1]);
    }
    let first = sides_upto(m, loops[0], loops[0].len() as int);
    if first == 0 {
        let k = lemma_one_turn(m, rest);
        assert forall|j: int| 0 <= j < loops.len() && j != k + 1 implies sides_upto(
            m,
            #[trigger] loops[j],
            loops[j].len() as int,
        ) == 0 by {
            if j > 0 {
                assert(rest[j - 1] == loops[j]);
            }
        }
        assert(rest[k] == loops[k + 1]);
        k + 1
    } else {
        assert forall|j: int| 0 < j < loops.len() implies sides_upto(
            m,
            #[trigger] loops[j],
            loops[j].len() as int,
        ) == 0 by {
            assert(rest[j - 1] == loops[j]);
            lemma_part(m, rest, j - 1);
        }
        lemma_part(m, rest, rest.len() as int);
        0
    }
}

/// A sum of numbers that are not negative is no less than each of them.
proof fn lemma_part(m: spec_fn(Pt, Pt) -> int, loops: Seq<Seq<Pt>>, k: int)
    requires
        forall|j: int|
            0 <= j < loops.len() ==> sides_upto(m, #[trigger] loops[j], loops[j].len() as int)
                >= 0,
        0 <= k <= loops.len(),
    ensures
        over_sides(m, loops) >= 0,
        k < loops.len() ==> sides_upto(m, loops[k], loops[k].len() as int) <= over_sides(m, loops),
    decreases loops.len(),
{
    if loops.len() > 0 {
        let rest = loops.drop_first();
        assert forall|j: int| 0 <= j < rest.len() implies sides_upto(
            m,
            #[trigger] rest[j],
            rest[j].len() as int,
        ) >= 0 by {
            assert(rest[j] == loops[j + 1]);
        }
        if k == 0 {
            lemma_part(m, rest, 0);
        } else {
            lemma_part(m, rest, k - 1);
            assert(k < loops.len() ==> rest[k - 1] == loops[k]);
        }
        assert(sides_upto(m, loops[0], loops[0].len() as int) >= 0);
    }
}

/// Loop `k` encloses a positive area and all others a negative one.
pub open spec fn one_outer(loops: Seq<Seq<Pt>>, k: int) -> bool {
    &&& 0 <= k < loops.len()
    &&& shoelace(loops[k]) > 0
    &&& forall|j: int| 0 <= j < loops.len() && j != k ==> shoelace(#[trigger] loops[j]) < 0
}

/// A connected region has exactly one loop of positive winding, its outer one; all others, which
/// go round its holes, have the opposite winding.
pub proof fn law_holes_wind_the_other_way(
    labels: Seq<u32>,
    w: int,
    h: int,
    label: u32,
    bbox: (usize, usize, usize, usize),
)
    requires
        w >= 0,
        h >= 0,
        labels.len() == w * h,
        labels.contains(label),
        is_connected(labels, w, label),
        covers(bbox, region_of(labels, w, h, label)),
        box_fits(w, h, bbox),
    ensures
        exists|k: int| one_outer(outlines(boundary(region_of(labels, w, h, label), bbox)), k),
{
    let inside = region_of(labels, w, h, label);
    let edges = boundary(inside, bbox);
    let loops = outlines(edges);
    assert(w > 0) by (nonlinear_arith)
        requires
            w >= 0,
            w * h > 0,
    ;
    let q = choose|q: int| 0 <= q < labels.len() && labels[q] == label;
    let p = lemma_first_place(labels, q);
    lemma_coords(w, h, p);
    let (x, y) = (p % w, p / w);
    assert(inside(x, y));
    assert(on_grid(bbox));
    let m = crossing(x, y);
    assert forall|j: int| 0 <= j < loops.len() implies ({
        let c = common_turns(labels, w, h, bbox, j, p);
        &&& sides_upto(m, #[trigger] loops[j], loops[j].len() as int) == c
        &&& 0 <= c <= 1
        &&& c == 1 ==> shoelace(loops[j]) > 0
        &&& c == 0 ==> shoelace(loops[j]) < 0
    }) by {
        lemma_traced_sides(inside, bbox, j);
        lemma_common_range(labels, w, h, bbox, j, p);
        lemma_sign_by_common(labels, w, h, bbox, j, p);
    }
    law_contours_wind_round_the_region(inside, bbox, x, y);
    assert(winding(loops, x, y) == 1);
    let k = lemma_one_turn(m, loops);
    assert(one_outer(loops, k));
}

} // verus!
