//! Boundary extraction — trace the outline of a labeled region into closed
//! integer polygons on the pixel-corner lattice.
//!
//! Every unit edge that separates an "inside" cell from an "outside" cell is
//! collected, oriented so the interior is always on the right, and those edges
//! are stitched into loops. A solid region yields one loop; a region with holes
//! yields one outer loop plus one loop per hole, with opposite winding — exactly
//! what the nonzero fill rule needs to punch the holes out.

use std::collections::HashMap;
use vstd::prelude::*;

use crate::grid::lemma_pixel_index;

verus! {

/// A corner of the pixel lattice.
pub type Pt = (i32, i32);

/// A directed lattice edge.
pub type Edge = (Pt, Pt);

/// The cells that carry `label`; outside the image there are none.
pub open spec fn region_of(labels: Seq<u32>, w: int, h: int, label: u32) -> spec_fn(
    int,
    int,
) -> bool {
    |x: int, y: int| 0 <= x < w && 0 <= y < h && labels[y * w + x] == label
}

/// `e` alone if `present`, else nothing.
pub open spec fn optional(present: bool, e: Edge) -> Seq<Edge> {
    if present {
        seq![e]
    } else {
        Seq::empty()
    }
}

/// The upper side of cell `(x, y)`, left to right.
pub open spec fn upper(x: int, y: int) -> Edge {
    ((x as i32, y as i32), ((x + 1) as i32, y as i32))
}

/// The right side of cell `(x, y)`, downwards.
pub open spec fn right(x: int, y: int) -> Edge {
    (((x + 1) as i32, y as i32), ((x + 1) as i32, (y + 1) as i32))
}

/// The lower side of cell `(x, y)`, right to left.
pub open spec fn lower(x: int, y: int) -> Edge {
    (((x + 1) as i32, (y + 1) as i32), (x as i32, (y + 1) as i32))
}

/// The left side of cell `(x, y)`, upwards.
pub open spec fn left(x: int, y: int) -> Edge {
    ((x as i32, (y + 1) as i32), (x as i32, y as i32))
}

/// The sides of cell `(x, y)` that lie on the boundary of `inside`, clockwise from the top.
pub open spec fn cell_edges(inside: spec_fn(int, int) -> bool, x: int, y: int) -> Seq<Edge> {
    if inside(x, y) {
        optional(!inside(x, y - 1), upper(x, y)) + optional(!inside(x + 1, y), right(x, y))
            + optional(!inside(x, y + 1), lower(x, y)) + optional(!inside(x - 1, y), left(x, y))
    } else {
        Seq::empty()
    }
}

/// The boundary edges of the cells of the box that precede cell `(x, y)` in raster order.
pub open spec fn edges_before(
    inside: spec_fn(int, int) -> bool,
    min_x: int,
    max_x: int,
    min_y: int,
    x: int,
    y: int,
) -> Seq<Edge>
    decreases y - min_y, x - min_x,
{
    if y < min_y {
        Seq::empty()
    } else if x > min_x {
        edges_before(inside, min_x, max_x, min_y, x - 1, y) + cell_edges(inside, x - 1, y)
    } else if y > min_y {
        edges_before(inside, min_x, max_x, min_y, max_x + 1, y - 1)
    } else {
        Seq::empty()
    }
}

/// The boundary edges of the cells of the box, in raster order of the cells.
pub open spec fn boundary(
    inside: spec_fn(int, int) -> bool,
    bbox: (usize, usize, usize, usize),
) -> Seq<Edge> {
    edges_before(
        inside,
        bbox.0 as int,
        bbox.2 as int,
        bbox.1 as int,
        bbox.0 as int,
        bbox.3 + 1,
    )
}

/// The sign of `v`.
pub open spec fn sign(v: int) -> int {
    if v > 0 {
        1
    } else if v < 0 {
        -1
    } else {
        0
    }
}

/// The direction from `a` to `b`, per axis.
pub open spec fn direction(a: Pt, b: Pt) -> (int, int) {
    (sign(b.0 - a.0), sign(b.1 - a.1))
}

/// How welcome edge `f` is after edge `e`: a right turn before straight on before a left
/// turn before turning back.
pub open spec fn turn(e: Edge, f: Edge) -> int {
    let din = direction(e.0, e.1);
    let d = direction(f.0, f.1);
    let cross = din.0 * d.1 - din.1 * d.0;
    let dot = din.0 * d.0 + din.1 * d.1;
    if cross > 0 {
        0
    } else if cross == 0 && dot > 0 {
        1
    } else if cross < 0 {
        2
    } else {
        3
    }
}

/// Edge `f` is still unused and starts where edge `e` ends.
pub open spec fn continues(edges: Seq<Edge>, used: Seq<bool>, e: int, f: int) -> bool {
    0 <= f < edges.len() && !used[f] && edges[f].0 == edges[e].1
}

/// Edge `f` is the one to take after edge `e`: of those that continue it the most welcome
/// one, and of equally welcome ones the first.
pub open spec fn is_next(edges: Seq<Edge>, used: Seq<bool>, e: int, f: int) -> bool {
    &&& continues(edges, used, e, f)
    &&& forall|g: int| #[trigger]
        continues(edges, used, e, g) ==> turn(edges[e], edges[f]) < turn(edges[e], edges[g]) || (
        turn(edges[e], edges[f]) == turn(edges[e], edges[g]) && f <= g)
}

/// How many edges are still unused.
pub open spec fn unused(used: Seq<bool>) -> nat
    decreases used.len(),
{
    if used.len() == 0 {
        0
    } else {
        unused(used.drop_last()) + if used.last() {
            0nat
        } else {
            1nat
        }
    }
}

pub proof fn lemma_unused_mark(used: Seq<bool>, e: int)
    requires
        0 <= e < used.len(),
        !used[e],
    ensures
        unused(used.update(e, true)) + 1 == unused(used),
    decreases used.len(),
{
    if e == used.len() - 1 {
        assert(used.update(e, true).drop_last() =~= used.drop_last());
    } else {
        assert(used.update(e, true).drop_last() =~= used.drop_last().update(e, true));
        lemma_unused_mark(used.drop_last(), e);
    }
}

/// The edges walked from edge `cur` on until a corner `home` is reached again or no edge
/// continues the walk.
pub open spec fn trail(edges: Seq<Edge>, used: Seq<bool>, home: Pt, cur: int) -> Seq<int>
    decreases unused(used),
{
    if 0 <= cur < used.len() && !used[cur] {
        proof {
            lemma_unused_mark(used, cur);
        }
        let now = used.update(cur, true);
        if edges[cur].1 == home || !exists|f: int| is_next(edges, now, cur, f) {
            seq![cur]
        } else {
            seq![cur] + trail(edges, now, home, choose|f: int| is_next(edges, now, cur, f))
        }
    } else {
        Seq::empty()
    }
}

/// `used` with the edges of a trail marked too.
pub open spec fn marked(used: Seq<bool>, t: Seq<int>) -> Seq<bool> {
    Seq::new(used.len(), |e: int| used[e] || t.contains(e))
}

/// The trails that use up all edges from edge `e` on, each begun at the first unused edge.
pub open spec fn trails(edges: Seq<Edge>, used: Seq<bool>, e: int) -> Seq<Seq<int>>
    decreases edges.len() - e,
{
    if e < 0 || e >= edges.len() {
        Seq::empty()
    } else if used[e] {
        trails(edges, used, e + 1)
    } else {
        let t = trail(edges, used, edges[e].0, e);
        seq![t] + trails(edges, marked(used, t), e + 1)
    }
}

/// No edge used.
pub open spec fn fresh(n: nat) -> Seq<bool> {
    Seq::new(n, |i: int| false)
}

/// All trails through `edges`.
pub open spec fn all_trails(edges: Seq<Edge>) -> Seq<Seq<int>> {
    trails(edges, fresh(edges.len()), 0)
}

/// The corners at which the edges of a trail start.
pub open spec fn corners(edges: Seq<Edge>, t: Seq<int>) -> Seq<Pt> {
    t.map_values(|e: int| edges[e].0)
}

/// The cross product of the steps into and out of corner `i` of a closed loop.
pub open spec fn bend(pts: Seq<Pt>, i: int) -> int {
    let n = pts.len() as int;
    let prev = pts[if i == 0 {
        n - 1
    } else {
        i - 1
    }];
    let cur = pts[i];
    let next = pts[if i == n - 1 {
        0
    } else {
        i + 1
    }];
    (cur.0 - prev.0) * (next.1 - cur.1) - (cur.1 - prev.1) * (next.0 - cur.0)
}

/// Those of the first `k` corners of a closed loop at which it bends.
pub open spec fn bends_upto(pts: Seq<Pt>, k: int) -> Seq<Pt>
    decreases k,
{
    if k <= 0 {
        Seq::empty()
    } else if bend(pts, k - 1) != 0 {
        bends_upto(pts, k - 1).push(pts[k - 1])
    } else {
        bends_upto(pts, k - 1)
    }
}

/// A closed loop without the corners that lie on a straight run.
pub open spec fn collapsed(pts: Seq<Pt>) -> Seq<Pt> {
    if pts.len() < 3 {
        pts
    } else {
        bends_upto(pts, pts.len() as int)
    }
}

/// The polygon of a trail: straight runs are collapsed unless it is too short to close.
pub open spec fn outline(edges: Seq<Edge>, t: Seq<int>) -> Seq<Pt> {
    if t.len() >= 4 {
        collapsed(corners(edges, t))
    } else {
        corners(edges, t)
    }
}

/// The polygons that trace a boundary.
pub open spec fn outlines(edges: Seq<Edge>) -> Seq<Seq<Pt>> {
    all_trails(edges).map_values(|t: Seq<int>| outline(edges, t))
}

/// Twice the signed area swept from `p` to `q` about the origin.
pub open spec fn sweep(p: Pt, q: Pt) -> int {
    p.0 * q.1 - q.0 * p.1
}

/// The sweep along the first `k` sides of a closed polygon.
pub open spec fn shoelace_upto(pts: Seq<Pt>, k: int) -> int
    decreases k,
{
    if k <= 0 {
        0
    } else {
        shoelace_upto(pts, k - 1) + sweep(
            pts[k - 1],
            pts[if k == pts.len() {
                0
            } else {
                k
            }],
        )
    }
}

/// Twice the signed area of a closed polygon.
pub open spec fn shoelace(pts: Seq<Pt>) -> int {
    shoelace_upto(pts, pts.len() as int)
}

/// The deep view of a list of loops.
pub open spec fn loops_view(loops: Seq<Vec<Pt>>) -> Seq<Seq<Pt>> {
    loops.map_values(|l: Vec<Pt>| l@)
}

fn same_corner(a: Pt, b: Pt) -> (r: bool)
    ensures
        r == (a == b),
{
    a.0 == b.0 && a.1 == b.1
}

fn sign_of(v: i64) -> (s: i64)
    ensures
        s == sign(v as int),
{
    if v > 0 {
        1
    } else if v < 0 {
        -1
    } else {
        0
    }
}

/// The direction from `a` to `b`, per axis.
fn unit(a: Pt, b: Pt) -> (d: (i64, i64))
    ensures
        d.0 == direction(a, b).0,
        d.1 == direction(a, b).1,
{
    (sign_of(b.0 as i64 - a.0 as i64), sign_of(b.1 as i64 - a.1 as i64))
}

/// Rank of edge `f` as a continuation of edge `e`; at a junction the interior stays on the
/// right because the sharpest right turn ranks first.
fn turn_rank(e: Edge, f: Edge) -> (key: u8)
    ensures
        key == turn(e, f),
{
    let din: (i64, i64) = unit(e.0, e.1);
    let d: (i64, i64) = unit(f.0, f.1);
    proof {
        let (a, b, p, q) = (din.0 as int, din.1 as int, d.0 as int, d.1 as int);
        assert(-1 <= a * q <= 1 && -1 <= b * p <= 1 && -1 <= a * p <= 1 && -1 <= b * q <= 1)
            by (nonlinear_arith)
            requires
                -1 <= a <= 1,
                -1 <= b <= 1,
                -1 <= p <= 1,
                -1 <= q <= 1,
        ;
    }
    let cross: i64 = din.0 * d.1 - din.1 * d.0;
    let dot: i64 = din.0 * d.0 + din.1 * d.1;
    if cross > 0 {
        0
    } else if cross == 0 && dot > 0 {
        1
    } else if cross < 0 {
        2
    } else {
        3
    }
}

/// A key under which each corner with non-negative coordinates is unique.
spec fn corner_key(p: Pt) -> u64 {
    (p.0 * 0x1_0000_0000 + p.1) as u64
}

fn key_of(p: Pt) -> (k: u64)
    requires
        p.0 >= 0,
        p.1 >= 0,
    ensures
        k == corner_key(p),
        k == p.0 * 0x1_0000_0000 + p.1,
{
    p.0 as u64 * 0x1_0000_0000 + p.1 as u64
}

/// All corners of the edges have non-negative coordinates.
spec fn on_lattice(edges: Seq<Edge>) -> bool {
    forall|e: int|
        0 <= e < edges.len() ==> {
            let g = #[trigger] edges[e];
            g.0.0 >= 0 && g.0.1 >= 0 && g.1.0 >= 0 && g.1.1 >= 0
        }
}

/// Under each corner `starts` lists, in order, those of the first `k` edges that start there.
spec fn indexed(edges: Seq<Edge>, k: int, starts: Map<u64, Vec<usize>>) -> bool {
    &&& forall|key: u64, i: int|
        starts.contains_key(key) && 0 <= i < starts[key]@.len() ==> {
            let e = #[trigger] starts[key]@[i];
            e < k && corner_key(edges[e as int].0) == key
        }
    &&& forall|key: u64, i: int, j: int|
        starts.contains_key(key) && 0 <= i < j < starts[key]@.len() ==> #[trigger] starts[key]@[i]
            < #[trigger] starts[key]@[j]
    &&& forall|e: int|
        0 <= e < k ==> {
            let key = corner_key((#[trigger] edges[e]).0);
            starts.contains_key(key) && starts[key]@.contains(e as usize)
        }
}

/// Index edges by their start corner.
fn index_starts(edges: &Vec<Edge>) -> (starts: HashMap<u64, Vec<usize>>)
    requires
        on_lattice(edges@),
    ensures
        indexed(edges@, edges@.len() as int, starts@),
{
    let mut starts: HashMap<u64, Vec<usize>> = HashMap::new();
    let mut e: usize = 0;
    while e < edges.len()
        invariant
            on_lattice(edges@),
            e <= edges@.len(),
            indexed(edges@, e as int, starts@),
        decreases edges@.len() - e,
    {
        let ghost m0 = starts@;
        let key: u64 = key_of(edges[e].0);
        let mut list: Vec<usize> = match starts.remove(&key) {
            Some(l) => l,
            None => Vec::new(),
        };
        let ghost l0 = list@;
        list.push(e);
        let ghost l1 = list@;
        starts.insert(key, list);
        proof {
            assert(l1[l0.len() as int] == e);
            let m = starts@;
            assert(m == m0.insert(key, list));
            assert forall|k2: u64, i: int| m.contains_key(k2) && 0 <= i < m[k2]@.len() implies ({
                let f = #[trigger] m[k2]@[i];
                f < e + 1 && corner_key(edges@[f as int].0) == k2
            }) by {
                if k2 == key {
                    if i < l0.len() {
                        assert(m0.contains_key(key));
                        assert(m[k2]@[i] == m0[key]@[i]);
                    }
                } else {
                    assert(m[k2]@[i] == m0[k2]@[i]);
                }
            }
            assert forall|k2: u64, i: int, j: int|
                m.contains_key(k2) && 0 <= i < j < m[k2]@.len() implies #[trigger] m[k2]@[i]
                < #[trigger] m[k2]@[j] by {
                if k2 == key {
                    if j < l0.len() {
                        assert(m[k2]@[i] == m0[key]@[i] && m[k2]@[j] == m0[key]@[j]);
                    } else {
                        assert(m[k2]@[i] == m0[key]@[i]);
                    }
                } else {
                    assert(m[k2]@[i] == m0[k2]@[i] && m[k2]@[j] == m0[k2]@[j]);
                }
            }
            assert forall|f: int| 0 <= f < e + 1 implies ({
                let k2 = corner_key((#[trigger] edges@[f]).0);
                m.contains_key(k2) && m[k2]@.contains(f as usize)
            }) by {
                let k2 = corner_key(edges@[f].0);
                if f < e {
                    assert(m0.contains_key(k2) && m0[k2]@.contains(f as usize));
                    let i = choose|i: int| 0 <= i < m0[k2]@.len() && m0[k2]@[i] == f as usize;
                    if k2 == key {
                        assert(m[k2]@[i] == f as usize);
                    }
                } else {
                    assert(m[k2]@[l0.len() as int] == f as usize);
                }
            }
        }
        e = e + 1;
    }
    starts
}

/// The edge to take after edge `cur`, if any continues it.
fn next_edge(edges: &Vec<Edge>, starts: &HashMap<u64, Vec<usize>>, used: &Vec<bool>, cur: usize)
    -> (next: Option<usize>)
    requires
        on_lattice(edges@),
        indexed(edges@, edges@.len() as int, starts@),
        used@.len() == edges@.len(),
        cur < edges@.len(),
    ensures
        match next {
            Some(f) => is_next(edges@, used@, cur as int, f as int),
            None => forall|f: int| !#[trigger] continues(edges@, used@, cur as int, f),
        },
{
    let n: usize = edges.len();
    let end: Pt = edges[cur].1;
    let key: u64 = key_of(end);
    let found: Option<&Vec<usize>> = starts.get(&key);
    proof {
        assert forall|f: int| #[trigger]
            continues(edges@, used@, cur as int, f) implies starts@.contains_key(key)
            && starts@[key]@.contains(f as usize) by {
            assert(edges@[f].0 == end);
        }
    }
    match found {
        None => None,
        Some(cands) => {
            let mut next: Option<usize> = None;
            let mut best: u8 = 9;
            let mut i: usize = 0;
            while i < cands.len()
                invariant
                    on_lattice(edges@),
                    used@.len() == edges@.len(),
                    cur < edges@.len(),
                    n == edges@.len(),
                    end == edges@[cur as int].1,
                    key == corner_key(end),
                    i <= cands@.len(),
                    forall|j: int|
                        0 <= j < cands@.len() ==> (#[trigger] cands@[j]) < edges@.len()
                            && corner_key(edges@[cands@[j] as int].0) == key,
                    forall|j: int, k: int|
                        0 <= j < k < cands@.len() ==> #[trigger] cands@[j] < #[trigger] cands@[k],
                    match next {
                        Some(f) => continues(edges@, used@, cur as int, f as int) && best == turn(
                            edges@[cur as int],
                            edges@[f as int],
                        ) && (forall|j: int| i <= j < cands@.len() ==> f < #[trigger] cands@[j]),
                        None => best == 9,
                    },
                    forall|j: int|
                        0 <= j < i && continues(edges@, used@, cur as int, #[trigger] cands@[j] as int)
                            ==> (next matches Some(f) && (best < turn(
                            edges@[cur as int],
                            edges@[cands@[j] as int],
                        ) || (best == turn(edges@[cur as int], edges@[cands@[j] as int]) && f
                            <= cands@[j]))),
                decreases cands@.len() - i,
            {
                let ei: usize = cands[i];
                if !used[ei] {
                    proof {
                        lemma_key_unique(edges@[ei as int].0, end);
                        assert(continues(edges@, used@, cur as int, ei as int));
                    }
                    let rank: u8 = turn_rank(edges[cur], edges[ei]);
                    if rank < best {
                        best = rank;
                        next = Some(ei);
                    }
                }
                i = i + 1;
            }
            proof {
                assert forall|g: int| #[trigger]
                    continues(edges@, used@, cur as int, g) implies next matches Some(f) && (best
                    < turn(edges@[cur as int], edges@[g]) || (best == turn(
                    edges@[cur as int],
                    edges@[g],
                ) && f <= g)) by {
                    assert(starts@[key]@.contains(g as usize));
                    let j = choose|j: int| 0 <= j < cands@.len() && cands@[j] == g as usize;
                    assert(continues(edges@, used@, cur as int, cands@[j] as int));
                }
            }
            next
        },
    }
}

proof fn lemma_key_unique(a: Pt, b: Pt)
    requires
        a.0 >= 0,
        a.1 >= 0,
        b.0 >= 0,
        b.1 >= 0,
        corner_key(a) == corner_key(b),
    ensures
        a == b,
{
    assert(corner_key(a) == a.0 * 0x1_0000_0000 + a.1);
    assert(corner_key(b) == b.0 * 0x1_0000_0000 + b.1);
}

/// Only one edge is the one to take.
pub proof fn lemma_next_unique(edges: Seq<Edge>, used: Seq<bool>, e: int, f: int, g: int)
    requires
        is_next(edges, used, e, f),
        is_next(edges, used, e, g),
    ensures
        f == g,
{
    assert(continues(edges, used, e, f));
    assert(continues(edges, used, e, g));
}

/// Walks from edge `e0` until the walk closes or ends, marking the edges on the way.
fn walk(edges: &Vec<Edge>, starts: &HashMap<u64, Vec<usize>>, used: &mut Vec<bool>, e0: usize)
    -> (t: Vec<usize>)
    requires
        on_lattice(edges@),
        indexed(edges@, edges@.len() as int, starts@),
        old(used)@.len() == edges@.len(),
        e0 < edges@.len(),
        !old(used)@[e0 as int],
    ensures
        t@.map_values(|e: usize| e as int) == trail(
            edges@,
            old(used)@,
            edges@[e0 as int].0,
            e0 as int,
        ),
        final(used)@ == marked(old(used)@, t@.map_values(|e: usize| e as int)),
        forall|i: int| 0 <= i < t@.len() ==> (#[trigger] t@[i]) < edges@.len(),
{
    let home: Pt = edges[e0].0;
    let ghost whole = trail(edges@, used@, home, e0 as int);
    let ghost used0 = used@;
    let mut t: Vec<usize> = Vec::new();
    let mut cur: usize = e0;
    let mut open: bool = true;
    let ghost to_int = |e: usize| e as int;
    assert(t@.map_values(to_int) =~= Seq::<int>::empty());
    assert(marked(used0, t@.map_values(to_int)) =~= used0);
    while open
        invariant
            on_lattice(edges@),
            indexed(edges@, edges@.len() as int, starts@),
            to_int == (|e: usize| e as int),
            used@.len() == edges@.len(),
            used0.len() == edges@.len(),
            cur < edges@.len(),
            used@ == marked(used0, t@.map_values(to_int)),
            forall|i: int| 0 <= i < t@.len() ==> (#[trigger] t@[i]) < edges@.len(),
            open ==> !used@[cur as int] && t@.map_values(to_int) + trail(
                edges@,
                used@,
                home,
                cur as int,
            ) == whole,
            !open ==> t@.map_values(to_int) == whole,
        decreases
                unused(used@) + if open {
                    1nat
                } else {
                    0nat
                },
    {
        let ghost u0 = used@;
        let ghost t0 = t@.map_values(to_int);
        proof {
            lemma_unused_mark(u0, cur as int);
        }
        used.set(cur, true);
        t.push(cur);
        proof {
            let t1 = t@.map_values(to_int);
            assert(t1 =~= t0.push(cur as int));
            assert forall|e: int| 0 <= e < used0.len() implies used@[e] == marked(used0, t1)[e] by {
                if t0.contains(e) {
                    let i = choose|i: int| 0 <= i < t0.len() && t0[i] == e;
                    assert(t1[i] == e);
                }
                if t1.contains(e) {
                    let i = choose|i: int| 0 <= i < t1.len() && t1[i] == e;
                    if i < t0.len() {
                        assert(t0[i] == e);
                    }
                }
                assert(t1[t0.len() as int] == cur as int);
            }
            assert(used@ =~= marked(used0, t1));
            assert(used@ == u0.update(cur as int, true));
        }
        let ghost rest = trail(edges@, u0, home, cur as int);
        if same_corner(edges[cur].1, home) {
            proof {
                assert(rest == seq![cur as int]);
                assert(t0 + rest =~= t@.map_values(to_int));
            }
            open = false;
        } else {
            match next_edge(edges, starts, used, cur) {
                Some(f) => {
                    proof {
                        let g = choose|g: int| is_next(edges@, used@, cur as int, g);
                        lemma_next_unique(edges@, used@, cur as int, f as int, g);
                        assert(rest == seq![cur as int] + trail(edges@, used@, home, f as int));
                        assert(t0 + rest =~= t@.map_values(to_int) + trail(
                            edges@,
                            used@,
                            home,
                            f as int,
                        ));
                    }
                    cur = f;
                },
                None => {
                    proof {
                        assert forall|f: int| !is_next(edges@, used@, cur as int, f) by {
                            assert(!continues(edges@, used@, cur as int, f));
                        }
                        assert(rest == seq![cur as int]);
                        assert(t0 + rest =~= t@.map_values(to_int));
                    }
                    open = false;
                },
            }
        }
    }
    t
}

/// Drop vertices that lie on a straight run, merging collinear unit edges into
/// a single segment. Operates on a closed loop (wraps around).
pub fn collapse_collinear(pts: &[Pt]) -> (out: Vec<Pt>)
    ensures
        out@ == collapsed(pts@),
{
    let n: usize = pts.len();
    let mut out: Vec<Pt> = Vec::new();
    let short: bool = n < 3;
    let mut i: usize = 0;
    assert(pts@.take(0) =~= Seq::<Pt>::empty());
    while i < n
        invariant
            n == pts@.len(),
            short == (n < 3),
            i <= n,
            out@ == if short {
                pts@.take(i as int)
            } else {
                bends_upto(pts@, i as int)
            },
        decreases n - i,
    {
        let prev: Pt = pts[if i == 0 {
            n - 1
        } else {
            i - 1
        }];
        let cur: Pt = pts[i];
        let next: Pt = pts[if i == n - 1 {
            0
        } else {
            i + 1
        }];
        let d1: (i128, i128) = (cur.0 as i128 - prev.0 as i128, cur.1 as i128 - prev.1 as i128);
        let d2: (i128, i128) = (next.0 as i128 - cur.0 as i128, next.1 as i128 - cur.1 as i128);
        proof {
            let (a, b, c, d) = (d1.0 as int, d1.1 as int, d2.0 as int, d2.1 as int);
            let m: int = 0x1_0000_0000;
            let mm: int = 0x1_0000_0000_0000_0000;
            assert(-mm <= a * d <= mm && -mm <= b * c <= mm) by (nonlinear_arith)
                requires
                    -m <= a <= m,
                    -m <= b <= m,
                    -m <= c <= m,
                    -m <= d <= m,
                    m == 0x1_0000_0000,
                    mm == 0x1_0000_0000_0000_0000,
            ;
            assert(pts@.take(i + 1) =~= pts@.take(i as int).push(cur));
        }
        let cross: i128 = d1.0 * d2.1 - d1.1 * d2.0;
        if short || cross != 0 {
            out.push(cur);
        }
        i = i + 1;
    }
    assert(pts@.take(n as int) =~= pts@);
    out
}

/// Signed area (shoelace) of a polygon; sign indicates winding.
pub fn signed_area(pts: &[Pt]) -> (a: i64)
    requires
        forall|k: int|
            0 <= k <= pts@.len() ==> i64::MIN <= #[trigger] shoelace_upto(pts@, k) <= i64::MAX,
    ensures
        a == shoelace(pts@),
{
    let n: usize = pts.len();
    let mut a: i64 = 0;
    let mut i: usize = 0;
    while i < n
        invariant
            n == pts@.len(),
            i <= n,
            a == shoelace_upto(pts@, i as int),
            forall|k: int|
                0 <= k <= pts@.len() ==> i64::MIN <= #[trigger] shoelace_upto(pts@, k) <= i64::MAX,
        decreases n - i,
    {
        let p: Pt = pts[i];
        let q: Pt = pts[if i + 1 == n {
            0
        } else {
            i + 1
        }];
        proof {
            lemma_product_fits(p.0 as int, q.1 as int);
            lemma_product_fits(q.0 as int, p.1 as int);
            assert(i64::MIN <= shoelace_upto(pts@, i + 1) <= i64::MAX);
        }
        let term: i64 = p.0 as i64 * q.1 as i64 - q.0 as i64 * p.1 as i64;
        a = a + term;
        i = i + 1;
    }
    a
}

proof fn lemma_product_fits(a: int, b: int)
    requires
        i32::MIN <= a <= i32::MAX,
        i32::MIN <= b <= i32::MAX,
    ensures
        -0x3fff_ffff_8000_0000 <= a * b <= 0x4000_0000_0000_0000,
{
    let m: int = 0x8000_0000;
    assert(-m * (m - 1) <= a * b <= m * m) by (nonlinear_arith)
        requires
            -m <= a <= m - 1,
            -m <= b <= m - 1,
            m == 0x8000_0000,
    ;
}

/// Whether cell `(x, y)` lies in the image and carries `label`.
fn is_inside(labels: &[u32], width: usize, height: usize, label: u32, x: usize, y: usize) -> (r:
    bool)
    requires
        labels@.len() >= width * height,
    ensures
        r == region_of(labels@, width as int, height as int, label)(x as int, y as int),
{
    if x < width && y < height {
        let n: usize = labels.len();
        proof {
            lemma_pixel_index(width as int, height as int, x as int, y as int);
            assert(y * width + x < n);
        }
        labels[y * width + x] == label
    } else {
        false
    }
}

/// A box that holds no cell, or one that lies in the image and on the lattice.
pub open spec fn box_fits(width: int, height: int, bbox: (usize, usize, usize, usize)) -> bool {
    bbox.0 <= bbox.2 && bbox.1 <= bbox.3 ==> bbox.2 < width && bbox.3 < height && bbox.2 < i32::MAX
        && bbox.3 < i32::MAX
}

proof fn lemma_no_columns(
    inside: spec_fn(int, int) -> bool,
    min_x: int,
    max_x: int,
    min_y: int,
    x: int,
    y: int,
)
    requires
        max_x < min_x,
        x <= min_x,
    ensures
        edges_before(inside, min_x, max_x, min_y, x, y) == Seq::<Edge>::empty(),
    decreases y - min_y,
{
    if y > min_y {
        lemma_no_columns(inside, min_x, max_x, min_y, max_x + 1, y - 1);
    }
}

/// A box that holds no cell has no boundary.
pub proof fn lemma_empty_box(
    inside: spec_fn(int, int) -> bool,
    bbox: (usize, usize, usize, usize),
)
    requires
        bbox.0 > bbox.2 || bbox.1 > bbox.3,
    ensures
        boundary(inside, bbox) == Seq::<Edge>::empty(),
{
    if bbox.0 > bbox.2 {
        lemma_no_columns(
            inside,
            bbox.0 as int,
            bbox.2 as int,
            bbox.1 as int,
            bbox.0 as int,
            bbox.3 + 1,
        );
    }
}

/// Adds an edge that is present.
fn push_edge(edges: &mut Vec<Edge>, present: bool, e: Edge)
    requires
        on_lattice(old(edges)@),
        on_lattice(seq![e]),
    ensures
        final(edges)@ == old(edges)@ + optional(present, e),
        on_lattice(final(edges)@),
{
    let ghost before = edges@;
    assert(on_lattice(seq![e]));
    if present {
        assert(seq![e][0] == e);
        edges.push(e);
    }
    assert(edges@ =~= before + optional(present, e));
}

/// Collect directed boundary edges (interior on the right).
fn collect_edges(
    labels: &[u32],
    width: usize,
    height: usize,
    label: u32,
    bbox: (usize, usize, usize, usize),
) -> (edges: Vec<Edge>)
    requires
        labels@.len() >= width * height,
        box_fits(width as int, height as int, bbox),
    ensures
        edges@ == boundary(region_of(labels@, width as int, height as int, label), bbox),
        on_lattice(edges@),
{
    let (min_x, min_y, max_x, max_y) = bbox;
    let ghost inside = region_of(labels@, width as int, height as int, label);
    let mut edges: Vec<Edge> = Vec::new();
    if min_x > max_x || min_y > max_y {
        proof {
            lemma_empty_box(inside, bbox);
        }
        return edges;
    }
    let mut y: usize = min_y;
    while y <= max_y
        invariant
            labels@.len() >= width * height,
            inside == region_of(labels@, width as int, height as int, label),
            min_x <= max_x < width,
            max_y < height,
            max_x < i32::MAX,
            max_y < i32::MAX,
            min_y <= y <= max_y + 1,
            edges@ == edges_before(
                inside,
                min_x as int,
                max_x as int,
                min_y as int,
                min_x as int,
                y as int,
            ),
            on_lattice(edges@),
        decreases max_y + 1 - y,
    {
        let mut x: usize = min_x;
        while x <= max_x
            invariant
                labels@.len() >= width * height,
                inside == region_of(labels@, width as int, height as int, label),
                min_x <= max_x < width,
                max_y < height,
                max_x < i32::MAX,
                max_y < i32::MAX,
                min_y <= y <= max_y,
                min_x <= x <= max_x + 1,
                edges@ == edges_before(
                    inside,
                    min_x as int,
                    max_x as int,
                    min_y as int,
                    x as int,
                    y as int,
                ),
                on_lattice(edges@),
            decreases max_x + 1 - x,
        {
            let ghost before = edges@;
            if is_inside(labels, width, height, label, x, y) {
                let xi: i32 = x as i32;
                let yi: i32 = y as i32;
                let up: bool = y > 0 && is_inside(labels, width, height, label, x, y - 1);
                let rt: bool = is_inside(labels, width, height, label, x + 1, y);
                let dn: bool = is_inside(labels, width, height, label, x, y + 1);
                let lt: bool = x > 0 && is_inside(labels, width, height, label, x - 1, y);
                push_edge(&mut edges, !up, ((xi, yi), (xi + 1, yi)));
                push_edge(&mut edges, !rt, ((xi + 1, yi), (xi + 1, yi + 1)));
                push_edge(&mut edges, !dn, ((xi + 1, yi + 1), (xi, yi + 1)));
                push_edge(&mut edges, !lt, ((xi, yi + 1), (xi, yi)));
            }
            assert(edges@ =~= before + cell_edges(inside, x as int, y as int));
            x = x + 1;
        }
        y = y + 1;
    }
    edges
}

/// The corners at which the edges of a trail start.
fn corners_of(edges: &Vec<Edge>, t: &Vec<usize>) -> (pts: Vec<Pt>)
    requires
        forall|i: int| 0 <= i < t@.len() ==> (#[trigger] t@[i]) < edges@.len(),
    ensures
        pts@ == corners(edges@, t@.map_values(|e: usize| e as int)),
{
    let mut pts: Vec<Pt> = Vec::new();
    let mut i: usize = 0;
    while i < t.len()
        invariant
            forall|i: int| 0 <= i < t@.len() ==> (#[trigger] t@[i]) < edges@.len(),
            i <= t@.len(),
            pts@.len() == i,
            forall|j: int| 0 <= j < i ==> #[trigger] pts@[j] == edges@[t@[j] as int].0,
        decreases t@.len() - i,
    {
        pts.push(edges[t[i]].0);
        i = i + 1;
    }
    assert(pts@ =~= corners(edges@, t@.map_values(|e: usize| e as int)));
    pts
}

/// Trace all boundary loops of `label` within its bounding box (inclusive).
/// Each loop is a list of lattice corners with collinear runs collapsed; the
/// first point is not repeated at the end.
pub fn contours_of(
    labels: &[u32],
    width: usize,
    height: usize,
    label: u32,
    bbox: (usize, usize, usize, usize),
) -> (loops: Vec<Vec<Pt>>)
    requires
        labels@.len() >= width * height,
        box_fits(width as int, height as int, bbox),
    ensures
        loops_view(loops@) == outlines(
            boundary(region_of(labels@, width as int, height as int, label), bbox),
        ),
{
    let edges: Vec<Edge> = collect_edges(labels, width, height, label, bbox);
    let starts: HashMap<u64, Vec<usize>> = index_starts(&edges);
    let mut used: Vec<bool> = vec![false; edges.len()];
    let mut loops: Vec<Vec<Pt>> = Vec::new();
    let mut e: usize = 0;
    let ghost to_outline = |t: Seq<int>| outline(edges@, t);
    let ghost whole = outlines(edges@);
    proof {
        assert(used@ =~= fresh(edges@.len()));
        assert(loops_view(loops@) + trails(edges@, used@, 0).map_values(to_outline) =~= whole);
    }
    while e < edges.len()
        invariant
            on_lattice(edges@),
            indexed(edges@, edges@.len() as int, starts@),
            used@.len() == edges@.len(),
            e <= edges@.len(),
            to_outline == (|t: Seq<int>| outline(edges@, t)),
            loops_view(loops@) + trails(edges@, used@, e as int).map_values(to_outline) == whole,
        decreases edges@.len() - e,
    {
        if !used[e] {
            let ghost used0 = used@;
            let ghost loops0 = loops@;
            let t: Vec<usize> = walk(&edges, &starts, &mut used, e);
            let ghost tt = t@.map_values(|e: usize| e as int);
            let pts: Vec<Pt> = corners_of(&edges, &t);
            let shape: Vec<Pt> = if pts.len() >= 4 {
                collapse_collinear(&pts)
            } else {
                pts
            };
            assert(shape@ == outline(edges@, tt));
            loops.push(shape);
            proof {
                let rest = trails(edges@, used@, e + 1);
                assert(trails(edges@, used0, e as int) == seq![tt] + rest);
                assert(loops_view(loops@) =~= loops_view(loops0).push(shape@));
                assert((seq![tt] + rest).map_values(to_outline) =~= seq![shape@]
                    + rest.map_values(to_outline));
                assert(loops_view(loops0) + (seq![shape@] + rest.map_values(to_outline))
                    =~= loops_view(loops@) + rest.map_values(to_outline));
            }
        }
        e = e + 1;
    }
    proof {
        assert(trails(edges@, used@, e as int).map_values(to_outline) =~= Seq::empty());
        assert(loops_view(loops@) =~= whole);
    }
    loops
}

} // verus!
