//! The pixel grid: 4-adjacency, same-colour connectivity and label counts.

use vstd::prelude::*;

verus! {

/// Pixels `p` and `q` share an edge in a raster of `n` pixels whose rows are `w` long.
pub open spec fn adjacent(w: int, n: int, p: int, q: int) -> bool {
    &&& 0 <= p < n
    &&& 0 <= q < n
    &&& ({
        ||| q == p + 1 && q % w != 0
        ||| p == q + 1 && p % w != 0
        ||| q == p + w
        ||| p == q + w
    })
}

/// `path` walks from edge-neighbour to edge-neighbour without leaving one colour.
pub open spec fn is_path(colors: Seq<u32>, w: int, path: Seq<int>) -> bool {
    &&& path.len() > 0
    &&& forall|k: int|
        0 <= k < path.len() ==> 0 <= #[trigger] path[k] < colors.len() && colors[path[k]]
            == colors[path[0]]
    &&& forall|k: int, l: int|
        0 <= k < path.len() && l == k + 1 && l < path.len() ==> adjacent(
            w,
            colors.len() as int,
            #[trigger] path[k],
            #[trigger] path[l],
        )
}

/// A same-colour path leads from `p` to `q`.
pub open spec fn path_between(colors: Seq<u32>, w: int, path: Seq<int>, p: int, q: int) -> bool {
    is_path(colors, w, path) && path[0] == p && path.last() == q
}

/// `p` and `q` lie in the same 4-connected region of equal colour.
pub open spec fn connected(colors: Seq<u32>, w: int, p: int, q: int) -> bool {
    exists|path: Seq<int>| path_between(colors, w, path, p, q)
}

/// How many entries of `s` equal `v`.
pub open spec fn count_of(s: Seq<u32>, v: u32) -> nat
    decreases s.len(),
{
    if s.len() == 0 {
        0
    } else {
        count_of(s.drop_last(), v) + if s.last() == v {
            1nat
        } else {
            0nat
        }
    }
}

/// Position `p` is the first of its class.
pub open spec fn is_first(labels: Seq<u32>, p: int) -> bool {
    0 <= p < labels.len() && forall|q: int| 0 <= q < p ==> #[trigger] labels[q] != labels[p]
}

/// `labels` numbers its classes `0..num` in the order in which they first occur.
pub open spec fn numbered_by_first_occurrence(labels: Seq<u32>, num: int) -> bool {
    &&& forall|p: int| 0 <= p < labels.len() ==> #[trigger] labels[p] < num
    &&& forall|c: u32| c < num ==> #[trigger] labels.contains(c)
    &&& forall|p: int, q: int| #[trigger]
        is_first(labels, p) && 0 <= q < p ==> #[trigger] labels[q] < labels[p]
}

pub proof fn lemma_count_bound(s: Seq<u32>, v: u32)
    ensures
        count_of(s, v) <= s.len(),
    decreases s.len(),
{
    if s.len() > 0 {
        lemma_count_bound(s.drop_last(), v);
    }
}

pub proof fn lemma_count_zero(s: Seq<u32>, v: u32)
    requires
        forall|i: int| 0 <= i < s.len() ==> s[i] != v,
    ensures
        count_of(s, v) == 0,
    decreases s.len(),
{
    if s.len() > 0 {
        lemma_count_zero(s.drop_last(), v);
    }
}

pub proof fn lemma_count_push(s: Seq<u32>, x: u32, v: u32)
    ensures
        count_of(s.push(x), v) == count_of(s, v) + if x == v {
            1nat
        } else {
            0nat
        },
{
    assert(s.push(x).drop_last() =~= s);
}

pub proof fn lemma_count_update(s: Seq<u32>, i: int, x: u32, v: u32)
    requires
        0 <= i < s.len(),
    ensures
        count_of(s.update(i, x), v) == count_of(s, v) + (if x == v {
            1int
        } else {
            0int
        }) - (if s[i] == v {
            1int
        } else {
            0int
        }),
    decreases s.len(),
{
    if i == s.len() - 1 {
        assert(s.update(i, x).drop_last() =~= s.drop_last());
    } else {
        assert(s.update(i, x).drop_last() =~= s.drop_last().update(i, x));
        lemma_count_update(s.drop_last(), i, x, v);
    }
}

pub proof fn lemma_connected_self(colors: Seq<u32>, w: int, p: int)
    requires
        0 <= p < colors.len(),
    ensures
        connected(colors, w, p, p),
{
    let path = seq![p];
    assert(path_between(colors, w, path, p, p));
}

pub proof fn lemma_connected_step(colors: Seq<u32>, w: int, p: int, q: int, r: int)
    requires
        connected(colors, w, p, q),
        adjacent(w, colors.len() as int, q, r),
        colors[r] == colors[q],
    ensures
        connected(colors, w, p, r),
{
    let a = choose|path: Seq<int>| path_between(colors, w, path, p, q);
    let path = a.push(r);
    assert(a[a.len() - 1] == q);
    assert forall|k: int| 0 <= k < path.len() implies 0 <= #[trigger] path[k] < colors.len()
        && colors[path[k]] == colors[path[0]] by {
        if k < a.len() {
            assert(path[k] == a[k]);
        }
    }
    assert forall|k: int, l: int|
        0 <= k < path.len() && l == k + 1 && l < path.len() implies adjacent(
        w,
        colors.len() as int,
        #[trigger] path[k],
        #[trigger] path[l],
    ) by {
        if l < a.len() {
            assert(path[k] == a[k] && path[l] == a[l]);
        }
    }
    assert(path_between(colors, w, path, p, r));
}

pub proof fn lemma_connected_sym(colors: Seq<u32>, w: int, p: int, q: int)
    requires
        connected(colors, w, p, q),
    ensures
        connected(colors, w, q, p),
{
    let a = choose|path: Seq<int>| path_between(colors, w, path, p, q);
    let path = a.reverse();
    let m = a.len() - 1;
    assert forall|k: int| 0 <= k < path.len() implies 0 <= #[trigger] path[k] < colors.len()
        && colors[path[k]] == colors[path[0]] by {
        assert(path[k] == a[m - k]);
        assert(path[0] == a[m]);
    }
    assert forall|k: int, l: int|
        0 <= k < path.len() && l == k + 1 && l < path.len() implies adjacent(
        w,
        colors.len() as int,
        #[trigger] path[k],
        #[trigger] path[l],
    ) by {
        assert(path[k] == a[m - k]);
        assert(path[l] == a[m - l]);
        assert(adjacent(w, colors.len() as int, a[m - l], a[m - k]));
    }
    assert(path_between(colors, w, path, q, p));
}

pub proof fn lemma_connected_trans(colors: Seq<u32>, w: int, p: int, q: int, r: int)
    requires
        connected(colors, w, p, q),
        connected(colors, w, q, r),
    ensures
        connected(colors, w, p, r),
{
    let b = choose|path: Seq<int>| path_between(colors, w, path, q, r);
    lemma_connected_along(colors, w, p, q, b, b.len() - 1);
}

proof fn lemma_connected_along(
    colors: Seq<u32>,
    w: int,
    p: int,
    q: int,
    b: Seq<int>,
    k: int,
)
    requires
        connected(colors, w, p, q),
        is_path(colors, w, b),
        b[0] == q,
        0 <= k < b.len(),
    ensures
        connected(colors, w, p, b[k]),
    decreases k,
{
    if k > 0 {
        lemma_connected_along(colors, w, p, q, b, k - 1);
        assert(adjacent(w, colors.len() as int, b[k - 1], b[k]));
        lemma_connected_step(colors, w, p, b[k - 1], b[k]);
    }
}

/// Endpoints of a connection are pixels of one colour.
pub proof fn lemma_connected_colors(colors: Seq<u32>, w: int, p: int, q: int)
    requires
        connected(colors, w, p, q),
    ensures
        0 <= p < colors.len(),
        0 <= q < colors.len(),
        colors[p] == colors[q],
{
    let a = choose|path: Seq<int>| path_between(colors, w, path, p, q);
    assert(a[0] == p);
    assert(a[a.len() - 1] == q);
}

/// A labelling that never changes across a same-colour edge is constant on connected pixels.
pub proof fn lemma_closed_labels(colors: Seq<u32>, w: int, labels: Seq<u32>, p: int, q: int)
    requires
        connected(colors, w, p, q),
        labels.len() == colors.len(),
        forall|a: int, b: int| #[trigger]
            adjacent(w, colors.len() as int, a, b) && colors[a] == colors[b] ==> labels[a]
                == labels[b],
    ensures
        labels[p] == labels[q],
{
    let a = choose|path: Seq<int>| path_between(colors, w, path, p, q);
    lemma_closed_along(colors, w, labels, a, a.len() - 1);
}

proof fn lemma_closed_along(colors: Seq<u32>, w: int, labels: Seq<u32>, a: Seq<int>, k: int)
    requires
        is_path(colors, w, a),
        labels.len() == colors.len(),
        forall|a: int, b: int| #[trigger]
            adjacent(w, colors.len() as int, a, b) && colors[a] == colors[b] ==> labels[a]
                == labels[b],
        0 <= k < a.len(),
    ensures
        labels[a[0]] == labels[a[k]],
    decreases k,
{
    if k > 0 {
        lemma_closed_along(colors, w, labels, a, k - 1);
        assert(adjacent(w, colors.len() as int, a[k - 1], a[k]));
    }
}

/// Coordinates of pixel `p` in a raster of `h` rows of `w` pixels.
pub proof fn lemma_coords(w: int, h: int, p: int)
    requires
        w > 0,
        0 <= p < w * h,
    ensures
        p == (p / w) * w + p % w,
        0 <= p % w < w,
        0 <= p / w < h,
        p % w > 0 <==> p % w != 0,
        (p + 1) % w == (if p % w + 1 < w {
            p % w + 1
        } else {
            0
        }),
        p / w > 0 <==> p >= w,
        p / w + 1 < h <==> p + w < w * h,
        p % w + 1 < w ==> p + 1 < w * h,
{
    vstd::arithmetic::div_mod::lemma_fundamental_div_mod(p, w);
    vstd::arithmetic::div_mod::lemma_mod_bound(p, w);
    let y = p / w;
    let x = p % w;
    assert(p == y * w + x) by (nonlinear_arith)
        requires
            p == w * y + x,
    ;
    assert(y < h) by (nonlinear_arith)
        requires
            p == y * w + x,
            x >= 0,
            w > 0,
            p < w * h,
    ;
    assert(y >= 0) by (nonlinear_arith)
        requires
            p == y * w + x,
            x < w,
            w > 0,
            p >= 0,
    ;
    assert(y > 0 <==> p >= w) by (nonlinear_arith)
        requires
            p == y * w + x,
            0 <= x < w,
            w > 0,
            y >= 0,
    ;
    assert(y + 1 < h <==> p + w < w * h) by (nonlinear_arith)
        requires
            p == y * w + x,
            0 <= x < w,
            w > 0,
            y >= 0,
    ;
    if x + 1 < w {
        assert(p + 1 == y * w + (x + 1));
        vstd::arithmetic::div_mod::lemma_fundamental_div_mod_converse(p + 1, w, y, x + 1);
        assert(p + 1 < w * h) by (nonlinear_arith)
            requires
                p == y * w + x,
                x + 1 < w,
                y < h,
                w > 0,
        ;
    } else {
        assert(p + 1 == (y + 1) * w + 0) by (nonlinear_arith)
            requires
                p == y * w + x,
                x + 1 == w,
        ;
        vstd::arithmetic::div_mod::lemma_fundamental_div_mod_converse(p + 1, w, y + 1, 0);
    }
}

/// The position of the pixel in column `x` and row `y` of a raster of `h` rows of `w` pixels.
pub proof fn lemma_pixel_index(w: int, h: int, x: int, y: int)
    requires
        0 <= x < w,
        0 <= y < h,
    ensures
        0 <= y * w,
        y * w + x < w * h,
        (y * w + x) / w == y,
        (y * w + x) % w == x,
        (y + 1) * w == y * w + w,
{
    vstd::arithmetic::div_mod::lemma_fundamental_div_mod_converse(y * w + x, w, y, x);
    assert(0 <= y * w && y * w + x < w * h && (y + 1) * w == y * w + w) by (nonlinear_arith)
        requires
            0 <= x < w,
            0 <= y < h,
    ;
}

/// The first place of a class.
pub proof fn lemma_first_place(labels: Seq<u32>, p: int) -> (q: int)
    requires
        0 <= p < labels.len(),
    ensures
        0 <= q <= p,
        labels[q] == labels[p],
        is_first(labels, q),
    decreases p,
{
    if exists|q: int| 0 <= q < p && #[trigger] labels[q] == labels[p] {
        let q = choose|q: int| 0 <= q < p && #[trigger] labels[q] == labels[p];
        lemma_first_place(labels, q)
    } else {
        assert(is_first(labels, p));
        p
    }
}

/// Pixels are neighbours if they lie next to each other in one row or in one column, and only then:
/// not across a corner, and not from the end of a row to the start of the next.
pub proof fn law_neighbours_share_an_edge(w: int, h: int, x: int, y: int, u: int, v: int)
    requires
        0 <= x < w,
        0 <= y < h,
        0 <= u < w,
        0 <= v < h,
    ensures
        adjacent(w, w * h, y * w + x, v * w + u) <==> (y == v && (x - u == 1 || u - x == 1)) || (x
            == u && (y - v == 1 || v - y == 1)),
{
    lemma_pixel_index(w, h, x, y);
    lemma_pixel_index(w, h, u, v);
    let (p, q) = (y * w + x, v * w + u);
    assert(y == v ==> q - p == u - x) by (nonlinear_arith)
        requires
            p == y * w + x,
            q == v * w + u,
    ;
    assert(v == y + 1 ==> q - p == w + u - x) by (nonlinear_arith)
        requires
            p == y * w + x,
            q == v * w + u,
    ;
    assert(y == v + 1 ==> p - q == w + x - u) by (nonlinear_arith)
        requires
            p == y * w + x,
            q == v * w + u,
    ;
    assert(v >= y + 2 ==> q - p > w) by (nonlinear_arith)
        requires
            p == y * w + x,
            q == v * w + u,
            0 <= x < w,
            0 <= u,
    ;
    assert(y >= v + 2 ==> p - q > w) by (nonlinear_arith)
        requires
            p == y * w + x,
            q == v * w + u,
            0 <= u < w,
            0 <= x,
    ;
}

} // verus!
