//! Path simplification — Ramer–Douglas–Peucker on closed loops.
//!
//! The contour tracer emits staircase polygons along pixel edges; RDP drops
//! vertices within `epsilon` of a straight chord, turning long stairs into clean
//! diagonals and shrinking the path data.

use vstd::prelude::*;
use vstd::slice::slice_to_vec;

use crate::contour::Pt;
use crate::number::{
    at_least, difference_of, graded, int_of, ordered, precise, product_of, quotient_of, sum_of,
};
use crate::number::{
    from_index, from_int, is_at_least, minus, over, plus, times, wide_rank, wide_rank_of, whole_of,
    Precise,
};

verus! {

/// The squared perpendicular distance from `p` to the line through `a` and `b`, or to `a` where
/// the two coincide.
pub open spec fn perp_dist2_of<W: Precise>(p: Pt, a: Pt, b: Pt) -> W {
    let (px, py) = (int_of::<W>(p.0), int_of::<W>(p.1));
    let (ax, ay) = (int_of::<W>(a.0), int_of::<W>(a.1));
    let (bx, by) = (int_of::<W>(b.0), int_of::<W>(b.1));
    let dx = difference_of(bx, ax);
    let dy = difference_of(by, ay);
    let len2 = sum_of(product_of(dx, dx), product_of(dy, dy));
    let ex = difference_of(px, ax);
    let ey = difference_of(py, ay);
    if at_least(whole_of::<W>(0), len2) {
        sum_of(product_of(ex, ex), product_of(ey, ey))
    } else {
        let cross = difference_of(product_of(ex, dy), product_of(ey, dx));
        quotient_of(product_of(cross, cross), len2)
    }
}

/// Squared perpendicular distance from `p` to the segment `a`–`b`.
pub fn perp_dist2<W: Precise>(p: Pt, a: Pt, b: Pt) -> (d: W)
    requires
        precise::<W>(),
    ensures
        d == perp_dist2_of::<W>(p, a, b),
{
    let (px, py): (W, W) = (from_int(p.0), from_int(p.1));
    let (ax, ay): (W, W) = (from_int(a.0), from_int(a.1));
    let (bx, by): (W, W) = (from_int(b.0), from_int(b.1));
    let dx: W = minus(bx, ax);
    let dy: W = minus(by, ay);
    let len2: W = plus(times(dx, dx), times(dy, dy));
    let ex: W = minus(px, ax);
    let ey: W = minus(py, ay);
    if is_at_least(from_index(0), len2) {
        return plus(times(ex, ex), times(ey, ey));
    }
    let cross: W = minus(times(ex, dy), times(ey, dx));
    over(times(cross, cross), len2)
}

/// The distance of point `i` from the chord between points `first` and `last`.
pub open spec fn bulge<W: Precise>(
    pts: Seq<Pt>,
    first: int,
    last: int,
    i: int,
) -> u64 {
    wide_rank_of(perp_dist2_of::<W>(pts[i], pts[first], pts[last]))
}

/// Point `m` bulges most between `first` and `last`, of equal ones the first.
pub open spec fn is_peak<W: Precise>(
    pts: Seq<Pt>,
    first: int,
    last: int,
    m: int,
) -> bool {
    &&& first < m < last
    &&& forall|j: int|
        first < j < last ==> #[trigger] bulge::<W>(pts, first, last, j) <= bulge::<W>(
            pts,
            first,
            last,
            m,
        )
    &&& forall|j: int|
        first < j < m ==> #[trigger] bulge::<W>(pts, first, last, j) < bulge::<W>(
            pts,
            first,
            last,
            m,
        )
}

/// The point that bulges most between `first` and `last`.
pub open spec fn peak<W: Precise>(
    pts: Seq<Pt>,
    first: int,
    last: int,
) -> int {
    choose|m: int| is_peak::<W>(pts, first, last, m)
}

/// Point `i` is kept between `first` and `last`: while some point bulges beyond the tolerance,
/// the one that bulges most is kept and both halves are treated alike.
pub open spec fn keeps<W: Precise>(
    pts: Seq<Pt>,
    first: int,
    last: int,
    eps2: u64,
    i: int,
) -> bool
    decreases last - first,
{
    let m = peak::<W>(pts, first, last);
    if last <= first + 1 || !(first < m < last) || bulge::<W>(pts, first, last, m) <= eps2 {
        false
    } else {
        i == m || keeps::<W>(pts, first, m, eps2, i) || keeps::<W>(pts, m, last, eps2, i)
    }
}

/// The loop with its first point repeated at the end.
pub open spec fn unrolled(pts: Seq<Pt>) -> Seq<Pt> {
    pts.push(pts[0])
}

/// Vertex `i` of a closed loop stays.
pub open spec fn stays<W: Precise>(
    pts: Seq<Pt>,
    eps2: u64,
    i: int,
) -> bool {
    i == 0 || keeps::<W>(unrolled(pts), 0, pts.len() as int, eps2, i)
}

/// Those of the first `n` vertices of a closed loop that stay.
pub open spec fn staying<W: Precise>(
    pts: Seq<Pt>,
    eps2: u64,
    n: int,
) -> Seq<Pt>
    decreases n,
{
    if n <= 0 {
        Seq::empty()
    } else {
        let before = staying::<W>(pts, eps2, n - 1);
        if stays::<W>(pts, eps2, n - 1) {
            before.push(pts[n - 1])
        } else {
            before
        }
    }
}

/// The squared tolerance, as an integer to hold distances against.
pub open spec fn tolerance_of<W: Precise>(epsilon: W) -> u64 {
    wide_rank_of(product_of(epsilon, epsilon))
}

/// A closed loop simplified with a tolerance; with one that is not positive it is left as it is.
pub open spec fn simplified<W: Precise>(pts: Seq<Pt>, epsilon: W) -> Seq<Pt> {
    if at_least(whole_of::<W>(0), epsilon) || pts.len() <= 3 {
        pts
    } else {
        staying::<W>(pts, tolerance_of(epsilon), pts.len() as int)
    }
}

proof fn lemma_peak_unique<W: Precise>(
    pts: Seq<Pt>,
    first: int,
    last: int,
    m: int,
    n: int,
)
    requires
        is_peak::<W>(pts, first, last, m),
        is_peak::<W>(pts, first, last, n),
    ensures
        m == n,
{
    assert(bulge::<W>(pts, first, last, m) <= bulge::<W>(pts, first, last, n));
    assert(bulge::<W>(pts, first, last, n) <= bulge::<W>(pts, first, last, m));
}

/// Only points strictly between are kept.
proof fn lemma_keeps_between<W: Precise>(
    pts: Seq<Pt>,
    first: int,
    last: int,
    eps2: u64,
    i: int,
)
    requires
        keeps::<W>(pts, first, last, eps2, i),
    ensures
        first < i < last,
    decreases last - first,
{
    let m = peak::<W>(pts, first, last);
    if i != m {
        if keeps::<W>(pts, first, m, eps2, i) {
            lemma_keeps_between::<W>(pts, first, m, eps2, i);
        } else {
            lemma_keeps_between::<W>(pts, m, last, eps2, i);
        }
    }
}

fn rdp<W: Precise>(
    pts: &Vec<Pt>,
    first: usize,
    last: usize,
    eps2: u64,
    keep: &mut Vec<bool>,
)
    requires
        precise::<W>(),
        first < pts@.len(),
        last < pts@.len(),
        old(keep)@.len() == pts@.len(),
    ensures
        final(keep)@.len() == pts@.len(),
        forall|i: int|
            0 <= i < pts@.len() ==> #[trigger] final(keep)@[i] == (old(keep)@[i] || keeps::<W>(
                pts@,
                first as int,
                last as int,
                eps2,
                i,
            )),
    decreases last - first,
{
    if last <= first || last - first <= 1 {
        return;
    }
    let ghost (f, l) = (first as int, last as int);
    let start: Pt = pts[first];
    let end: Pt = pts[last];
    let mut idx: usize = first + 1;
    let mut max_d: u64 = wide_rank(perp_dist2::<W>(pts[idx], start, end));
    let mut i: usize = first + 2;
    while i < last
        invariant
            precise::<W>(),
            f == first,
            l == last,
            last < pts@.len(),
            start == pts@[f],
            end == pts@[l],
            first < idx < i <= last,
            max_d == bulge::<W>(pts@, f, l, idx as int),
            forall|j: int|
                f < j < i ==> #[trigger] bulge::<W>(pts@, f, l, j) <= bulge::<W>(
                    pts@,
                    f,
                    l,
                    idx as int,
                ),
            forall|j: int|
                f < j < idx ==> #[trigger] bulge::<W>(pts@, f, l, j) < bulge::<W>(
                    pts@,
                    f,
                    l,
                    idx as int,
                ),
        decreases last - i,
    {
        let d: u64 = wide_rank(perp_dist2::<W>(pts[i], start, end));
        proof {
            assert(d == bulge::<W>(pts@, f, l, i as int));
        }
        if d > max_d {
            max_d = d;
            idx = i;
        }
        i = i + 1;
    }
    proof {
        assert(is_peak::<W>(pts@, f, l, idx as int));
        lemma_peak_unique::<W>(pts@, f, l, idx as int, peak::<W>(pts@, f, l));
    }
    if max_d > eps2 {
        keep.set(idx, true);
        rdp::<W>(pts, first, idx, eps2, keep);
        rdp::<W>(pts, idx, last, eps2, keep);
    }
}

/// Simplify a closed loop with tolerance `epsilon`. Returns the kept vertices
/// (first point preserved as an anchor). A non-positive epsilon is a no-op.
pub fn simplify_closed<W: Precise>(loop_pts: &[Pt], epsilon: W) -> (out: Vec<Pt>)
    requires
        precise::<W>(),
    ensures
        out@ == simplified(loop_pts@, epsilon),
{
    let n: usize = loop_pts.len();
    let mut pts: Vec<Pt> = slice_to_vec(loop_pts);
    if is_at_least(from_index(0), epsilon) || n <= 3 {
        return pts;
    }
    let tolerance: u64 = wide_rank(times(epsilon, epsilon));
    // Treat the closed loop as an open polyline that returns to its anchor.
    pts.push(loop_pts[0]);
    let mut keep: Vec<bool> = vec![false; pts.len()];
    keep.set(0, true);
    keep.set(n, true);
    rdp::<W>(&pts, 0, n, tolerance, &mut keep);
    let mut out: Vec<Pt> = Vec::new();
    let mut i: usize = 0;
    while i < n
        invariant
            n == loop_pts@.len(),
            i <= n,
            pts@ == unrolled(loop_pts@),
            keep@.len() == n + 1,
            forall|j: int|
                0 <= j < n ==> #[trigger] keep@[j] == stays::<W>(loop_pts@, tolerance, j),
            out@ == staying::<W>(loop_pts@, tolerance, i as int),
        decreases n - i,
    {
        if keep[i] {
            out.push(pts[i]);
        }
        i = i + 1;
    }
    out
}

/// A vertex that goes lies within the tolerance of the chord between the vertices that stay
/// next to it: points `a` and `b` stay, nothing between them does, and vertex `i` is within
/// `eps2` of the segment from `a` to `b`.
pub open spec fn near_chord<W: Precise>(
    pts: Seq<Pt>,
    first: int,
    last: int,
    eps2: u64,
    i: int,
    a: int,
    b: int,
) -> bool {
    &&& first <= a < i < b <= last
    &&& a == first || keeps::<W>(pts, first, last, eps2, a)
    &&& b == last || keeps::<W>(pts, first, last, eps2, b)
    &&& forall|j: int| a < j < b ==> !#[trigger] keeps::<W>(pts, first, last, eps2, j)
    &&& bulge::<W>(pts, a, b, i) <= eps2
}

proof fn lemma_peak_exists<W: Precise>(
    pts: Seq<Pt>,
    first: int,
    last: int,
    n: int,
) -> (m: int)
    requires
        first + 1 < n <= last,
    ensures
        first < m < n,
        forall|j: int|
            first < j < n ==> #[trigger] bulge::<W>(pts, first, last, j) <= bulge::<W>(
                pts,
                first,
                last,
                m,
            ),
        forall|j: int|
            first < j < m ==> #[trigger] bulge::<W>(pts, first, last, j) < bulge::<W>(
                pts,
                first,
                last,
                m,
            ),
    decreases n - first,
{
    if n == first + 2 {
        first + 1
    } else {
        let m = lemma_peak_exists::<W>(pts, first, last, n - 1);
        if bulge::<W>(pts, first, last, n - 1) > bulge::<W>(pts, first, last, m) {
            n - 1
        } else {
            m
        }
    }
}

proof fn lemma_near_chord<W: Precise>(
    pts: Seq<Pt>,
    first: int,
    last: int,
    eps2: u64,
    i: int,
) -> (r: (int, int))
    requires
        first < i < last,
        !keeps::<W>(pts, first, last, eps2, i),
    ensures
        near_chord::<W>(pts, first, last, eps2, i, r.0, r.1),
    decreases last - first,
{
    let w = lemma_peak_exists::<W>(pts, first, last, last);
    assert(is_peak::<W>(pts, first, last, w));
    let m = peak::<W>(pts, first, last);
    assert(is_peak::<W>(pts, first, last, m));
    if bulge::<W>(pts, first, last, m) <= eps2 {
        assert(bulge::<W>(pts, first, last, i) <= bulge::<W>(pts, first, last, m));
        (first, last)
    } else {
        let (lo, hi) = if i < m {
            (first, m)
        } else {
            (m, last)
        };
        let (a, b) = lemma_near_chord::<W>(pts, lo, hi, eps2, i);
        assert forall|j: int| a < j < b implies !#[trigger] keeps::<W>(
            pts,
            first,
            last,
            eps2,
            j,
        ) by {
            assert(!keeps::<W>(pts, lo, hi, eps2, j));
            if keeps::<W>(pts, first, m, eps2, j) {
                lemma_keeps_between::<W>(pts, first, m, eps2, j);
            }
            if keeps::<W>(pts, m, last, eps2, j) {
                lemma_keeps_between::<W>(pts, m, last, eps2, j);
            }
        }
        (a, b)
    }
}

/// Simplification only drops vertices that lie within the tolerance of the chord that takes
/// their place.
pub proof fn law_dropped_vertices_are_near<W: Precise>(
    pts: Seq<Pt>,
    eps2: u64,
    i: int,
)
    requires
        pts.len() > 3,
        0 <= i < pts.len(),
        !stays::<W>(pts, eps2, i),
    ensures
        exists|a: int, b: int|
            near_chord::<W>(unrolled(pts), 0, pts.len() as int, eps2, i, a, b),
{
    let (a, b) = lemma_near_chord::<W>(unrolled(pts), 0, pts.len() as int, eps2, i);
    assert(near_chord::<W>(unrolled(pts), 0, pts.len() as int, eps2, i, a, b));
}

/// The first vertex is kept as an anchor, and no vertices are invented.
pub proof fn law_simplifying_keeps_the_anchor<W: Precise>(pts: Seq<Pt>, epsilon: W)
    requires
        pts.len() > 0,
    ensures
        0 < simplified(pts, epsilon).len() <= pts.len(),
        simplified(pts, epsilon)[0] == pts[0],
        forall|k: int|
            0 <= k < simplified(pts, epsilon).len() ==> pts.contains(
                #[trigger] simplified(pts, epsilon)[k],
            ),
{
    if pts.len() > 3 {
        lemma_staying::<W>(pts, tolerance_of(epsilon), pts.len() as int);
    }
}

proof fn lemma_staying<W: Precise>(pts: Seq<Pt>, eps2: u64, n: int)
    requires
        0 < n <= pts.len(),
    ensures
        0 < staying::<W>(pts, eps2, n).len() <= n,
        staying::<W>(pts, eps2, n)[0] == pts[0],
        forall|k: int|
            0 <= k < staying::<W>(pts, eps2, n).len() ==> pts.contains(
                #[trigger] staying::<W>(pts, eps2, n)[k],
            ),
    decreases n,
{
    if n > 1 {
        lemma_staying::<W>(pts, eps2, n - 1);
    } else {
        assert(staying::<W>(pts, eps2, 0) == Seq::<Pt>::empty());
        assert(stays::<W>(pts, eps2, 0));
    }
    assert(pts.contains(pts[n - 1]));
}

/// `t` is `s` without some of its points: those at the places `from` are left, in their order.
pub open spec fn picks(s: Seq<Pt>, t: Seq<Pt>, from: Seq<int>) -> bool {
    &&& from.len() == t.len()
    &&& forall|k: int| 0 <= k < from.len() ==> 0 <= #[trigger] from[k] < s.len()
    &&& forall|k: int, l: int| 0 <= k < l < from.len() ==> #[trigger] from[k] < #[trigger] from[l]
    &&& forall|k: int| 0 <= k < from.len() ==> t[k] == s[#[trigger] from[k]]
}

/// Where the vertices that stay among the first `n` stand.
pub proof fn lemma_staying_places<W: Precise>(pts: Seq<Pt>, eps2: u64, n: int) -> (from: Seq<int>)
    requires
        0 <= n <= pts.len(),
    ensures
        picks(pts, staying::<W>(pts, eps2, n), from),
        forall|k: int| 0 <= k < from.len() ==> #[trigger] from[k] < n,
        forall|k: int| 0 <= k < from.len() ==> stays::<W>(pts, eps2, #[trigger] from[k]),
        forall|i: int| 0 <= i < n && #[trigger] stays::<W>(pts, eps2, i) ==> from.contains(i),
    decreases n,
{
    if n == 0 {
        Seq::empty()
    } else {
        let from = lemma_staying_places::<W>(pts, eps2, n - 1);
        let before = staying::<W>(pts, eps2, n - 1);
        if stays::<W>(pts, eps2, n - 1) {
            let more = from.push(n - 1);
            let now = before.push(pts[n - 1]);
            assert forall|k: int| 0 <= k < more.len() implies now[k] == pts[#[trigger] more[k]]
                && stays::<W>(pts, eps2, more[k]) && 0 <= more[k] < n by {
                if k < from.len() {
                    assert(more[k] == from[k]);
                }
            }
            assert forall|k: int, l: int| 0 <= k < l < more.len() implies #[trigger] more[k]
                < #[trigger] more[l] by {
                assert(more[k] == from[k]);
                if l < from.len() {
                    assert(more[l] == from[l]);
                }
            }
            assert forall|i: int| 0 <= i < n && #[trigger] stays::<W>(
                pts,
                eps2,
                i,
            ) implies more.contains(i) by {
                if i == n - 1 {
                    assert(more[from.len() as int] == i);
                } else {
                    let k = choose|k: int| 0 <= k < from.len() && from[k] == i;
                    assert(more[k] == i);
                }
            }
            more
        } else {
            from
        }
    }
}

/// What a larger tolerance keeps, a smaller one does.
proof fn lemma_keeps_more<W: Precise>(
    pts: Seq<Pt>,
    first: int,
    last: int,
    small: u64,
    large: u64,
    i: int,
)
    requires
        small <= large,
        keeps::<W>(pts, first, last, large, i),
    ensures
        keeps::<W>(pts, first, last, small, i),
    decreases last - first,
{
    let m = peak::<W>(pts, first, last);
    if i != m {
        if keeps::<W>(pts, first, m, large, i) {
            lemma_keeps_more::<W>(pts, first, m, small, large, i);
        } else {
            lemma_keeps_more::<W>(pts, m, last, small, large, i);
        }
    }
}

/// Positive tolerances are in the order of their squares.
proof fn lemma_tolerances_grow<W: Precise>(small: W, large: W)
    requires
        precise::<W>(),
        at_least(large, small),
        !at_least(whole_of::<W>(0), small),
    ensures
        !at_least(whole_of::<W>(0), large),
        tolerance_of(small) <= tolerance_of(large),
{
    reveal(ordered);
    reveal(graded);
    let zero = whole_of::<W>(0);
    assert(at_least(small, small));
    assert(at_least(zero, zero));
    assert(at_least(small, zero));
    assert(at_least(product_of(large, large), product_of(small, small)));
    if at_least(zero, large) {
        assert(at_least(zero, small));
    }
}

/// A larger tolerance never keeps a vertex that a smaller one drops: what it leaves of a loop is
/// part of what the smaller one leaves.
pub proof fn law_larger_tolerances_keep_less<W: Precise>(pts: Seq<Pt>, small: W, large: W)
    requires
        precise::<W>(),
        at_least(large, small),
    ensures
        exists|from: Seq<int>| picks(simplified(pts, small), simplified(pts, large), from),
{
    let n = pts.len() as int;
    if !at_least(whole_of::<W>(0), small) {
        lemma_tolerances_grow(small, large);
    }
    let (s, l) = (simplified(pts, small), simplified(pts, large));
    if s == l {
        assert(picks(s, l, Seq::new(s.len(), |k: int| k)));
    } else {
        let of_l = lemma_staying_places::<W>(pts, tolerance_of(large), n);
        if at_least(whole_of::<W>(0), small) {
            assert(picks(s, l, of_l));
        } else {
            let of_s = lemma_staying_places::<W>(pts, tolerance_of(small), n);
            assert forall|k: int| 0 <= k < of_l.len() implies of_s.contains(#[trigger] of_l[k]) by {
                let i = of_l[k];
                assert(stays::<W>(pts, tolerance_of(large), i));
                if i != 0 {
                    lemma_keeps_more::<W>(
                        unrolled(pts),
                        0,
                        n,
                        tolerance_of(small),
                        tolerance_of(large),
                        i,
                    );
                }
                assert(stays::<W>(pts, tolerance_of(small), i));
            }
            let from = Seq::new(
                of_l.len(),
                |k: int| choose|j: int| 0 <= j < of_s.len() && of_s[j] == of_l[k],
            );
            assert forall|k: int| 0 <= k < from.len() implies 0 <= #[trigger] from[k] < of_s.len()
                && of_s[from[k]] == of_l[k] by {
                assert(of_s.contains(of_l[k]));
            }
            assert forall|k: int, m: int| 0 <= k < m < from.len() implies #[trigger] from[k]
                < #[trigger] from[m] by {
                assert(of_l[k] < of_l[m]);
                if from[k] > from[m] {
                    assert(of_s[from[m]] < of_s[from[k]]);
                }
            }
            assert(picks(s, l, from));
        }
    }
}

/// Between two kept vertices the kept ones are kept again when they alone are left: `from` holds
/// the places of the vertices of `q` in `p`, and those strictly between places `a` and `b` are
/// what is kept between them.
proof fn lemma_kept_again<W: Precise>(
    p: Seq<Pt>,
    q: Seq<Pt>,
    from: Seq<int>,
    a: int,
    b: int,
    eps2: u64,
    j: int,
)
    requires
        picks(p, q, from),
        0 <= a < j < b < q.len(),
        forall|k: int|
            a < k < b ==> keeps::<W>(p, from[a], from[b], eps2, #[trigger] from[k]),
        forall|i: int| #[trigger]
            keeps::<W>(p, from[a], from[b], eps2, i) ==> exists|k: int|
                a < k < b && #[trigger] from[k] == i,
    ensures
        keeps::<W>(q, a, b, eps2, j),
    decreases b - a,
{
    let (f, l) = (from[a], from[b]);
    assert(keeps::<W>(p, f, l, eps2, from[j]));
    lemma_keeps_between::<W>(p, f, l, eps2, from[j]);
    let w = lemma_peak_exists::<W>(p, f, l, l);
    assert(is_peak::<W>(p, f, l, w));
    let m = peak::<W>(p, f, l);
    assert(is_peak::<W>(p, f, l, m));
    assert(keeps::<W>(p, f, l, eps2, m));
    let c = choose|k: int| a < k < b && #[trigger] from[k] == m;
    assert(is_peak::<W>(q, a, b, c)) by {
        assert forall|k: int| a < k < b implies #[trigger] bulge::<W>(q, a, b, k) == bulge::<W>(
            p,
            f,
            l,
            from[k],
        ) && f < from[k] < l by {
            assert(q[k] == p[from[k]] && q[a] == p[from[a]] && q[b] == p[from[b]]);
            assert(from[a] < from[k] && from[k] < from[b]);
        }
        assert forall|k: int| a < k < c implies #[trigger] bulge::<W>(q, a, b, k) < bulge::<W>(
            q,
            a,
            b,
            c,
        ) by {
            assert(bulge::<W>(q, a, b, k) == bulge::<W>(p, f, l, from[k]));
            assert(from[k] < from[c]);
        }
    }
    lemma_peak_unique::<W>(q, a, b, c, peak::<W>(q, a, b));
    assert(bulge::<W>(q, a, b, c) == bulge::<W>(p, f, l, m)) by {
        assert(q[c] == p[from[c]] && q[a] == p[from[a]] && q[b] == p[from[b]]);
    }
    if j < c {
        lemma_half::<W>(p, from, a, b, c, eps2);
        lemma_kept_again::<W>(p, q, from, a, c, eps2, j);
    } else if j > c {
        lemma_half::<W>(p, from, a, b, c, eps2);
        lemma_kept_again::<W>(p, q, from, c, b, eps2, j);
    }
}

/// The kept vertices on either side of the one that bulges most are those kept on that side.
proof fn lemma_half<W: Precise>(
    p: Seq<Pt>,
    from: Seq<int>,
    a: int,
    b: int,
    c: int,
    eps2: u64,
)
    requires
        0 <= a < c < b < from.len(),
        forall|k: int, l: int|
            0 <= k < l < from.len() ==> #[trigger] from[k] < #[trigger] from[l],
        from[c] == peak::<W>(p, from[a], from[b]),
        bulge::<W>(p, from[a], from[b], from[c]) > eps2,
        forall|k: int|
            a < k < b ==> keeps::<W>(p, from[a], from[b], eps2, #[trigger] from[k]),
        forall|i: int| #[trigger]
            keeps::<W>(p, from[a], from[b], eps2, i) ==> exists|k: int|
                a < k < b && #[trigger] from[k] == i,
    ensures
        forall|k: int|
            a < k < c ==> keeps::<W>(p, from[a], from[c], eps2, #[trigger] from[k]),
        forall|i: int| #[trigger]
            keeps::<W>(p, from[a], from[c], eps2, i) ==> exists|k: int|
                a < k < c && #[trigger] from[k] == i,
        forall|k: int|
            c < k < b ==> keeps::<W>(p, from[c], from[b], eps2, #[trigger] from[k]),
        forall|i: int| #[trigger]
            keeps::<W>(p, from[c], from[b], eps2, i) ==> exists|k: int|
                c < k < b && #[trigger] from[k] == i,
{
    let (f, m, l) = (from[a], from[c], from[b]);
    assert forall|k: int| a < k < c implies keeps::<W>(p, f, m, eps2, #[trigger] from[k]) by {
        assert(from[k] < from[c]);
        assert(keeps::<W>(p, f, l, eps2, from[k]));
        if keeps::<W>(p, m, l, eps2, from[k]) {
            lemma_keeps_between::<W>(p, m, l, eps2, from[k]);
        }
    }
    assert forall|k: int| c < k < b implies keeps::<W>(p, m, l, eps2, #[trigger] from[k]) by {
        assert(from[c] < from[k]);
        assert(keeps::<W>(p, f, l, eps2, from[k]));
        if keeps::<W>(p, f, m, eps2, from[k]) {
            lemma_keeps_between::<W>(p, f, m, eps2, from[k]);
        }
    }
    assert forall|i: int| #[trigger] keeps::<W>(p, f, m, eps2, i) implies exists|k: int|
        a < k < c && #[trigger] from[k] == i by {
        lemma_keeps_between::<W>(p, f, m, eps2, i);
        assert(keeps::<W>(p, f, l, eps2, i));
        let k = choose|k: int| a < k < b && #[trigger] from[k] == i;
        if k > c {
            assert(from[c] < from[k]);
        }
        assert(a < k < c && from[k] == i);
    }
    assert forall|i: int| #[trigger] keeps::<W>(p, m, l, eps2, i) implies exists|k: int|
        c < k < b && #[trigger] from[k] == i by {
        lemma_keeps_between::<W>(p, m, l, eps2, i);
        assert(keeps::<W>(p, f, l, eps2, i));
        let k = choose|k: int| a < k < b && #[trigger] from[k] == i;
        if k < c {
            assert(from[k] < from[c]);
        }
        assert(c < k < b && from[k] == i);
    }
}

/// If every vertex stays, the loop does.
proof fn lemma_all_stay<W: Precise>(pts: Seq<Pt>, eps2: u64, n: int)
    requires
        0 <= n <= pts.len(),
        forall|j: int| 0 <= j < n ==> #[trigger] stays::<W>(pts, eps2, j),
    ensures
        staying::<W>(pts, eps2, n) == pts.take(n),
    decreases n,
{
    if n > 0 {
        lemma_all_stay::<W>(pts, eps2, n - 1);
        assert(stays::<W>(pts, eps2, n - 1));
        assert(pts.take(n) =~= pts.take(n - 1).push(pts[n - 1]));
    } else {
        assert(pts.take(0) =~= Seq::<Pt>::empty());
    }
}

/// Simplifying a loop again with the same tolerance changes nothing.
pub proof fn law_simplifying_twice_changes_nothing<W: Precise>(pts: Seq<Pt>, epsilon: W)
    requires
        pts.len() > 0,
    ensures
        simplified(simplified(pts, epsilon), epsilon) == simplified(pts, epsilon),
{
    let q = simplified(pts, epsilon);
    if q != pts && q.len() > 3 {
        let n = pts.len() as int;
        let m = q.len() as int;
        let t = tolerance_of(epsilon);
        let places = lemma_staying_places::<W>(pts, t, n);
        assert(stays::<W>(pts, t, 0));
        let zero = choose|k: int| 0 <= k < places.len() && places[k] == 0;
        assert(places[0] == 0) by {
            if zero > 0 {
                assert(places[0] < places[zero]);
            }
        }
        let (p, u) = (unrolled(pts), unrolled(q));
        let from = places.push(n);
        assert(picks(p, u, from)) by {
            assert forall|k: int| 0 <= k < from.len() implies u[k] == p[#[trigger] from[k]] && 0
                <= from[k] < p.len() by {
                if k < m {
                    assert(from[k] == places[k]);
                    assert(q[k] == pts[places[k]]);
                } else {
                    assert(q[0] == pts[places[0]]);
                }
            }
            assert forall|k: int, l: int| 0 <= k < l < from.len() implies #[trigger] from[k]
                < #[trigger] from[l] by {
                assert(from[k] == places[k]);
                if l < m {
                    assert(from[l] == places[l]);
                }
            }
        }
        assert forall|k: int| 0 < k < m implies keeps::<W>(
            p,
            from[0],
            from[m],
            t,
            #[trigger] from[k],
        ) by {
            assert(from[k] == places[k]);
            assert(places[0] < places[k]);
            assert(stays::<W>(pts, t, places[k]));
        }
        assert forall|i: int| #[trigger] keeps::<W>(p, from[0], from[m], t, i) implies exists|
            k: int,
        |
            0 < k < m && #[trigger] from[k] == i by {
            lemma_keeps_between::<W>(p, from[0], from[m], t, i);
            assert(stays::<W>(pts, t, i));
            let k = choose|k: int| 0 <= k < places.len() && places[k] == i;
            assert(from[k] == i);
            assert(0 < k < m);
        }
        assert forall|j: int| 0 <= j < m implies #[trigger] stays::<W>(q, t, j) by {
            if j > 0 {
                lemma_kept_again::<W>(p, u, from, 0, m, t, j);
            }
        }
        lemma_all_stay::<W>(q, t, m);
        assert(q.take(m) =~= q);
    }
}

} // verus!
