//! How far a simplified loop strays from the loop it was made of.

use vstd::prelude::*;

use crate::contour::Pt;
use crate::number::{at_least, below, graded, product_of, whole_of, wide_rank_of, Precise};
use crate::simplify::{
    bulge, keeps, law_dropped_vertices_are_near, lemma_staying_places, near_chord, peak,
    perp_dist2_of, picks, simplified, stays, tolerance_of, unrolled,
};

verus! {

/// Vertex `i` has been cut off between the vertices `a` and `b`, the loop's first one standing for
/// the one behind its last: both are left, nothing between them is, and `i` is no farther from the
/// chord between them than the tolerance.
pub open spec fn cut_off<W: Precise>(
    pts: Seq<Pt>,
    epsilon: W,
    from: Seq<int>,
    i: int,
    a: int,
    b: int,
) -> bool {
    &&& 0 <= a < i < b <= pts.len()
    &&& from.contains(a)
    &&& from.contains(b) || b == pts.len()
    &&& forall|j: int| a < j < b ==> !#[trigger] from.contains(j)
    &&& !below(
        product_of(epsilon, epsilon),
        perp_dist2_of::<W>(pts[i], pts[a], unrolled(pts)[b]),
    )
}

/// Vertex `i` has been cut off somewhere.
pub open spec fn is_cut_off<W: Precise>(pts: Seq<Pt>, epsilon: W, from: Seq<int>, i: int) -> bool {
    exists|a: int, b: int| cut_off(pts, epsilon, from, i, a, b)
}

/// The loop `out` is left of `pts` when it is simplified: its vertices are those at the places
/// `from`, in their order and the first among them, and every other one is cut off within the
/// tolerance.
pub open spec fn is_left<W: Precise>(
    pts: Seq<Pt>,
    epsilon: W,
    out: Seq<Pt>,
    from: Seq<int>,
) -> bool {
    &&& picks(pts, out, from)
    &&& from.contains(0)
    &&& forall|i: int|
        0 <= i < pts.len() && !#[trigger] from.contains(i) ==> is_cut_off(pts, epsilon, from, i)
}

/// Simplifying a loop leaves some of its vertices, in their order and with the first among them;
/// every other vertex is no farther than the tolerance from the chord between the two that are
/// left next to it.
pub proof fn law_simplified_loops_stay_close<W: Precise>(pts: Seq<Pt>, epsilon: W)
    requires
        graded::<W>(),
        pts.len() > 0,
    ensures
        exists|from: Seq<int>| is_left(pts, epsilon, simplified(pts, epsilon), from),
{
    let from = lemma_left::<W>(pts, epsilon);
    assert(is_left(pts, epsilon, simplified(pts, epsilon), from));
}

proof fn lemma_left<W: Precise>(pts: Seq<Pt>, epsilon: W) -> (from: Seq<int>)
    requires
        graded::<W>(),
        pts.len() > 0,
    ensures
        is_left(pts, epsilon, simplified(pts, epsilon), from),
        !at_least(whole_of::<W>(0), epsilon) && pts.len() > 3 ==> forall|i: int|
            #![trigger from.contains(i)]
            from.contains(i) <==> 0 <= i < pts.len() && stays::<W>(pts, tolerance_of(epsilon), i),
{
    let out = simplified(pts, epsilon);
    let n = pts.len() as int;
    if at_least(whole_of::<W>(0), epsilon) || n <= 3 {
        let from = Seq::new(pts.len(), |i: int| i);
        assert forall|i: int| 0 <= i < n implies #[trigger] from.contains(i) by {
            assert(from[i] == i);
        }
        assert(picks(pts, out, from));
        from
    } else {
        let eps2 = tolerance_of(epsilon);
        let from = lemma_staying_places::<W>(pts, eps2, n);
        assert forall|i: int|
            #![trigger from.contains(i)]
            from.contains(i) <==> 0 <= i < n && stays::<W>(pts, eps2, i) by {
            if from.contains(i) {
                let k = choose|k: int| 0 <= k < from.len() && from[k] == i;
                assert(from[k] < n);
            }
        }
        assert(stays::<W>(pts, eps2, 0));
        assert(from.contains(0));
        assert forall|i: int| 0 <= i < n && !#[trigger] from.contains(i) implies is_cut_off(
            pts,
            epsilon,
            from,
            i,
        ) by {
            lemma_cut_off::<W>(pts, epsilon, from, i);
        }
        from
    }
}

proof fn lemma_cut_off<W: Precise>(pts: Seq<Pt>, epsilon: W, from: Seq<int>, i: int)
    requires
        graded::<W>(),
        pts.len() > 3,
        0 <= i < pts.len(),
        !stays::<W>(pts, tolerance_of(epsilon), i),
        forall|i: int|
            #![trigger from.contains(i)]
            from.contains(i) <==> 0 <= i < pts.len() && stays::<W>(pts, tolerance_of(epsilon), i),
    ensures
        is_cut_off(pts, epsilon, from, i),
{
    let n = pts.len() as int;
    let eps2 = tolerance_of(epsilon);
    law_dropped_vertices_are_near::<W>(pts, eps2, i);
    let (a, b) = choose|a: int, b: int| near_chord::<W>(unrolled(pts), 0, n, eps2, i, a, b);
    assert(near_chord::<W>(unrolled(pts), 0, n, eps2, i, a, b));
    let dist = perp_dist2_of::<W>(unrolled(pts)[i], unrolled(pts)[a], unrolled(pts)[b]);
    assert(wide_rank_of(dist) <= eps2);
    assert(!below(product_of(epsilon, epsilon), dist)) by {
        reveal(graded);
    }
    assert(unrolled(pts)[i] == pts[i] && unrolled(pts)[a] == pts[a]);
    assert(from.contains(a));
    assert(from.contains(b) || b == n);
    assert forall|j: int| a < j < b implies !#[trigger] from.contains(j) by {}
    assert(cut_off(pts, epsilon, from, i, a, b));
}

/// Vertex `i` sticks out between the vertices `a` and `b`, the loop's first one standing for the
/// one behind its last: both are left, and `i` is farther from the chord between them than the
/// tolerance.
pub open spec fn sticks_out<W: Precise>(
    pts: Seq<Pt>,
    epsilon: W,
    from: Seq<int>,
    i: int,
    a: int,
    b: int,
) -> bool {
    &&& 0 <= a < i < b <= pts.len()
    &&& from.contains(a)
    &&& from.contains(b) || b == pts.len()
    &&& !at_least(
        product_of(epsilon, epsilon),
        perp_dist2_of::<W>(pts[i], pts[a], unrolled(pts)[b]),
    )
}

/// Vertex `i` sticks out somewhere.
pub open spec fn does_stick_out<W: Precise>(
    pts: Seq<Pt>,
    epsilon: W,
    from: Seq<int>,
    i: int,
) -> bool {
    exists|a: int, b: int| sticks_out(pts, epsilon, from, i, a, b)
}

/// Vertex `j` is an end of the loop or kept in it.
spec fn is_kept<W: Precise>(pts: Seq<Pt>, n: int, eps2: u64, j: int) -> bool {
    j == 0 || j == n || keeps::<W>(pts, 0, n, eps2, j)
}

proof fn lemma_sticks_out<W: Precise>(
    pts: Seq<Pt>,
    n: int,
    eps2: u64,
    first: int,
    last: int,
    i: int,
) -> (r: (int, int))
    requires
        keeps::<W>(pts, first, last, eps2, i),
        is_kept::<W>(pts, n, eps2, first),
        is_kept::<W>(pts, n, eps2, last),
        forall|j: int| #[trigger]
            keeps::<W>(pts, first, last, eps2, j) ==> keeps::<W>(pts, 0, n, eps2, j),
    ensures
        first <= r.0 < i < r.1 <= last,
        is_kept::<W>(pts, n, eps2, r.0),
        is_kept::<W>(pts, n, eps2, r.1),
        bulge::<W>(pts, r.0, r.1, i) > eps2,
    decreases last - first,
{
    let m = peak::<W>(pts, first, last);
    assert(keeps::<W>(pts, first, last, eps2, m));
    if i == m {
        (first, last)
    } else if keeps::<W>(pts, first, m, eps2, i) {
        assert forall|j: int| #[trigger] keeps::<W>(pts, first, m, eps2, j) implies keeps::<W>(
            pts,
            0,
            n,
            eps2,
            j,
        ) by {
            assert(keeps::<W>(pts, first, last, eps2, j));
        }
        lemma_sticks_out::<W>(pts, n, eps2, first, m, i)
    } else {
        assert forall|j: int| #[trigger] keeps::<W>(pts, m, last, eps2, j) implies keeps::<W>(
            pts,
            0,
            n,
            eps2,
            j,
        ) by {
            assert(keeps::<W>(pts, first, last, eps2, j));
        }
        lemma_sticks_out::<W>(pts, n, eps2, m, last, i)
    }
}

/// What simplifying leaves is needed: where there is a tolerance and the loop is more than a
/// triangle, every vertex that is left but the first sticks out, by more than the tolerance,
/// between two others that are left.
pub proof fn law_simplified_loops_keep_no_more_than_needed<W: Precise>(pts: Seq<Pt>, epsilon: W)
    requires
        graded::<W>(),
        pts.len() > 3,
        !at_least(whole_of::<W>(0), epsilon),
    ensures
        exists|from: Seq<int>|
            {
                &&& #[trigger] is_left(pts, epsilon, simplified(pts, epsilon), from)
                &&& forall|i: int|
                    #[trigger] from.contains(i) && i != 0 ==> does_stick_out(pts, epsilon, from, i)
            },
{
    let n = pts.len() as int;
    let eps2 = tolerance_of(epsilon);
    let from = lemma_left::<W>(pts, epsilon);
    let all = unrolled(pts);
    assert forall|i: int| #[trigger] from.contains(i) && i != 0 implies does_stick_out(
        pts,
        epsilon,
        from,
        i,
    ) by {
        assert(keeps::<W>(all, 0, n, eps2, i));
        let (a, b) = lemma_sticks_out::<W>(all, n, eps2, 0, n, i);
        assert(stays::<W>(pts, eps2, a) && from.contains(a));
        assert(b == n || stays::<W>(pts, eps2, b) && from.contains(b));
        assert(all[i] == pts[i] && all[a] == pts[a]);
        let dist = perp_dist2_of::<W>(pts[i], pts[a], all[b]);
        assert(wide_rank_of(dist) > wide_rank_of(product_of(epsilon, epsilon)));
        assert(!at_least(product_of(epsilon, epsilon), dist)) by {
            reveal(graded);
        }
        assert(sticks_out(pts, epsilon, from, i, a, b));
    }
}

} // verus!
