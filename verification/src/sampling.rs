//! How samples are drawn, grouped and told apart.

use vstd::prelude::*;

use crate::clusters::lemma_pick_of;
use crate::color::Lab;
use crate::exact::{
    exact, lemma_exact, lemma_exact_ratio, lemma_exact_whole, lemma_prod_assoc, lemma_prod_ring,
    prod,
};
use crate::number::{
    below, count_of, difference_of, narrow_of, quotient_of, ratio_of, whole_of, wide_of, Precise,
};
use crate::quantize::{
    assignment, bucket, channel_sum, drawn, fraction_bits, lemma_opaque_pixels, mean_of, members,
    opaque, opaque_colors, opaque_pixels, packed, recentered, refined, share_of,
};

verus! {

/// Both kinds of numbers stand for real numbers, and taking one for the other changes nothing.
pub open spec fn exact_pair<W: Precise>(
    val: spec_fn(W) -> real,
    single: spec_fn(W::Single) -> real,
) -> bool {
    &&& exact(val)
    &&& exact(single)
    &&& forall|x: W::Single| val(#[trigger] wide_of::<W>(x)) == single(x)
    &&& forall|y: W| single(#[trigger] narrow_of(y)) == val(y)
    &&& forall|n: u64| val(#[trigger] count_of::<W>(n)) == n as int as real
}

/// The sum of the positive ones among the gaps from `i` to below `j`.
pub open spec fn positive_sum<W: Precise>(
    single: spec_fn(W::Single) -> real,
    ds: Seq<W::Single>,
    i: int,
    j: int,
) -> real
    decreases j - i,
{
    if j <= i {
        0real
    } else {
        positive_sum::<W>(single, ds, i, j - 1) + if single(ds[j - 1]) > 0real {
            single(ds[j - 1])
        } else {
            0real
        }
    }
}

proof fn lemma_positive_first<W: Precise>(
    single: spec_fn(W::Single) -> real,
    ds: Seq<W::Single>,
    i: int,
    j: int,
)
    requires
        i < j,
    ensures
        positive_sum::<W>(single, ds, i, j) == positive_sum::<W>(single, ds, i + 1, j) + if single(
            ds[i],
        ) > 0real {
            single(ds[i])
        } else {
            0real
        },
    decreases j - i,
{
    if i + 1 < j {
        lemma_positive_first::<W>(single, ds, i, j - 1);
    } else {
        assert(positive_sum::<W>(single, ds, i, i) == 0real);
        assert(positive_sum::<W>(single, ds, i + 1, j) == 0real);
    }
}

/// A sample is drawn by its gap: with the positive gaps laid end to end from sample `i` on, it is
/// the first one up to whose end the weight `w` reaches; where they do not reach it, none is.
pub proof fn law_draws_go_by_weight<W: Precise>(
    val: spec_fn(W) -> real,
    single: spec_fn(W::Single) -> real,
    ds: Seq<W::Single>,
    w: W,
    i: int,
)
    requires
        exact_pair::<W>(val, single),
        0 <= i <= ds.len(),
        val(w) > 0real,
    ensures
        match drawn::<W>(ds, w, i) {
            Some(j) => {
                &&& i <= j < ds.len()
                &&& single(ds[j]) > 0real
                &&& positive_sum::<W>(single, ds, i, j) < val(w)
                &&& val(w) <= positive_sum::<W>(single, ds, i, j + 1)
            },
            None => positive_sum::<W>(single, ds, i, ds.len() as int) < val(w),
        },
    decreases ds.len() - i,
{
    if i < ds.len() {
        let zero = whole_of::<W::Single>(0);
        lemma_exact_whole(single, 0);
        lemma_exact_whole(val, 0);
        lemma_exact(single, zero, ds[i]);
        let wide = wide_of::<W>(ds[i]);
        let rest = difference_of(w, wide);
        lemma_exact(val, w, wide);
        lemma_exact(val, whole_of::<W>(0), rest);
        lemma_positive_first::<W>(single, ds, i, ds.len() as int);
        assert(positive_sum::<W>(single, ds, i, i) == 0real);
        if !below(zero, ds[i]) {
            law_draws_go_by_weight::<W>(val, single, ds, w, i + 1);
            if let Some(j) = drawn::<W>(ds, w, i + 1) {
                lemma_positive_first::<W>(single, ds, i, j);
                lemma_positive_first::<W>(single, ds, i, j + 1);
            }
        } else if val(rest) <= 0real {
            assert(positive_sum::<W>(single, ds, i, i + 1) == single(ds[i]));
        } else {
            law_draws_go_by_weight::<W>(val, single, ds, rest, i + 1);
            if let Some(j) = drawn::<W>(ds, rest, i + 1) {
                lemma_positive_first::<W>(single, ds, i, j);
                lemma_positive_first::<W>(single, ds, i, j + 1);
            }
        }
    }
}

/// The sum of channel `ch` of some colours.
pub open spec fn total<W: Precise>(
    single: spec_fn(W::Single) -> real,
    colors: Seq<Lab<W::Single>>,
    ch: int,
) -> real
    decreases colors.len(),
{
    if colors.len() == 0 {
        0real
    } else {
        total::<W>(single, colors.drop_last(), ch) + single(colors.last()[ch])
    }
}

proof fn lemma_channel_sum<W: Precise>(
    val: spec_fn(W) -> real,
    single: spec_fn(W::Single) -> real,
    colors: Seq<Lab<W::Single>>,
    ch: int,
)
    requires
        exact_pair::<W>(val, single),
    ensures
        val(channel_sum::<W>(colors, ch)) == total::<W>(single, colors, ch),
    decreases colors.len(),
{
    lemma_exact_whole(val, 0);
    if colors.len() > 0 {
        lemma_channel_sum::<W>(val, single, colors.drop_last(), ch);
        lemma_exact(
            val,
            channel_sum::<W>(colors.drop_last(), ch),
            wide_of::<W>(colors.last()[ch]),
        );
    }
}

/// The mean of some colours, taken as often as there are colours, is their sum, channel by
/// channel.
pub proof fn law_means_share_the_sum<W: Precise>(
    val: spec_fn(W) -> real,
    single: spec_fn(W::Single) -> real,
    colors: Seq<Lab<W::Single>>,
    ch: int,
)
    requires
        exact_pair::<W>(val, single),
        0 < colors.len() <= u64::MAX,
        0 <= ch < 3,
    ensures
        prod(single(mean_of::<W>(colors)[ch]), colors.len() as int as real) == total::<W>(
            single,
            colors,
            ch,
        ),
{
    let n = count_of::<W>(colors.len() as u64);
    assert(val(n) == colors.len() as int as real);
    lemma_channel_sum::<W>(val, single, colors, 0);
    lemma_channel_sum::<W>(val, single, colors, 1);
    lemma_channel_sum::<W>(val, single, colors, 2);
    lemma_exact(val, channel_sum::<W>(colors, 0), n);
    lemma_exact(val, channel_sum::<W>(colors, 1), n);
    lemma_exact(val, channel_sum::<W>(colors, 2), n);
    let m = mean_of::<W>(colors);
    assert(single(m[0]) == val(quotient_of(channel_sum::<W>(colors, 0), n)));
    assert(single(m[1]) == val(quotient_of(channel_sum::<W>(colors, 1), n)));
    assert(single(m[2]) == val(quotient_of(channel_sum::<W>(colors, 2), n)));
    assert(ch == 0 || ch == 1 || ch == 2);
}

/// Each centroid is the mean of the samples for which `before` had none nearer, or where it was
/// if there are no such samples.
pub open spec fn are_means_of<W: Precise>(
    samples: Seq<Lab<W::Single>>,
    before: Seq<Lab<W::Single>>,
    after: Seq<Lab<W::Single>>,
) -> bool {
    &&& after.len() == before.len()
    &&& forall|c: int|
        #![trigger after[c]]
        0 <= c < after.len() ==> {
            let group = members(
                samples,
                assignment(samples, before),
                c,
                samples.len() as int,
            );
            after[c] == if group.len() > 0 {
                mean_of::<W>(group)
            } else {
                before[c]
            }
        }
}

/// Refining in one round or more leaves every centroid at the mean of the samples that were
/// nearest to it in the last one; in none it changes nothing.
pub proof fn law_refining_ends_at_means<W: Precise>(
    samples: Seq<Lab<W::Single>>,
    centroids: Seq<Lab<W::Single>>,
    assign: Seq<int>,
    rounds: nat,
)
    ensures
        rounds == 0 ==> refined::<W>(samples, centroids, assign, rounds) == centroids,
        rounds > 0 ==> exists|before: Seq<Lab<W::Single>>|
            are_means_of::<W>(
                samples,
                before,
                refined::<W>(samples, centroids, assign, rounds),
            ),
    decreases rounds,
{
    if rounds > 0 {
        let now = assignment(samples, centroids);
        let moved = recentered::<W>(samples, now, centroids);
        assert(are_means_of::<W>(samples, centroids, moved));
        let after = refined::<W>(samples, centroids, assign, rounds);
        if now != assign {
            law_refining_ends_at_means::<W>(samples, moved, now, (rounds - 1) as nat);
            if rounds == 1 {
                assert(after == moved);
            }
        } else {
            assert(after == moved);
        }
    }
}

/// Two colours share a bucket if they differ at most in the three lowest bits of red and blue and
/// the two lowest of green, and only then; there are 65536 buckets.
pub proof fn law_buckets_drop_low_bits(r: u8, g: u8, b: u8, s: u8, h: u8, c: u8)
    ensures
        0 <= bucket(r, g, b) < 65536,
        bucket(r, g, b) == bucket(s, h, c) <==> r / 8 == s / 8 && g / 4 == h / 4 && b / 8 == c / 8,
{
    let (x, y, z) = ((r / 8) as int, (g / 4) as int, (b / 8) as int);
    let (u, v, w) = ((s / 8) as int, (h / 4) as int, (c / 8) as int);
    assert(x < 32 && y < 64 && z < 32 && u < 32 && v < 64 && w < 32);
    assert(bucket(r, g, b) == x * 2048 + y * 32 + z);
    assert(bucket(s, h, c) == u * 2048 + v * 32 + w);
}

/// The colours that are counted are those that some opaque pixel shows.
pub proof fn law_counted_colors_are_shown(pixels: Seq<u8>, threshold: u8, n: nat, v: u32)
    ensures
        opaque_colors(pixels, threshold, n as int).contains(v) <==> exists|i: int|
            0 <= i < n && opaque(pixels, threshold, i) && #[trigger] packed(pixels, i) == v,
{
    let picks = opaque_pixels(pixels, threshold, n);
    let shown = picks.map_values(|i: int| packed(pixels, i));
    lemma_opaque_pixels(pixels, threshold, n);
    if shown.contains(v) {
        let k = choose|k: int| 0 <= k < shown.len() && shown[k] == v;
        assert(packed(pixels, picks[k]) == v);
    }
    if exists|i: int| 0 <= i < n && opaque(pixels, threshold, i) && #[trigger] packed(pixels, i)
        == v {
        let i = choose|i: int|
            0 <= i < n && opaque(pixels, threshold, i) && #[trigger] packed(pixels, i) == v;
        let k = lemma_pick_of(pixels, threshold, n, i);
        assert(shown[k] == v);
    }
}

/// A random number draws the share of a weight that its top 24 bits say, out of as many as there
/// can be: taken that often, the share is the weight as many times as they say.
pub proof fn law_shares_go_by_the_top_bits<W: Precise>(val: spec_fn(W) -> real, r: u64, w: W)
    requires
        exact(val),
    ensures
        fraction_bits(r) as int == r as int / 0x100_0000_0000,
        fraction_bits(r) < 0x100_0000,
        prod(val(share_of(fraction_bits(r), w)), 16777216real) == prod(
            fraction_bits(r) as int as real,
            val(w),
        ),
{
    let bits = fraction_bits(r);
    assert(r >> 40 == r / 0x100_0000_0000 && (r >> 40) < 0x100_0000) by (bit_vector);
    let q = ratio_of::<W>(bits, 0x100_0000);
    lemma_exact_ratio::<W>(val, bits, 0x100_0000);
    lemma_exact(val, q, w);
    let n = 16777216real;
    lemma_prod_ring(val(q), val(w), val(q));
    lemma_prod_assoc(val(w), val(q), n);
    lemma_prod_ring(val(w), bits as int as real, n);
}

/// A pixel takes part if its alpha is above the threshold, and not at it or below.
pub proof fn law_thresholds_are_exclusive(pixels: Seq<u8>, threshold: u8, i: int)
    ensures
        pixels[4 * i + 3] <= threshold ==> !opaque(pixels, threshold, i),
        pixels[4 * i + 3] > threshold ==> opaque(pixels, threshold, i),
        !opaque(pixels, 255, i),
{
}

} // verus!
