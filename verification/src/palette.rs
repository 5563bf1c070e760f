//! What quantization promises of the image as a whole: its shape, its transparent pixels and
//! the number of its colours.

use vstd::prelude::*;

use crate::color::{rgb_of, Lab};
use crate::number::{Number, Precise};
use crate::quantize::{
    assignment, chosen, cluster, color_count, distance, fitted, fraction_bits, gaps, is_nearest,
    lemma_opaque_pixels, lemma_opaque_prefix, lemma_opaque_step, lemma_windows, nearest_index,
    opaque, opaque_colors, opaque_pixels, ordinal, packed, pixel_bucket, pixel_color, quantized,
    recentered, refined, remembered, sample_count, sampled, seeded, spent, unassigned, weight_sum,
    QuantizeConfig,
};
use crate::rng::random;

verus! {

/// The image keeps its size, every alpha value, and all bytes of the pixels that take no part.
pub proof fn law_quantizing_keeps_alpha_and_transparency<W: Precise>(
    pixels: Seq<u8>,
    cfg: &QuantizeConfig,
)
    ensures
        quantized::<W>(pixels, cfg).len() == pixels.len(),
        forall|p: int|
            0 <= p < pixels.len() && (p % 4 == 3 || p / 4 >= pixels.len() / 4 || !opaque(
                pixels,
                cfg.alpha_threshold,
                p / 4,
            )) ==> #[trigger] quantized::<W>(pixels, cfg)[p] == pixels[p],
{
}

pub proof fn lemma_seeded_len<W: Precise>(
    samples: Seq<Lab<W::Single>>,
    centroids: Seq<Lab<W::Single>>,
    k: int,
    seed: u64,
    calls: nat,
)
    requires
        0 < centroids.len() <= k,
    ensures
        0 < seeded::<W>(samples, centroids, k, seed, calls).len() <= k,
    decreases k - centroids.len(),
{
    let ds = gaps(samples, centroids);
    if centroids.len() < k && !spent(weight_sum::<W>(ds)) {
        let i = chosen::<W>(
            ds,
            fraction_bits(random(seed, calls)),
        );
        lemma_seeded_len::<W>(samples, centroids.push(samples[i]), k, seed, calls + 1);
    }
}

pub proof fn lemma_refined_len<W: Precise>(
    samples: Seq<Lab<W::Single>>,
    centroids: Seq<Lab<W::Single>>,
    assign: Seq<int>,
    rounds: nat,
)
    ensures
        refined::<W>(samples, centroids, assign, rounds).len() == centroids.len(),
    decreases rounds,
{
    if rounds > 0 {
        let now = assignment(samples, centroids);
        let moved = recentered::<W>(samples, now, centroids);
        lemma_refined_len::<W>(samples, moved, now, (rounds - 1) as nat);
    }
}

/// As many centroids as asked for, or fewer, but at least one.
proof fn lemma_fitted_len<W: Precise>(pixels: Seq<u8>, cfg: &QuantizeConfig)
    requires
        opaque_pixels(pixels, cfg.alpha_threshold, pixels.len() / 4).len() > 0,
    ensures
        0 < fitted::<W>(pixels, cfg).len(),
        fitted::<W>(pixels, cfg).len() <= if cfg.num_colors == 0 {
            1
        } else {
            cfg.num_colors as int
        },
{
    let samples = sampled::<W::Single>(pixels, cfg);
    let n = samples.len();
    let first = samples[random(cfg.seed, n) as int % n as int];
    let k = color_count(cfg, n as int);
    let seeds = seeded::<W>(samples, seq![first], k, cfg.seed, n + 1);
    lemma_seeded_len::<W>(samples, seq![first], k, cfg.seed, n + 1);
    lemma_refined_len::<W>(samples, seeds, unassigned(n), cfg.max_iterations as nat);
}

/// Some centroid is the nearest.
pub proof fn lemma_nearest_exists<R: Number>(x: Lab<R>, centroids: Seq<Lab<R>>)
    requires
        centroids.len() > 0,
    ensures
        is_nearest(x, centroids, nearest_index(x, centroids)),
{
    let c = lemma_nearest_upto(x, centroids, centroids.len() as int);
    assert(centroids.take(centroids.len() as int) =~= centroids);
    assert(is_nearest(x, centroids, c));
}

proof fn lemma_nearest_upto<R: Number>(
    x: Lab<R>,
    centroids: Seq<Lab<R>>,
    n: int,
) -> (c: int)
    requires
        0 < n <= centroids.len(),
    ensures
        is_nearest(x, centroids.take(n), c),
    decreases n,
{
    let now = centroids.take(n);
    if n == 1 {
        0
    } else {
        let b = lemma_nearest_upto(x, centroids, n - 1);
        let before = centroids.take(n - 1);
        let d = distance(x, centroids[b]);
        assert forall|j: int| 0 <= j < n - 1 implies d <= distance(
            x,
            #[trigger] now[j],
        ) && (j < b ==> d < distance(x, now[j])) by {
            assert(before[j] == now[j]);
        }
        if distance(x, centroids[n - 1]) < d {
            assert(is_nearest(x, now, n - 1));
            n - 1
        } else {
            assert(is_nearest(x, now, b));
            b
        }
    }
}

proof fn lemma_cluster_in_range<R: Number>(
    pixels: Seq<u8>,
    threshold: u8,
    centroids: Seq<Lab<R>>,
    key: int,
    i: int,
)
    requires
        centroids.len() > 0,
    ensures
        remembered(pixels, threshold, centroids, key, i) matches Some(c) ==> 0 <= c
            < centroids.len(),
        0 <= cluster(pixels, threshold, centroids, i) < centroids.len() || key != pixel_bucket(
            pixels,
            i,
        ),
    decreases i,
{
    lemma_nearest_exists(pixel_color(pixels, i), centroids);
    if i > 0 {
        lemma_cluster_in_range(pixels, threshold, centroids, key, i - 1);
        lemma_nearest_exists(pixel_color(pixels, i - 1), centroids);
    }
}

proof fn lemma_same_opaque(a: Seq<u8>, b: Seq<u8>, threshold: u8, n: nat)
    requires
        a.len() == b.len(),
        n <= a.len() / 4,
        forall|p: int| 0 <= p < a.len() && p % 4 == 3 ==> #[trigger] a[p] == b[p],
    ensures
        opaque_pixels(a, threshold, n) == opaque_pixels(b, threshold, n),
    decreases n,
{
    if n > 0 {
        lemma_same_opaque(a, b, threshold, (n - 1) as nat);
        let p = 4 * (n - 1) + 3;
        assert(p % 4 == 3);
        assert(a[p] == b[p]);
    }
}

/// The packed value of an RGB triple.
pub open spec fn packed_rgb(rgb: [u8; 3]) -> u32 {
    (rgb[0] * 0x1_0000 + rgb[1] * 0x100 + rgb[2]) as u32
}

/// The opaque pixels of the result show no more colours than asked for (and at least one is
/// always allowed).
pub proof fn law_quantizing_limits_colors<W: Precise>(
    pixels: Seq<u8>,
    cfg: &QuantizeConfig,
)
    ensures
        opaque_colors(
            quantized::<W>(pixels, cfg),
            cfg.alpha_threshold,
            pixels.len() as int / 4,
        ).len() <= if cfg.num_colors == 0 {
            1
        } else {
            cfg.num_colors as int
        },
{
    let t = cfg.alpha_threshold;
    let out = quantized::<W>(pixels, cfg);
    let n = pixels.len() / 4;
    law_quantizing_keeps_alpha_and_transparency::<W>(pixels, cfg);
    lemma_same_opaque(out, pixels, t, n);
    let picks = opaque_pixels(pixels, t, n);
    let shown = picks.map_values(|i: int| packed(out, i));
    if picks.len() == 0 {
        assert(shown.to_set() =~= Set::empty());
    } else {
        let centroids = fitted::<W>(pixels, cfg);
        let palette = centroids.map_values(|c: Lab<W::Single>| packed_rgb(rgb_of(c)));
        lemma_fitted_len::<W>(pixels, cfg);
        lemma_opaque_pixels(pixels, t, n);
        assert forall|v: u32| shown.to_set().contains(v) implies palette.to_set().contains(v) by {
            let k = choose|k: int| 0 <= k < shown.len() && shown[k] == v;
            let i = picks[k];
            let c = cluster(pixels, t, centroids, i);
            lemma_cluster_in_range(pixels, t, centroids, pixel_bucket(pixels, i), i);
            let rgb = rgb_of(centroids[c]);
            assert(4 * i / 4 == i && (4 * i + 1) / 4 == i && (4 * i + 2) / 4 == i);
            assert((4 * i) % 4 == 0 && (4 * i + 1) % 4 == 1 && (4 * i + 2) % 4 == 2);
            assert(out[4 * i] == rgb[0]);
            assert(out[4 * i + 1] == rgb[1]);
            assert(out[4 * i + 2] == rgb[2]);
            assert(palette[c] == v);
        }
        palette.lemma_cardinality_of_set();
        vstd::set_lib::lemma_len_subset(shown.to_set(), palette.to_set());
    }
}

/// Colours that differ only in the bits that the memo drops come out alike.
pub proof fn law_bucket_mates_come_out_alike<W: Precise>(
    pixels: Seq<u8>,
    cfg: &QuantizeConfig,
    i: int,
    j: int,
)
    requires
        0 <= i <= j < pixels.len() / 4,
        opaque(pixels, cfg.alpha_threshold, i),
        opaque(pixels, cfg.alpha_threshold, j),
        pixel_bucket(pixels, i) == pixel_bucket(pixels, j),
    ensures
        packed(quantized::<W>(pixels, cfg), i) == packed(quantized::<W>(pixels, cfg), j),
{
    let t = cfg.alpha_threshold;
    let key = pixel_bucket(pixels, i);
    let centroids = fitted::<W>(pixels, cfg);
    let out = quantized::<W>(pixels, cfg);
    lemma_counted(pixels, t, pixels.len() / 4, i);
    lemma_fitted_len::<W>(pixels, cfg);
    lemma_cluster_in_range(pixels, t, centroids, key, i);
    lemma_nearest_exists(pixel_color(pixels, i), centroids);
    lemma_remembered_later(pixels, t, centroids, key, i, j);
    assert(cluster(pixels, t, centroids, i) == cluster(pixels, t, centroids, j));
    assert(4 * i / 4 == i && (4 * i + 1) / 4 == i && (4 * i + 2) / 4 == i);
    assert((4 * i) % 4 == 0 && (4 * i + 1) % 4 == 1 && (4 * i + 2) % 4 == 2);
    assert(4 * j / 4 == j && (4 * j + 1) / 4 == j && (4 * j + 2) / 4 == j);
    assert((4 * j) % 4 == 0 && (4 * j + 1) % 4 == 1 && (4 * j + 2) % 4 == 2);
    assert(out[4 * i] == out[4 * j]);
    assert(out[4 * i + 1] == out[4 * j + 1]);
    assert(out[4 * i + 2] == out[4 * j + 2]);
}

pub proof fn lemma_counted(pixels: Seq<u8>, threshold: u8, n: nat, i: int)
    requires
        0 <= i < n,
        opaque(pixels, threshold, i),
    ensures
        opaque_pixels(pixels, threshold, n).len() > 0,
    decreases n,
{
    if i < n - 1 {
        lemma_counted(pixels, threshold, (n - 1) as nat, i);
    }
}

pub proof fn lemma_remembered_later<R: Number>(
    pixels: Seq<u8>,
    threshold: u8,
    centroids: Seq<Lab<R>>,
    key: int,
    i: int,
    j: int,
)
    requires
        0 <= i <= j,
        opaque(pixels, threshold, i),
        pixel_bucket(pixels, i) == key,
    ensures
        i < j ==> remembered(pixels, threshold, centroids, key, j) == Some(
            cluster(pixels, threshold, centroids, i),
        ),
    decreases j - i,
{
    if i < j {
        lemma_remembered_later(pixels, threshold, centroids, key, i, j - 1);
    }
}

/// Opaque pixels of one colour in `a` are of one colour in `b`.
spec fn colors_follow(a: Seq<u8>, b: Seq<u8>, threshold: u8) -> bool {
    forall|i: int, j: int|
        #![trigger packed(a, i), packed(b, j)]
        0 <= i <= j < a.len() / 4 && opaque(a, threshold, i) && opaque(a, threshold, j) && packed(
            a,
            i,
        ) == packed(a, j) ==> packed(b, i) == packed(b, j)
}

/// A colour that has been seen in `a` has been seen in `b` as what it is there.
proof fn lemma_color_seen(a: Seq<u8>, b: Seq<u8>, threshold: u8, j: int)
    requires
        0 <= j < a.len() / 4,
        colors_follow(a, b, threshold),
        opaque_pixels(b, threshold, j as nat) == opaque_pixels(a, threshold, j as nat),
        opaque(a, threshold, j),
        opaque_colors(a, threshold, j).contains(packed(a, j)),
    ensures
        opaque_colors(b, threshold, j).contains(packed(b, j)),
{
    let picks = opaque_pixels(a, threshold, j as nat);
    let was = picks.map_values(|i: int| packed(a, i));
    let is = picks.map_values(|i: int| packed(b, i));
    let k = choose|k: int| 0 <= k < was.len() && was[k] == packed(a, j);
    lemma_opaque_pixels(a, threshold, j as nat);
    assert(packed(a, picks[k]) == packed(a, j));
    assert(packed(b, picks[k]) == packed(b, j));
    assert(is[k] == packed(b, j));
}

/// Where colours follow colours there are no more of them.
proof fn lemma_colors_upto(a: Seq<u8>, b: Seq<u8>, threshold: u8, m: nat)
    requires
        m <= a.len() / 4,
        a.len() == b.len(),
        forall|p: int| 0 <= p < a.len() && p % 4 == 3 ==> #[trigger] b[p] == a[p],
        colors_follow(a, b, threshold),
    ensures
        opaque_colors(a, threshold, m as int).finite(),
        opaque_colors(b, threshold, m as int).finite(),
        opaque_colors(b, threshold, m as int).len() <= opaque_colors(a, threshold, m as int).len(),
    decreases m,
{
    if m == 0 {
        assert(opaque_colors(a, threshold, 0) =~= Set::empty());
        assert(opaque_colors(b, threshold, 0) =~= Set::empty());
    } else {
        let j = m - 1;
        lemma_colors_upto(a, b, threshold, j as nat);
        lemma_opaque_step(a, threshold, j as nat);
        lemma_opaque_step(b, threshold, j as nat);
        lemma_same_opaque(b, a, threshold, j as nat);
        assert((4 * j + 3) % 4 == 3);
        assert(b[4 * j + 3] == a[4 * j + 3]);
        if opaque(a, threshold, j) && opaque_colors(a, threshold, j).contains(packed(a, j)) {
            lemma_color_seen(a, b, threshold, j);
        }
    }
}

/// Pixels of one colour come out in one colour.
proof fn lemma_colors_follow<W: Precise>(pixels: Seq<u8>, cfg: &QuantizeConfig)
    ensures
        colors_follow(pixels, quantized::<W>(pixels, cfg), cfg.alpha_threshold),
{
    let t = cfg.alpha_threshold;
    let out = quantized::<W>(pixels, cfg);
    assert forall|i: int, j: int|
        #![trigger packed(pixels, i), packed(out, j)]
        0 <= i <= j < pixels.len() / 4 && opaque(pixels, t, i) && opaque(pixels, t, j) && packed(
            pixels,
            i,
        ) == packed(pixels, j) implies packed(out, i) == packed(out, j) by {
        assert(pixels[4 * i] == pixels[4 * j] && pixels[4 * i + 1] == pixels[4 * j + 1] && pixels[4
            * i + 2] == pixels[4 * j + 2]);
        law_bucket_mates_come_out_alike::<W>(pixels, cfg, i, j);
    }
}

/// The opaque pixels of the result show no more colours than they did before, and at least one
/// where there are any; where one colour is asked for, or none, they show exactly one.
pub proof fn law_quantizing_adds_no_colors<W: Precise>(pixels: Seq<u8>, cfg: &QuantizeConfig)
    ensures
        ({
            let n = pixels.len() as int / 4;
            let before = opaque_colors(pixels, cfg.alpha_threshold, n).len();
            let after = opaque_colors(quantized::<W>(pixels, cfg), cfg.alpha_threshold, n).len();
            &&& after <= before
            &&& opaque_pixels(pixels, cfg.alpha_threshold, n as nat).len() > 0 ==> after >= 1 && (
            cfg.num_colors <= 1 ==> after == 1)
        }),
{
    let t = cfg.alpha_threshold;
    let out = quantized::<W>(pixels, cfg);
    let n = pixels.len() / 4;
    law_quantizing_limits_colors::<W>(pixels, cfg);
    law_quantizing_keeps_alpha_and_transparency::<W>(pixels, cfg);
    lemma_colors_follow::<W>(pixels, cfg);
    lemma_colors_upto(pixels, out, t, n);
    lemma_same_opaque(out, pixels, t, n);
    let picks = opaque_pixels(pixels, t, n);
    if picks.len() > 0 {
        let seen = picks.map_values(|i: int| packed(out, i));
        assert(seen.contains(seen[0]));
        assert(opaque_colors(out, t, n as int).contains(seen[0]));
        assert(opaque_colors(out, t, n as int).len() != 0);
    }
}

/// The opaque pixels alone, in their order.
pub open spec fn opaque_only(pixels: Seq<u8>, threshold: u8) -> Seq<u8> {
    let picks = opaque_pixels(pixels, threshold, pixels.len() / 4);
    Seq::new(4 * picks.len(), |p: int| pixels[4 * picks[p / 4] + p % 4])
}

/// The opaque pixels before an opaque pixel are as many as its place among them says.
proof fn lemma_place(pixels: Seq<u8>, threshold: u8, n: nat, k: int)
    requires
        0 <= k < opaque_pixels(pixels, threshold, n).len(),
    ensures
        opaque_pixels(
            pixels,
            threshold,
            opaque_pixels(pixels, threshold, n)[k] as nat,
        ).len() == k,
    decreases n,
{
    if n > 0 {
        let before = opaque_pixels(pixels, threshold, (n - 1) as nat);
        if k < before.len() {
            lemma_place(pixels, threshold, (n - 1) as nat, k);
        }
    }
}

/// The bytes of pixel `k` of the opaque ones.
proof fn lemma_opaque_only(pixels: Seq<u8>, threshold: u8, k: int)
    requires
        0 <= k < opaque_pixels(pixels, threshold, pixels.len() / 4).len(),
    ensures
        ({
            let o = opaque_only(pixels, threshold);
            let i = opaque_pixels(pixels, threshold, pixels.len() / 4)[k];
            &&& 0 <= i < pixels.len() / 4
            &&& o.len() == 4 * opaque_pixels(pixels, threshold, pixels.len() / 4).len()
            &&& forall|c: int| 0 <= c < 4 ==> #[trigger] o[4 * k + c] == pixels[4 * i + c]
            &&& opaque(o, threshold, k)
            &&& opaque(pixels, threshold, i)
            &&& packed(o, k) == packed(pixels, i)
            &&& pixel_bucket(o, k) == pixel_bucket(pixels, i)
        }),
{
    let o = opaque_only(pixels, threshold);
    let i = opaque_pixels(pixels, threshold, pixels.len() / 4)[k];
    lemma_opaque_pixels(pixels, threshold, pixels.len() / 4);
    assert forall|c: int| 0 <= c < 4 implies #[trigger] o[4 * k + c] == pixels[4 * i + c] by {
        assert((4 * k + c) / 4 == k && (4 * k + c) % 4 == c);
    }
    assert(o[4 * k + 0] == pixels[4 * i + 0]);
    assert(o[4 * k + 1] == pixels[4 * i + 1]);
    assert(o[4 * k + 2] == pixels[4 * i + 2]);
    assert(o[4 * k + 3] == pixels[4 * i + 3]);
}

/// Of the opaque pixels alone all are opaque.
proof fn lemma_all_opaque(pixels: Seq<u8>, threshold: u8, m: nat)
    requires
        m <= opaque_pixels(pixels, threshold, pixels.len() / 4).len(),
    ensures
        opaque_pixels(opaque_only(pixels, threshold), threshold, m) == Seq::new(m, |i: int| i),
    decreases m,
{
    let o = opaque_only(pixels, threshold);
    if m > 0 {
        lemma_all_opaque(pixels, threshold, (m - 1) as nat);
        lemma_opaque_only(pixels, threshold, m - 1);
        assert(Seq::new(m, |i: int| i) =~= Seq::new((m - 1) as nat, |i: int| i).push(m - 1));
    } else {
        assert(Seq::new(0, |i: int| i) =~= Seq::<int>::empty());
    }
}

proof fn lemma_same_samples<R: Number>(pixels: Seq<u8>, cfg: &QuantizeConfig)
    requires
        opaque_pixels(pixels, cfg.alpha_threshold, pixels.len() / 4).len() > 0,
    ensures
        sampled::<R>(opaque_only(pixels, cfg.alpha_threshold), cfg) == sampled::<R>(pixels, cfg),
{
    let t = cfg.alpha_threshold;
    let o = opaque_only(pixels, t);
    let picks = opaque_pixels(pixels, t, pixels.len() / 4);
    let m = picks.len();
    let own = opaque_pixels(o, t, m);
    lemma_all_opaque(pixels, t, m);
    assert(o.len() / 4 == m);
    let target = sample_count(cfg, m as int);
    let stride = m as int / target;
    assert forall|k: int| 0 <= k < target implies pixel_color::<R>(
        o,
        #[trigger] own[ordinal(cfg.seed, stride, k)],
    ) == pixel_color::<R>(pixels, picks[ordinal(cfg.seed, stride, k)]) by {
        assert(stride > 0) by (nonlinear_arith)
            requires
                stride == m as int / target,
                0 < target <= m,
        ;
        let jitter = random(cfg.seed, k as nat) as int % stride;
        assert(0 <= jitter < stride);
        lemma_windows(m as int, target, k, jitter);
        let at = ordinal(cfg.seed, stride, k);
        assert(own[at] == at);
        lemma_opaque_only(pixels, t, at);
        assert(o[4 * at + 0] == pixels[4 * picks[at] + 0]);
        assert(o[4 * at + 1] == pixels[4 * picks[at] + 1]);
        assert(o[4 * at + 2] == pixels[4 * picks[at] + 2]);
    }
    assert(sampled::<R>(o, cfg) =~= sampled::<R>(pixels, cfg)) by {
        let a = sampled::<R>(o, cfg);
        let b = sampled::<R>(pixels, cfg);
        assert forall|k: int| 0 <= k < target implies a[k] == b[k] by {
            let at = ordinal(cfg.seed, stride, k);
            assert(pixel_color::<R>(o, own[at]) == pixel_color::<R>(pixels, picks[at]));
        }
    }
}

/// What is remembered before a pixel rests on the opaque pixels before it alone.
proof fn lemma_same_memory<R: Number>(
    pixels: Seq<u8>,
    threshold: u8,
    centroids: Seq<Lab<R>>,
    key: int,
    i: nat,
)
    requires
        i <= pixels.len() / 4,
    ensures
        remembered(
            opaque_only(pixels, threshold),
            threshold,
            centroids,
            key,
            opaque_pixels(pixels, threshold, i).len() as int,
        ) == remembered(pixels, threshold, centroids, key, i as int),
    decreases i,
{
    if i > 0 {
        let j = i - 1;
        lemma_same_memory(pixels, threshold, centroids, key, j as nat);
        if opaque(pixels, threshold, j) {
            let o = opaque_only(pixels, threshold);
            let k = opaque_pixels(pixels, threshold, j as nat).len() as int;
            lemma_opaque_prefix(pixels, threshold, i, pixels.len() / 4);
            assert(opaque_pixels(pixels, threshold, i)[k] == j);
            lemma_opaque_only(pixels, threshold, k);
            assert(o[4 * k + 0] == pixels[4 * j + 0]);
            assert(o[4 * k + 1] == pixels[4 * j + 1]);
            assert(o[4 * k + 2] == pixels[4 * j + 2]);
            assert(pixel_color::<R>(o, k) == pixel_color::<R>(pixels, j));
        }
    }
}

/// Pixels that take no part have no influence on the others: quantizing the opaque pixels alone
/// gives what quantizing the image makes of them.
pub proof fn law_transparent_pixels_have_no_influence<W: Precise>(
    pixels: Seq<u8>,
    cfg: &QuantizeConfig,
)
    ensures
        opaque_only(quantized::<W>(pixels, cfg), cfg.alpha_threshold) == quantized::<W>(
            opaque_only(pixels, cfg.alpha_threshold),
            cfg,
        ),
{
    let t = cfg.alpha_threshold;
    let out = quantized::<W>(pixels, cfg);
    let o = opaque_only(pixels, t);
    let n = pixels.len() / 4;
    let picks = opaque_pixels(pixels, t, n);
    law_quantizing_keeps_alpha_and_transparency::<W>(pixels, cfg);
    lemma_same_opaque(out, pixels, t, n);
    lemma_all_opaque(pixels, t, picks.len());
    assert(o.len() / 4 == picks.len());
    let left = opaque_only(out, t);
    let right = quantized::<W>(o, cfg);
    if picks.len() == 0 {
        assert(left =~= right);
    } else {
        lemma_same_samples::<W::Single>(pixels, cfg);
        let centroids = fitted::<W>(pixels, cfg);
        assert(fitted::<W>(o, cfg) == centroids);
        assert forall|p: int| 0 <= p < left.len() implies left[p] == right[p] by {
            let (k, c) = (p / 4, p % 4);
            let i = picks[k];
            lemma_opaque_only(pixels, t, k);
            lemma_place(pixels, t, n, k);
            lemma_same_memory(pixels, t, centroids, pixel_bucket(pixels, i), i as nat);
            assert(o[4 * k + c] == pixels[4 * i + c]);
            assert(o[4 * k + 0] == pixels[4 * i + 0]);
            assert(o[4 * k + 1] == pixels[4 * i + 1]);
            assert(o[4 * k + 2] == pixels[4 * i + 2]);
            assert(pixel_color::<W::Single>(o, k) == pixel_color::<W::Single>(pixels, i));
            assert(cluster(o, t, centroids, k) == cluster(pixels, t, centroids, i));
            assert((4 * i + c) / 4 == i && (4 * i + c) % 4 == c);
            assert(left[p] == out[4 * i + c]);
        }
        assert(left =~= right);
    }
}

} // verus!
