//! Color quantization — reduce an image to `N` representative colors via
//! k-means clustering in a perceptual color space.
//!
//! Flattening an image to a small set of perceptually-chosen colors yields
//! cleaner regions and far fewer paths than tracing raw photographic noise.

use std::collections::HashSet;
use vstd::prelude::*;

use crate::color::{dist2, dist2_of, lab_of, lab_to_rgb, rgb_of, rgb_to_lab, Lab};
use crate::number::{at_least, below, count_of, difference_of, narrow_of, precise, product_of};
use crate::number::{consistent, quotient_of, rank_of, ratio_of, sum_of, whole_of, wide_of};
use crate::number::{
    from_count, from_index, is_at_least, is_below, minus, narrow, over, plus, rank, ratio, times,
    widen, Number, Precise,
};
use crate::rng::{random, state, SplitMix64};

verus! {

#[derive(Debug, Clone)]
pub struct QuantizeConfig {
    /// Target number of colors (k). Effectively clamped to at least 1 and to
    /// the number of distinct sampled colors.
    pub num_colors: usize,
    /// Maximum k-means (Lloyd) iterations.
    pub max_iterations: usize,
    /// Hard cap on the number of pixels sampled when fitting centroids. The
    /// full image is always mapped; only centroid *fitting* is subsampled.
    pub max_samples: usize,
    /// Pixels with alpha at or below this are excluded from clustering and
    /// passed through unchanged.
    pub alpha_threshold: u8,
    /// Seed for deterministic initialization, so identical inputs produce
    /// identical output (no flicker across live re-runs).
    pub seed: u64,
}

impl Default for QuantizeConfig {
    fn default() -> (cfg: Self)
        ensures
            cfg.num_colors == 16,
            cfg.max_iterations == 20,
            cfg.max_samples == 40_000,
            cfg.alpha_threshold == 0,
            cfg.seed == 0x9E37_79B9_7F4A_7C15,
    {
        QuantizeConfig {
            num_colors: 16,
            max_iterations: 20,
            max_samples: 40_000,
            alpha_threshold: 0,
            seed: 0x9E37_79B9_7F4A_7C15,
        }
    }
}

/// Pixel `i` of an RGBA buffer takes part in clustering.
pub open spec fn opaque(pixels: Seq<u8>, threshold: u8, i: int) -> bool {
    pixels[4 * i + 3] > threshold
}

/// The opaque ones among the first `n` pixels, in order.
pub open spec fn opaque_pixels(pixels: Seq<u8>, threshold: u8, n: nat) -> Seq<int>
    decreases n,
{
    if n == 0 {
        Seq::empty()
    } else {
        let before = opaque_pixels(pixels, threshold, (n - 1) as nat);
        if opaque(pixels, threshold, n - 1) {
            before.push(n - 1)
        } else {
            before
        }
    }
}

/// The colour of pixel `i`.
pub open spec fn pixel_color<R: Number>(pixels: Seq<u8>, i: int) -> Lab<R> {
    lab_of(pixels[4 * i], pixels[4 * i + 1], pixels[4 * i + 2])
}

/// The distance of two colours, as an integer that orders distances.
pub open spec fn distance<R: Number>(a: Lab<R>, b: Lab<R>) -> u32 {
    rank_of(dist2_of(a, b))
}

/// Index `c` is that of the nearest of `centroids` to `x`, of equally near ones the first.
pub open spec fn is_nearest<R: Number>(
    x: Lab<R>,
    centroids: Seq<Lab<R>>,
    c: int,
) -> bool {
    &&& 0 <= c < centroids.len()
    &&& forall|j: int|
        0 <= j < centroids.len() ==> distance(x, centroids[c]) <= distance(
            x,
            #[trigger] centroids[j],
        )
    &&& forall|j: int|
        0 <= j < c ==> distance(x, centroids[c]) < distance(x, #[trigger] centroids[j])
}

/// The index of the nearest centroid.
pub open spec fn nearest_index<R: Number>(x: Lab<R>, centroids: Seq<Lab<R>>) -> int {
    choose|c: int| is_nearest(x, centroids, c)
}

pub proof fn lemma_nearest_unique<R: Number>(
    x: Lab<R>,
    centroids: Seq<Lab<R>>,
    c: int,
    d: int,
)
    requires
        is_nearest(x, centroids, c),
        is_nearest(x, centroids, d),
    ensures
        c == d,
{
    assert(distance(x, centroids[c]) <= distance(x, centroids[d]));
    assert(distance(x, centroids[d]) <= distance(x, centroids[c]));
}

fn distance_of<R: Number>(a: Lab<R>, b: Lab<R>) -> (d: u32)
    requires
        consistent::<R>(),
    ensures
        d == distance(a, b),
{
    rank(dist2(a, b))
}

fn nearest<R: Number>(x: Lab<R>, centroids: &Vec<Lab<R>>) -> (best: usize)
    requires
        consistent::<R>(),
        centroids@.len() > 0,
    ensures
        best < centroids@.len(),
        best == nearest_index(x, centroids@),
{
    let mut best: usize = 0;
    let mut best_d: u32 = distance_of(x, centroids[0]);
    let mut c: usize = 1;
    while c < centroids.len()
        invariant
            consistent::<R>(),
            best < c <= centroids@.len(),
            best_d == distance(x, centroids@[best as int]),
            forall|j: int| 0 <= j < c ==> best_d <= distance(x, #[trigger] centroids@[j]),
            forall|j: int| 0 <= j < best ==> best_d < distance(x, #[trigger] centroids@[j]),
        decreases centroids@.len() - c,
    {
        let d: u32 = distance_of(x, centroids[c]);
        if d < best_d {
            best_d = d;
            best = c;
        }
        c = c + 1;
    }
    proof {
        assert(is_nearest(x, centroids@, best as int));
        lemma_nearest_unique(
            x,
            centroids@,
            best as int,
            nearest_index(x, centroids@),
        );
    }
    best
}

/// The RGB565 bucket of a colour.
pub open spec fn bucket(r: u8, g: u8, b: u8) -> int {
    (r / 8) * 2048 + (g / 4) * 32 + b / 8
}

/// Pack an RGB triple into a 16-bit RGB565 key. Near-identical colors collapse
/// to the same bucket, which is exactly what we want for memoizing the
/// nearest-centroid lookup: the chosen centroid is the same for colors that
/// differ only in low bits.
pub fn rgb565(r: u8, g: u8, b: u8) -> (key: usize)
    ensures
        key == bucket(r, g, b),
        key < 0x1_0000,
{
    (r as usize / 8) * 2048 + (g as usize / 4) * 32 + b as usize / 8
}

/// The packed RGB value of pixel `i`.
pub open spec fn packed(pixels: Seq<u8>, i: int) -> u32 {
    (pixels[4 * i] * 0x1_0000 + pixels[4 * i + 1] * 0x100 + pixels[4 * i + 2]) as u32
}

/// The packed values of the opaque ones among the first `n` pixels.
pub open spec fn opaque_colors(pixels: Seq<u8>, threshold: u8, n: int) -> Set<u32> {
    opaque_pixels(pixels, threshold, n as nat).map_values(|i: int| packed(pixels, i)).to_set()
}

/// Count the distinct opaque RGB colors in an RGBA buffer. Diagnostic helper.
pub fn distinct_colors(pixels: &[u8], alpha_threshold: u8) -> (n: usize)
    ensures
        n == opaque_colors(pixels@, alpha_threshold, pixels@.len() as int / 4).len(),
{
    let len: usize = pixels.len();
    let n_px: usize = len / 4;
    let mut seen: HashSet<u32> = HashSet::new();
    let mut i: usize = 0;
    proof {
        assert(opaque_colors(pixels@, alpha_threshold, 0) =~= Set::empty());
    }
    while i < n_px
        invariant
            len == pixels@.len(),
            n_px == len / 4,
            i <= n_px,
            seen@ == opaque_colors(pixels@, alpha_threshold, i as int),
        decreases n_px - i,
    {
        proof {
            lemma_opaque_step(pixels@, alpha_threshold, i as nat);
        }
        if pixels[4 * i + 3] > alpha_threshold {
            let rgb: u32 = pixels[4 * i] as u32 * 0x1_0000 + pixels[4 * i + 1] as u32 * 0x100
                + pixels[4 * i + 2] as u32;
            seen.insert(rgb);
        }
        i = i + 1;
    }
    seen.len()
}

pub proof fn lemma_opaque_step(pixels: Seq<u8>, threshold: u8, n: nat)
    ensures
        opaque_colors(pixels, threshold, n as int + 1) == if opaque(pixels, threshold, n as int) {
            opaque_colors(pixels, threshold, n as int).insert(packed(pixels, n as int))
        } else {
            opaque_colors(pixels, threshold, n as int)
        },
{
    let before = opaque_pixels(pixels, threshold, n);
    let now = opaque_pixels(pixels, threshold, n + 1);
    let f = |i: int| packed(pixels, i);
    if opaque(pixels, threshold, n as int) {
        assert(now == before.push(n as int));
        let a = before.map_values(f);
        let b = now.map_values(f);
        assert(b =~= a.push(packed(pixels, n as int)));
        assert forall|v: u32| b.to_set().contains(v) == a.to_set().insert(
            packed(pixels, n as int),
        ).contains(v) by {
            if a.contains(v) {
                let k = choose|k: int| 0 <= k < a.len() && a[k] == v;
                assert(b[k] == v);
            }
            if b.contains(v) {
                let k = choose|k: int| 0 <= k < b.len() && b[k] == v;
                if k < a.len() {
                    assert(a[k] == v);
                }
            }
            assert(b[a.len() as int] == packed(pixels, n as int));
        }
        assert(b.to_set() =~= a.to_set().insert(packed(pixels, n as int)));
    }
}

/// Which of the opaque pixels the `m`-th sampling window picks.
pub open spec fn ordinal(seed: u64, stride: int, m: int) -> int {
    m * stride + random(seed, m as nat) as int % stride
}

/// How many pixels are sampled.
pub open spec fn sample_count(cfg: &QuantizeConfig, n_opaque: int) -> int {
    let cap = if cfg.max_samples == 0 {
        1
    } else {
        cfg.max_samples as int
    };
    if cap < n_opaque {
        cap
    } else {
        n_opaque
    }
}

/// The colours that the centroids are fitted to: one opaque pixel out of each of equally long
/// windows.
pub open spec fn sampled<R: Number>(pixels: Seq<u8>, cfg: &QuantizeConfig) -> Seq<
    Lab<R>,
> {
    let picks = opaque_pixels(pixels, cfg.alpha_threshold, pixels.len() / 4);
    let target = sample_count(cfg, picks.len() as int);
    let stride = picks.len() as int / target;
    Seq::new(
        target as nat,
        |m: int| pixel_color::<R>(pixels, picks[ordinal(cfg.seed, stride, m)]),
    )
}

/// The squared distance from `x` to the nearest of some centroids.
pub open spec fn gap<R: Number>(x: Lab<R>, centroids: Seq<Lab<R>>) -> R
    decreases centroids.len(),
{
    let d = dist2_of(x, centroids.last());
    if centroids.len() <= 1 {
        d
    } else {
        let before = gap(x, centroids.drop_last());
        if rank_of(d) < rank_of(before) {
            d
        } else {
            before
        }
    }
}

/// The squared distance of each sample to its nearest centroid.
pub open spec fn gaps<R: Number>(samples: Seq<Lab<R>>, centroids: Seq<Lab<R>>) -> Seq<R> {
    samples.map_values(|x: Lab<R>| gap(x, centroids))
}

/// Index `i` is that of the largest gap, of equally large ones the first.
pub open spec fn is_farthest<R: Number>(ds: Seq<R>, i: int) -> bool {
    &&& 0 <= i < ds.len()
    &&& forall|j: int| 0 <= j < ds.len() ==> rank_of(#[trigger] ds[j]) <= rank_of(ds[i])
    &&& forall|j: int| 0 <= j < i ==> rank_of(#[trigger] ds[j]) < rank_of(ds[i])
}

/// The sum of some gaps, added in order.
pub open spec fn weight_sum<W: Precise>(ds: Seq<W::Single>) -> W
    decreases ds.len(),
{
    if ds.len() == 0 {
        whole_of::<W>(0)
    } else {
        sum_of(weight_sum::<W>(ds.drop_last()), wide_of::<W>(ds.last()))
    }
}

/// A weight is used up.
pub open spec fn spent<W: Number>(w: W) -> bool {
    at_least(whole_of::<W>(0), w)
}

/// The sample, from `i` on, at which the weight `w` is used up.
pub open spec fn drawn<W: Precise>(ds: Seq<W::Single>, w: W, i: int) -> Option<int>
    decreases ds.len() - i,
{
    if i < 0 || i >= ds.len() {
        None
    } else if !below(whole_of::<W::Single>(0), ds[i]) {
        drawn(ds, w, i + 1)
    } else {
        let rest = difference_of(w, wide_of::<W>(ds[i]));
        if spent(rest) {
            Some(i)
        } else {
            drawn(ds, rest, i + 1)
        }
    }
}

/// The fraction `bits / 2^24` of a weight.
pub open spec fn share_of<W: Number>(bits: u32, w: W) -> W {
    product_of(ratio_of::<W>(bits, 0x100_0000), w)
}

/// The sample that becomes the next centroid: drawn with odds by gap, or else the farthest.
pub open spec fn chosen<W: Precise>(ds: Seq<W::Single>, bits: u32) -> int {
    match drawn::<W>(ds, share_of(bits, weight_sum::<W>(ds)), 0) {
        Some(i) => i,
        None => choose|i: int| is_farthest(ds, i),
    }
}

/// The top 24 bits of a random number.
pub open spec fn fraction_bits(r: u64) -> u32 {
    (r >> 40) as u32
}

/// Centroids chosen one by one until there are `k` or none of the samples is off a centroid.
pub open spec fn seeded<W: Precise>(
    samples: Seq<Lab<W::Single>>,
    centroids: Seq<Lab<W::Single>>,
    k: int,
    seed: u64,
    calls: nat,
) -> Seq<Lab<W::Single>>
    decreases k - centroids.len(),
{
    let ds = gaps(samples, centroids);
    if centroids.len() >= k || spent(weight_sum::<W>(ds)) {
        centroids
    } else {
        let i = chosen::<W>(ds, fraction_bits(random(seed, calls)));
        seeded::<W>(samples, centroids.push(samples[i]), k, seed, calls + 1)
    }
}

/// The nearest centroid of each sample.
pub open spec fn assignment<R: Number>(
    samples: Seq<Lab<R>>,
    centroids: Seq<Lab<R>>,
) -> Seq<int> {
    samples.map_values(|x: Lab<R>| nearest_index(x, centroids))
}

/// Those of the first `n` samples that are assigned to centroid `c`.
pub open spec fn members<C>(samples: Seq<C>, assign: Seq<int>, c: int, n: int) -> Seq<C>
    decreases n,
{
    if n <= 0 {
        Seq::empty()
    } else {
        let before = members(samples, assign, c, n - 1);
        if assign[n - 1] == c {
            before.push(samples[n - 1])
        } else {
            before
        }
    }
}

/// The sum of channel `ch` of some colours, added in order.
pub open spec fn channel_sum<W: Precise>(colors: Seq<Lab<W::Single>>, ch: int) -> W
    decreases colors.len(),
{
    if colors.len() == 0 {
        whole_of::<W>(0)
    } else {
        sum_of(channel_sum::<W>(colors.drop_last(), ch), wide_of::<W>(colors.last()[ch]))
    }
}

/// The mean of some colours.
pub open spec fn mean_of<W: Precise>(colors: Seq<Lab<W::Single>>) -> Lab<W::Single> {
    let n = count_of::<W>(colors.len() as u64);
    [
        narrow_of(quotient_of(channel_sum::<W>(colors, 0), n)),
        narrow_of(quotient_of(channel_sum::<W>(colors, 1), n)),
        narrow_of(quotient_of(channel_sum::<W>(colors, 2), n)),
    ]
}

/// Each centroid moved to the mean of the samples assigned to it, if there are any.
pub open spec fn recentered<W: Precise>(
    samples: Seq<Lab<W::Single>>,
    assign: Seq<int>,
    centroids: Seq<Lab<W::Single>>,
) -> Seq<Lab<W::Single>> {
    Seq::new(
        centroids.len(),
        |c: int|
            {
                let group = members(samples, assign, c, samples.len() as int);
                if group.len() > 0 {
                    mean_of::<W>(group)
                } else {
                    centroids[c]
                }
            },
    )
}

/// The centroids after at most `rounds` rounds of reassigning and recentering, or fewer if the
/// assignment settles.
pub open spec fn refined<W: Precise>(
    samples: Seq<Lab<W::Single>>,
    centroids: Seq<Lab<W::Single>>,
    assign: Seq<int>,
    rounds: nat,
) -> Seq<Lab<W::Single>>
    decreases rounds,
{
    if rounds == 0 {
        centroids
    } else {
        let now = assignment(samples, centroids);
        let moved = recentered::<W>(samples, now, centroids);
        if now == assign {
            moved
        } else {
            refined::<W>(samples, moved, now, (rounds - 1) as nat)
        }
    }
}

/// No sample assigned yet.
pub open spec fn unassigned(n: nat) -> Seq<int> {
    Seq::new(n, |i: int| usize::MAX as int)
}

/// How many centroids are asked for.
pub open spec fn color_count(cfg: &QuantizeConfig, n_samples: int) -> int {
    let k = if cfg.num_colors == 0 {
        1
    } else {
        cfg.num_colors as int
    };
    if k < n_samples {
        k
    } else {
        n_samples
    }
}

/// The centroids that the image is mapped to.
pub open spec fn fitted<W: Precise>(pixels: Seq<u8>, cfg: &QuantizeConfig) -> Seq<Lab<W::Single>> {
    let samples = sampled::<W::Single>(pixels, cfg);
    let n = samples.len();
    let first = samples[random(cfg.seed, n) as int % n as int];
    let seeds = seeded::<W>(samples, seq![first], color_count(cfg, n as int), cfg.seed, n + 1);
    refined::<W>(samples, seeds, unassigned(n), cfg.max_iterations as nat)
}

/// The bucket of pixel `i`.
pub open spec fn pixel_bucket(pixels: Seq<u8>, i: int) -> int {
    bucket(pixels[4 * i], pixels[4 * i + 1], pixels[4 * i + 2])
}

/// The centroid remembered for a bucket before pixel `i`: the nearest one to the first opaque
/// pixel of the bucket.
pub open spec fn remembered<R: Number>(
    pixels: Seq<u8>,
    threshold: u8,
    centroids: Seq<Lab<R>>,
    key: int,
    i: int,
) -> Option<int>
    decreases i,
{
    if i <= 0 {
        None
    } else {
        match remembered(pixels, threshold, centroids, key, i - 1) {
            Some(c) => Some(c),
            None => {
                if opaque(pixels, threshold, i - 1) && pixel_bucket(pixels, i - 1) == key {
                    Some(nearest_index(pixel_color::<R>(pixels, i - 1), centroids))
                } else {
                    None
                }
            },
        }
    }
}

/// The centroid that opaque pixel `i` is mapped to.
pub open spec fn cluster<R: Number>(
    pixels: Seq<u8>,
    threshold: u8,
    centroids: Seq<Lab<R>>,
    i: int,
) -> int {
    match remembered(pixels, threshold, centroids, pixel_bucket(pixels, i), i) {
        Some(c) => c,
        None => nearest_index(pixel_color::<R>(pixels, i), centroids),
    }
}

/// Byte `p` of an image whose opaque pixels are mapped to `centroids`.
pub open spec fn remapped_byte<R: Number>(
    pixels: Seq<u8>,
    threshold: u8,
    centroids: Seq<Lab<R>>,
    p: int,
) -> u8 {
    let i = p / 4;
    if i < pixels.len() / 4 && p % 4 < 3 && opaque(pixels, threshold, i) {
        rgb_of(centroids[cluster(pixels, threshold, centroids, i)])[p % 4]
    } else {
        pixels[p]
    }
}

/// An image whose opaque pixels are mapped to `centroids`.
pub open spec fn remapped<R: Number>(
    pixels: Seq<u8>,
    threshold: u8,
    centroids: Seq<Lab<R>>,
) -> Seq<u8> {
    Seq::new(pixels.len(), |p: int| remapped_byte(pixels, threshold, centroids, p))
}

/// The quantized image.
pub open spec fn quantized<W: Precise>(pixels: Seq<u8>, cfg: &QuantizeConfig) -> Seq<u8> {
    if opaque_pixels(pixels, cfg.alpha_threshold, pixels.len() / 4).len() == 0 {
        pixels
    } else {
        remapped(pixels, cfg.alpha_threshold, fitted::<W>(pixels, cfg))
    }
}

/// The opaque pixels are pixels, and opaque.
pub proof fn lemma_opaque_pixels(pixels: Seq<u8>, threshold: u8, n: nat)
    ensures
        opaque_pixels(pixels, threshold, n).len() <= n,
        forall|k: int|
            0 <= k < opaque_pixels(pixels, threshold, n).len() ==> 0 <= #[trigger] opaque_pixels(
                pixels,
                threshold,
                n,
            )[k] < n && opaque(pixels, threshold, opaque_pixels(pixels, threshold, n)[k]),
    decreases n,
{
    if n > 0 {
        lemma_opaque_pixels(pixels, threshold, (n - 1) as nat);
    }
}

pub proof fn lemma_opaque_prefix(pixels: Seq<u8>, threshold: u8, m: nat, n: nat)
    requires
        m <= n,
    ensures
        opaque_pixels(pixels, threshold, m).len() <= opaque_pixels(pixels, threshold, n).len(),
        forall|k: int|
            0 <= k < opaque_pixels(pixels, threshold, m).len() ==> #[trigger] opaque_pixels(
                pixels,
                threshold,
                m,
            )[k] == opaque_pixels(pixels, threshold, n)[k],
    decreases n,
{
    if m < n {
        lemma_opaque_prefix(pixels, threshold, m, (n - 1) as nat);
    }
}

fn color_at<R: Number>(pixels: &Vec<u8>, i: usize) -> (c: Lab<R>)
    requires
        consistent::<R>(),
        i < pixels@.len() / 4,
    ensures
        c == pixel_color::<R>(pixels@, i as int),
{
    let len: usize = pixels.len();
    let (r, g, b): (u8, u8, u8) = (pixels[4 * i], pixels[4 * i + 1], pixels[4 * i + 2]);
    rgb_to_lab(r, g, b)
}

/// Count opaque pixels.
fn count_opaque(pixels: &Vec<u8>, threshold: u8) -> (n: usize)
    ensures
        n == opaque_pixels(pixels@, threshold, pixels@.len() / 4).len(),
        n <= pixels@.len() / 4,
{
    let len: usize = pixels.len();
    let n_px: usize = len / 4;
    let mut n: usize = 0;
    let mut i: usize = 0;
    while i < n_px
        invariant
            len == pixels@.len(),
            n_px == len / 4,
            i <= n_px,
            n <= i,
            n == opaque_pixels(pixels@, threshold, i as nat).len(),
        decreases n_px - i,
    {
        if pixels[4 * i + 3] > threshold {
            n = n + 1;
        }
        i = i + 1;
    }
    n
}

pub proof fn lemma_windows(n: int, target: int, m: int, jitter: int)
    requires
        0 < target <= n,
        0 <= m < target,
        0 <= jitter < n / target,
    ensures
        0 <= m * (n / target),
        m * (n / target) + jitter < n,
        m * (n / target) + jitter < (m + 1) * (n / target),
{
    let stride = n / target;
    vstd::arithmetic::div_mod::lemma_fundamental_div_mod(n, target);
    vstd::arithmetic::div_mod::lemma_mod_bound(n, target);
    assert(0 <= m * stride && (m + 1) * stride == m * stride + stride && (m + 1) * stride <= target
        * stride) by (nonlinear_arith)
        requires
            0 <= m < target,
            0 <= stride,
    ;
}

/// Jittered stride sampling: hard-capped at `max_samples`, and the per-window
/// random jitter avoids aliasing against periodic image structure.
fn sample_ordinals(
    rng: &mut SplitMix64,
    target: usize,
    n_opaque: usize,
    Ghost(seed): Ghost<u64>,
) -> (picks: Vec<usize>)
    requires
        0 < target <= n_opaque,
        old(rng).is_at(seed, 0),
    ensures
        final(rng).is_at(seed, target as nat),
        picks@.len() == target,
        forall|m: int|
            0 <= m < target ==> #[trigger] picks@[m] == ordinal(
                seed,
                n_opaque as int / target as int,
                m,
            ),
        forall|m: int| 0 <= m < target ==> #[trigger] picks@[m] < n_opaque,
        forall|l: int, m: int| 0 <= l < m < target ==> #[trigger] picks@[l] < #[trigger] picks@[m],
{
    let quotient: usize = n_opaque / target;
    proof {
        assert(quotient >= 1) by (nonlinear_arith)
            requires
                quotient == n_opaque as int / target as int,
                0 < target <= n_opaque,
        ;
    }
    let stride: usize = if quotient < 1 {
        1
    } else {
        quotient
    };
    let mut picks: Vec<usize> = Vec::new();
    let mut m: usize = 0;
    while m < target
        invariant
            0 < target <= n_opaque,
            stride == n_opaque as int / target as int,
            stride >= 1,
            m <= target,
            rng.is_at(seed, m as nat),
            picks@.len() == m,
            forall|l: int|
                0 <= l < m ==> #[trigger] picks@[l] == ordinal(seed, stride as int, l),
            forall|l: int| 0 <= l < m ==> #[trigger] picks@[l] < n_opaque && picks@[l] < m * stride,
            forall|k: int, l: int| 0 <= k < l < m ==> #[trigger] picks@[k] < #[trigger] picks@[l],
        decreases target - m,
    {
        let jitter: usize = rng.below(stride);
        proof {
            lemma_windows(n_opaque as int, target as int, m as int, jitter as int);
            assert((m + 1) * stride == m * stride + stride) by (nonlinear_arith);
            assert(jitter == random(seed, m as nat) as int % stride as int);
        }
        let ord: usize = m * stride + jitter;
        if ord < n_opaque {
            picks.push(ord);
        }
        m = m + 1;
    }
    picks
}

/// The colours of the picked ones among the opaque pixels.
fn gather<R: Number>(pixels: &Vec<u8>, threshold: u8, picks: &Vec<usize>) -> (samples: Vec<
    Lab<R>,
>)
    requires
        consistent::<R>(),
        forall|m: int|
            0 <= m < picks@.len() ==> #[trigger] picks@[m] < opaque_pixels(
                pixels@,
                threshold,
                pixels@.len() / 4,
            ).len(),
        forall|l: int, m: int|
            0 <= l < m < picks@.len() ==> #[trigger] picks@[l] < #[trigger] picks@[m],
    ensures
        samples@.len() == picks@.len(),
        forall|m: int|
            0 <= m < picks@.len() ==> #[trigger] samples@[m] == pixel_color::<R>(
                pixels@,
                opaque_pixels(pixels@, threshold, pixels@.len() / 4)[picks@[m] as int],
            ),
{
    let len: usize = pixels.len();
    let n_px: usize = len / 4;
    let ghost all = opaque_pixels(pixels@, threshold, n_px as nat);
    let mut samples: Vec<Lab<R>> = Vec::new();
    let mut o: usize = 0;
    let mut i: usize = 0;
    while i < n_px && samples.len() < picks.len()
        invariant
            consistent::<R>(),
            len == pixels@.len(),
            n_px == len / 4,
            all == opaque_pixels(pixels@, threshold, n_px as nat),
            forall|m: int| 0 <= m < picks@.len() ==> #[trigger] picks@[m] < all.len(),
            forall|l: int, m: int|
                0 <= l < m < picks@.len() ==> #[trigger] picks@[l] < #[trigger] picks@[m],
            i <= n_px,
            o <= i,
            o == opaque_pixels(pixels@, threshold, i as nat).len(),
            samples@.len() <= picks@.len(),
            samples@.len() < picks@.len() ==> picks@[samples@.len() as int] >= o,
            forall|m: int|
                0 <= m < samples@.len() ==> #[trigger] samples@[m] == pixel_color::<R>(
                    pixels@,
                    all[picks@[m] as int],
                ),
        decreases n_px - i,
    {
        if pixels[4 * i + 3] > threshold {
            if o == picks[samples.len()] {
                let c: Lab<R> = color_at(pixels, i);
                proof {
                    lemma_opaque_prefix(pixels@, threshold, (i + 1) as nat, n_px as nat);
                    let now = opaque_pixels(pixels@, threshold, (i + 1) as nat);
                    assert(now[o as int] == i);
                    assert(all[o as int] == now[o as int]);
                }
                samples.push(c);
            }
            o = o + 1;
        }
        i = i + 1;
    }
    samples
}

proof fn lemma_farthest_unique<R: Number>(ds: Seq<R>, i: int, j: int)
    requires
        is_farthest(ds, i),
        is_farthest(ds, j),
    ensures
        i == j,
{
    assert(rank_of(ds[j]) <= rank_of(ds[i]));
    assert(rank_of(ds[i]) <= rank_of(ds[j]));
}

/// The farthest sample (guaranteed positive weight).
fn farthest<R: Number>(ds: &Vec<R>) -> (best: usize)
    requires
        consistent::<R>(),
        ds@.len() > 0,
    ensures
        is_farthest(ds@, best as int),
{
    let mut best: usize = 0;
    let mut best_d: u32 = rank(ds[0]);
    let mut i: usize = 1;
    while i < ds.len()
        invariant
            consistent::<R>(),
            best < i <= ds@.len(),
            best_d == rank_of(ds@[best as int]),
            forall|j: int| 0 <= j < i ==> rank_of(#[trigger] ds@[j]) <= best_d,
            forall|j: int| 0 <= j < best ==> rank_of(#[trigger] ds@[j]) < best_d,
        decreases ds@.len() - i,
    {
        let d: u32 = rank(ds[i]);
        if d > best_d {
            best_d = d;
            best = i;
        }
        i = i + 1;
    }
    best
}

fn is_spent<W: Number>(w: W) -> (r: bool)
    requires
        consistent::<W>(),
    ensures
        r == spent(w),
{
    is_at_least(from_index(0), w)
}

/// The sum of all gaps.
fn total_weight<W: Precise>(ds: &Vec<W::Single>) -> (w: W)
    requires
        precise::<W>(),
    ensures
        w == weight_sum::<W>(ds@),
{
    let mut w: W = from_index(0);
    let mut i: usize = 0;
    assert(ds@.take(0).len() == 0);
    while i < ds.len()
        invariant
            precise::<W>(),
            i <= ds@.len(),
            w == weight_sum::<W>(ds@.take(i as int)),
        decreases ds@.len() - i,
    {
        proof {
            assert(ds@.take(i + 1).drop_last() =~= ds@.take(i as int));
            assert(ds@.take(i + 1).last() == ds@[i as int]);
        }
        w = plus(w, widen(ds[i]));
        i = i + 1;
    }
    assert(ds@.take(ds@.len() as int) =~= ds@);
    w
}

/// The sample at which a share of the total weight is used up, or else the farthest.
fn draw<W: Precise>(ds: &Vec<W::Single>, bits: u32, total: W) -> (i: usize)
    requires
        precise::<W>(),
        ds@.len() > 0,
        total == weight_sum::<W>(ds@),
    ensures
        i < ds@.len(),
        i == chosen::<W>(ds@, bits),
{
    let fallback: usize = farthest(ds);
    let zero: W::Single = from_index(0);
    let mut w: W = times(ratio(bits, 0x100_0000), total);
    let ghost w0 = w;
    proof {
        lemma_farthest_unique(ds@, fallback as int, choose|i: int| is_farthest(ds@, i));
    }
    let mut i: usize = 0;
    while i < ds.len()
        invariant
            precise::<W>(),
            zero == whole_of::<W::Single>(0),
            i <= ds@.len(),
            w0 == share_of(bits, weight_sum::<W>(ds@)),
            drawn::<W>(ds@, w0, 0) == drawn::<W>(ds@, w, i as int),
        decreases ds@.len() - i,
    {
        if is_below(zero, ds[i]) {
            w = minus(w, widen(ds[i]));
            if is_spent(w) {
                return i;
            }
        }
        i = i + 1;
    }
    fallback
}

pub proof fn lemma_gap_push<R: Number>(x: Lab<R>, centroids: Seq<Lab<R>>, c: Lab<R>)
    requires
        centroids.len() > 0,
    ensures
        gap(x, centroids.push(c)) == if rank_of(dist2_of(x, c)) < rank_of(gap(x, centroids)) {
            dist2_of(x, c)
        } else {
            gap(x, centroids)
        },
{
    assert(centroids.push(c).drop_last() =~= centroids);
}

/// k-means++ initialization.
fn seed_centroids<W: Precise>(
    samples: &Vec<Lab<W::Single>>,
    k: usize,
    rng: &mut SplitMix64,
    Ghost(seed): Ghost<u64>,
    Ghost(calls): Ghost<nat>,
) -> (centroids: Vec<Lab<W::Single>>)
    requires
        precise::<W>(),
        0 < k <= samples@.len(),
        old(rng).is_at(seed, calls),
    ensures
        centroids@ == seeded::<W>(
            samples@,
            seq![samples@[random(seed, calls) as int % samples@.len() as int]],
            k as int,
            seed,
            calls + 1,
        ),
        0 < centroids@.len() <= k,
{
    let start: usize = rng.below(samples.len());
    let first: Lab<W::Single> = samples[start];
    let ghost goal = seeded::<W>(samples@, seq![first], k as int, seed, calls + 1);
    assert(state(seed, calls + 1) == rng.0);
    let mut centroids: Vec<Lab<W::Single>> = Vec::new();
    centroids.push(first);
    assert(centroids@ =~= seq![first]);
    let mut ds: Vec<W::Single> = Vec::new();
    let mut i: usize = 0;
    while i < samples.len()
        invariant
            precise::<W>(),
            centroids@ == seq![first],
            i <= samples@.len(),
            ds@.len() == i,
            forall|j: int| 0 <= j < i ==> #[trigger] ds@[j] == gap(samples@[j], centroids@),
        decreases samples@.len() - i,
    {
        let d: W::Single = dist2(samples[i], first);
        ds.push(d);
        i = i + 1;
    }
    assert(ds@ =~= gaps(samples@, centroids@));
    let ghost mut n: nat = calls + 1;
    let mut settled: bool = false;
    while centroids.len() < k && !settled
        invariant
            precise::<W>(),
            0 < k <= samples@.len(),
            0 < centroids@.len() <= k,
            rng.is_at(seed, n),
            ds@ == gaps(samples@, centroids@),
            goal == seeded::<W>(samples@, centroids@, k as int, seed, n),
            settled ==> goal == centroids@,
        decreases
                k - centroids@.len(),
                if settled {
                    0nat
                } else {
                    1nat
                },
    {
        let total: W = total_weight(&ds);
        if is_spent(total) {
            settled = true;
        } else {
            let bits: u32 = rng.next_u24();
            let pick: usize = draw(&ds, bits, total);
            let c: Lab<W::Single> = samples[pick];
            let ghost before = centroids@;
            proof {
                assert(bits == fraction_bits(random(seed, n)));
                n = n + 1;
            }
            centroids.push(c);
            let mut i: usize = 0;
            while i < samples.len()
                invariant
                    precise::<W>(),
                    before.len() > 0,
                    centroids@ == before.push(c),
                    i <= samples@.len(),
                    ds@.len() == samples@.len(),
                    forall|j: int|
                        0 <= j < i ==> #[trigger] ds@[j] == gap(samples@[j], centroids@),
                    forall|j: int|
                        i <= j < ds@.len() ==> #[trigger] ds@[j] == gap(samples@[j], before),
                decreases samples@.len() - i,
            {
                let d: W::Single = dist2(samples[i], c);
                proof {
                    lemma_gap_push(samples@[i as int], before, c);
                }
                if rank(d) < rank(ds[i]) {
                    ds.set(i, d);
                }
                i = i + 1;
            }
            assert(ds@ =~= gaps(samples@, centroids@));
        }
    }
    centroids
}

/// The sums and the number of the samples assigned to a centroid.
spec fn tallied<W: Precise>(
    samples: Seq<Lab<W::Single>>,
    assign: Seq<int>,
    c: int,
    n: int,
    sum: [W; 3],
    count: u64,
) -> bool {
    let group = members(samples, assign, c, n);
    &&& sum[0] == channel_sum::<W>(group, 0)
    &&& sum[1] == channel_sum::<W>(group, 1)
    &&& sum[2] == channel_sum::<W>(group, 2)
    &&& count == group.len()
}

proof fn lemma_members_len<C>(samples: Seq<C>, assign: Seq<int>, c: int, n: int)
    requires
        0 <= n,
    ensures
        members(samples, assign, c, n).len() <= n,
    decreases n,
{
    if n > 0 {
        lemma_members_len(samples, assign, c, n - 1);
    }
}

/// Adds a colour to the sums of its channels.
fn add_color<W: Precise>(t: [W; 3], x: Lab<W::Single>) -> (r: [W; 3])
    requires
        precise::<W>(),
    ensures
        r[0] == sum_of(t[0], wide_of::<W>(x[0])),
        r[1] == sum_of(t[1], wide_of::<W>(x[1])),
        r[2] == sum_of(t[2], wide_of::<W>(x[2])),
{
    [plus(t[0], widen(x[0])), plus(t[1], widen(x[1])), plus(t[2], widen(x[2]))]
}

/// The mean of `m` colours with these sums.
fn mean<W: Precise>(
    t: [W; 3],
    m: u64,
    Ghost(group): Ghost<Seq<Lab<W::Single>>>,
) -> (x: Lab<W::Single>)
    requires
        precise::<W>(),
        m == group.len(),
        t[0] == channel_sum::<W>(group, 0),
        t[1] == channel_sum::<W>(group, 1),
        t[2] == channel_sum::<W>(group, 2),
    ensures
        x == mean_of::<W>(group),
{
    let n: W = from_count(m);
    [narrow(over(t[0], n)), narrow(over(t[1], n)), narrow(over(t[2], n))]
}

/// Each centroid moved to the mean of its samples.
fn recenter<W: Precise>(
    samples: &Vec<Lab<W::Single>>,
    assign: &Vec<usize>,
    centroids: &mut Vec<Lab<W::Single>>,
)
    requires
        precise::<W>(),
        assign@.len() == samples@.len(),
        forall|i: int| 0 <= i < assign@.len() ==> #[trigger] assign@[i] < old(centroids)@.len(),
    ensures
        final(centroids)@ == recentered::<W>(
            samples@,
            assign@.map_values(|c: usize| c as int),
            old(centroids)@,
        ),
{
    let kk: usize = centroids.len();
    let ghost a = assign@.map_values(|c: usize| c as int);
    let zero: W = from_index(0);
    let none: [W; 3] = [zero, zero, zero];
    let mut sums: Vec<[W; 3]> = Vec::new();
    let mut counts: Vec<u64> = Vec::new();
    let mut c: usize = 0;
    while c < kk
        invariant
            c <= kk,
            sums@.len() == c,
            counts@.len() == c,
            zero == whole_of::<W>(0),
            none == [zero, zero, zero],
            forall|j: int|
                #![trigger sums@[j]]
                #![trigger counts@[j]]
                0 <= j < c ==> tallied::<W>(samples@, a, j, 0, sums@[j], counts@[j]),
        decreases kk - c,
    {
        sums.push(none);
        counts.push(0);
        c = c + 1;
    }
    let n: usize = samples.len();
    let mut i: usize = 0;
    while i < n
        invariant
            precise::<W>(),
            n == samples@.len(),
            assign@.len() == n,
            a == assign@.map_values(|c: usize| c as int),
            forall|i: int| 0 <= i < assign@.len() ==> #[trigger] assign@[i] < kk,
            i <= n,
            sums@.len() == kk,
            counts@.len() == kk,
            forall|j: int|
                #![trigger sums@[j]]
                #![trigger counts@[j]]
                0 <= j < kk ==> tallied::<W>(samples@, a, j, i as int, sums@[j], counts@[j]),
        decreases n - i,
    {
        let c: usize = assign[i];
        let x: Lab<W::Single> = samples[i];
        let next: [W; 3] = add_color(sums[c], x);
        proof {
            let group = members(samples@, a, c as int, i as int);
            lemma_members_len(samples@, a, c as int, i as int);
            assert(group.push(x).drop_last() =~= group);
            assert(a[i as int] == c as int);
        }
        let ghost sums0 = sums@;
        let ghost counts0 = counts@;
        sums.set(c, next);
        counts.set(c, counts[c] + 1);
        proof {
            assert forall|j: int|
                #![trigger sums@[j]]
                #![trigger counts@[j]]
                0 <= j < kk implies tallied::<W>(
                samples@,
                a,
                j,
                i + 1,
                sums@[j],
                counts@[j],
            ) by {
                assert(tallied::<W>(samples@, a, j, i as int, sums0[j], counts0[j]));
                if j == c {
                    let group = members(samples@, a, j, i as int);
                    assert(group.push(x).drop_last() =~= group);
                    assert(members(samples@, a, j, i + 1) == group.push(x));
                }
            }
        }
        i = i + 1;
    }
    let ghost before = centroids@;
    let mut c: usize = 0;
    while c < kk
        invariant
            precise::<W>(),
            n == samples@.len(),
            before.len() == kk,
            centroids@.len() == kk,
            sums@.len() == kk,
            counts@.len() == kk,
            c <= kk,
            forall|j: int|
                #![trigger sums@[j]]
                #![trigger counts@[j]]
                0 <= j < kk ==> tallied::<W>(samples@, a, j, n as int, sums@[j], counts@[j]),
            forall|j: int|
                0 <= j < c ==> #[trigger] centroids@[j] == recentered::<W>(samples@, a, before)[j],
            forall|j: int| c <= j < kk ==> #[trigger] centroids@[j] == before[j],
        decreases kk - c,
    {
        assert(tallied::<W>(
            samples@,
            a,
            c as int,
            n as int,
            sums@[c as int],
            counts@[c as int],
        ));
        if counts[c] > 0 {
            let ghost group = members(samples@, a, c as int, n as int);
            let m: Lab<W::Single> = mean(sums[c], counts[c], Ghost(group));
            centroids.set(c, m);
        }
        c = c + 1;
    }
    assert(centroids@ =~= recentered::<W>(samples@, a, before));
}

/// Lloyd iterations.
fn refine<W: Precise>(
    samples: &Vec<Lab<W::Single>>,
    centroids: &mut Vec<Lab<W::Single>>,
    max_iterations: usize,
)
    requires
        precise::<W>(),
        old(centroids)@.len() > 0,
    ensures
        final(centroids)@ == refined::<W>(
            samples@,
            old(centroids)@,
            unassigned(samples@.len()),
            max_iterations as nat,
        ),
        final(centroids)@.len() == old(centroids)@.len(),
{
    let n: usize = samples.len();
    let mut assign: Vec<usize> = vec![usize::MAX; n];
    let ghost goal = refined::<W>(
        samples@,
        centroids@,
        unassigned(samples@.len()),
        max_iterations as nat,
    );
    let ghost to_int = |c: usize| c as int;
    let ghost kk = centroids@.len();
    assert(assign@.map_values(to_int) =~= unassigned(samples@.len()));
    let mut round: usize = 0;
    let mut settled: bool = false;
    while round < max_iterations && !settled
        invariant
            precise::<W>(),
            to_int == (|c: usize| c as int),
            kk > 0,
            centroids@.len() == kk,
            n == samples@.len(),
            assign@.len() == n,
            round <= max_iterations,
            settled ==> goal == centroids@,
            !settled ==> goal == refined::<W>(
                samples@,
                centroids@,
                assign@.map_values(to_int),
                (max_iterations - round) as nat,
            ),
        decreases max_iterations - round,
    {
        let ghost before = assign@;
        let mut changed: bool = false;
        let mut i: usize = 0;
        while i < n
            invariant
                precise::<W>(),
                kk > 0,
                centroids@.len() == kk,
                n == samples@.len(),
                assign@.len() == n,
                before.len() == n,
                i <= n,
                forall|j: int|
                    0 <= j < i ==> #[trigger] assign@[j] < kk && assign@[j] == nearest_index(
                        samples@[j],
                        centroids@,
                    ),
                forall|j: int| i <= j < n ==> #[trigger] assign@[j] == before[j],
                !changed ==> assign@ == before,
                changed ==> exists|j: int| 0 <= j < i && #[trigger] assign@[j] != before[j],
            decreases n - i,
        {
            let best: usize = nearest(samples[i], centroids);
            if assign[i] != best {
                let ghost at = assign@;
                assign.set(i, best);
                proof {
                    if changed {
                        let j = choose|j: int| 0 <= j < i && #[trigger] at[j] != before[j];
                        assert(assign@[j] == at[j]);
                    }
                    assert(assign@[i as int] != before[i as int]);
                }
                changed = true;
            } else {
                proof {
                    if changed {
                        let j = choose|j: int| 0 <= j < i && #[trigger] assign@[j] != before[j];
                        assert(0 <= j < i + 1 && assign@[j] != before[j]);
                    }
                }
            }
            i = i + 1;
        }
        let ghost now = assign@.map_values(to_int);
        proof {
            assert(now =~= assignment(samples@, centroids@));
            if changed {
                let j = choose|j: int| 0 <= j < n && #[trigger] assign@[j] != before[j];
                assert(now[j] != before.map_values(to_int)[j]);
            }
        }
        recenter::<W>(samples, &assign, centroids);
        if !changed {
            settled = true;
        }
        round = round + 1;
    }
    proof {
        if !settled {
            assert(max_iterations - round == 0);
        }
    }
}

/// The memo holds what is remembered.
spec fn memo_holds<R: Number>(
    pixels: Seq<u8>,
    threshold: u8,
    centroids: Seq<Lab<R>>,
    memo: Seq<usize>,
    i: int,
) -> bool {
    &&& memo.len() == 0x1_0000
    &&& forall|key: int|
        0 <= key < 0x1_0000 ==> match remembered(pixels, threshold, centroids, key, i) {
            Some(c) => #[trigger] memo[key] == c && c < centroids.len(),
            None => memo[key] == usize::MAX,
        }
}

/// Map every opaque pixel to its nearest centroid, in place.
///
/// Memoized by a bounded RGB565 table rather than an unbounded hash map: O(1)
/// lookup, no growth, and a high hit rate on real images.
fn remap<R: Number>(pixels: &mut Vec<u8>, threshold: u8, centroids: &Vec<Lab<R>>)
    requires
        consistent::<R>(),
        centroids@.len() > 0,
    ensures
        final(pixels)@ == remapped(old(pixels)@, threshold, centroids@),
{
    let len: usize = pixels.len();
    let n_px: usize = len / 4;
    let k: usize = centroids.len();
    let ghost input = pixels@;
    let mut palette: Vec<[u8; 3]> = Vec::new();
    let mut c: usize = 0;
    while c < centroids.len()
        invariant
            consistent::<R>(),
            c <= centroids@.len(),
            palette@.len() == c,
            forall|j: int| 0 <= j < c ==> #[trigger] palette@[j] == rgb_of(centroids@[j]),
        decreases centroids@.len() - c,
    {
        let x: Lab<R> = centroids[c];
        let rgb: [u8; 3] = lab_to_rgb(x);
        palette.push(rgb);
        c = c + 1;
    }
    // No centroid has the number `usize::MAX`.
    let mut memo: Vec<usize> = vec![usize::MAX; 0x1_0000];
    let mut i: usize = 0;
    while i < n_px
        invariant
            consistent::<R>(),
            len == input.len(),
            n_px == len / 4,
            pixels@.len() == len,
            k == centroids@.len(),
            k > 0,
            palette@.len() == centroids@.len(),
            forall|j: int|
                0 <= j < palette@.len() ==> #[trigger] palette@[j] == rgb_of(centroids@[j]),
            i <= n_px,
            memo_holds(input, threshold, centroids@, memo@, i as int),
            forall|p: int|
                0 <= p < 4 * i ==> #[trigger] pixels@[p] == remapped_byte(
                    input,
                    threshold,
                    centroids@,
                    p,
                ),
            forall|p: int| 4 * i <= p < len ==> #[trigger] pixels@[p] == input[p],
        decreases n_px - i,
    {
        let ghost at = pixels@;
        if pixels[4 * i + 3] > threshold {
            let (r, g, b): (u8, u8, u8) = (pixels[4 * i], pixels[4 * i + 1], pixels[4 * i + 2]);
            let key: usize = rgb565(r, g, b);
            let ghost memo0 = memo@;
            let known: usize = memo[key];
            let ci: usize = if known != usize::MAX {
                known
            } else {
                let x: Lab<R> = color_at(pixels, i);
                let c: usize = nearest(x, centroids);
                memo.set(key, c);
                c
            };
            proof {
                assert(pixel_bucket(input, i as int) == key);
                assert(opaque(input, threshold, i as int));
                assert(pixel_color::<R>(at, i as int) == pixel_color::<R>(input, i as int));
                assert(ci == cluster(input, threshold, centroids@, i as int));
                lemma_memo_step(
                    input,
                    threshold,
                    centroids@,
                    memo0,
                    memo@,
                    i as int,
                    key as int,
                    known,
                );
            }
            let rep: [u8; 3] = palette[ci];
            pixels.set(4 * i, rep[0]);
            pixels.set(4 * i + 1, rep[1]);
            pixels.set(4 * i + 2, rep[2]);
        } else {
            proof {
                assert(!opaque(input, threshold, i as int));
                lemma_memo_skip(input, threshold, centroids@, memo@, i as int);
            }
        }
        proof {
            assert forall|p: int| 0 <= p < 4 * (i + 1) implies #[trigger] pixels@[p]
                == remapped_byte(input, threshold, centroids@, p) by {
                if p >= 4 * i {
                    assert(p / 4 == i);
                    assert(p % 4 == p - 4 * i);
                } else {
                    assert(pixels@[p] == at[p]);
                }
            }
        }
        i = i + 1;
    }
    proof {
        assert forall|p: int| 0 <= p < len implies #[trigger] pixels@[p] == remapped_byte(
            input,
            threshold,
            centroids@,
            p,
        ) by {}
        assert(pixels@ =~= remapped(input, threshold, centroids@));
    }
}

proof fn lemma_memo_skip<R: Number>(
    pixels: Seq<u8>,
    threshold: u8,
    centroids: Seq<Lab<R>>,
    memo: Seq<usize>,
    i: int,
)
    requires
        0 <= i,
        memo_holds(pixels, threshold, centroids, memo, i),
        !opaque(pixels, threshold, i),
    ensures
        memo_holds(pixels, threshold, centroids, memo, i + 1),
{
    assert forall|key: int| 0 <= key < 0x1_0000 implies match remembered(
        pixels,
        threshold,
        centroids,
        key,
        i + 1,
    ) {
        Some(c) => #[trigger] memo[key] == c && c < centroids.len(),
        None => memo[key] == usize::MAX,
    } by {
        let before = remembered(pixels, threshold, centroids, key, i);
        assert(remembered(pixels, threshold, centroids, key, i + 1) == before);
        assert(match before {
            Some(c) => memo[key] == c && c < centroids.len(),
            None => memo[key] == usize::MAX,
        });
    }
}

proof fn lemma_memo_step<R: Number>(
    pixels: Seq<u8>,
    threshold: u8,
    centroids: Seq<Lab<R>>,
    before: Seq<usize>,
    after: Seq<usize>,
    i: int,
    key: int,
    known: usize,
)
    requires
        0 <= i,
        memo_holds(pixels, threshold, centroids, before, i),
        opaque(pixels, threshold, i),
        pixel_bucket(pixels, i) == key,
        0 <= key < 0x1_0000,
        known == before[key],
        ({
            let c = nearest_index(pixel_color::<R>(pixels, i), centroids);
            &&& 0 <= c < centroids.len() <= usize::MAX || known != usize::MAX
            &&& after == if known == usize::MAX {
                before.update(key, c as usize)
            } else {
                before
            }
        }),
    ensures
        memo_holds(pixels, threshold, centroids, after, i + 1),
{
    let c = nearest_index(pixel_color::<R>(pixels, i), centroids);
    assert forall|k: int| 0 <= k < 0x1_0000 implies match remembered(
        pixels,
        threshold,
        centroids,
        k,
        i + 1,
    ) {
        Some(c) => #[trigger] after[k] == c && c < centroids.len(),
        None => after[k] == usize::MAX,
    } by {
        assert(match remembered(pixels, threshold, centroids, k, i) {
            Some(c) => before[k] == c && c < centroids.len(),
            None => before[k] == usize::MAX,
        });
    }
}

/// Quantize an RGBA buffer to `cfg.num_colors` colors, in place.
///
/// Takes ownership of the buffer and returns it with each opaque pixel's RGB
/// replaced by its cluster's representative color (alpha preserved). Pixels with
/// alpha ≤ `alpha_threshold` are left untouched.
pub fn quantize_rgba<W: Precise>(pixels: Vec<u8>, cfg: &QuantizeConfig) -> (out: Vec<u8>)
    requires
        precise::<W>(),
    ensures
        out@ == quantized::<W>(pixels@, cfg),
{
    let mut out: Vec<u8> = pixels;
    let n_opaque: usize = count_opaque(&out, cfg.alpha_threshold);
    if n_opaque == 0 {
        return out;
    }
    let ghost input = out@;
    let mut rng: SplitMix64 = SplitMix64(cfg.seed);
    let max_samples: usize = if cfg.max_samples < 1 {
        1
    } else {
        cfg.max_samples
    };
    let target: usize = if max_samples < n_opaque {
        max_samples
    } else {
        n_opaque
    };
    let picks: Vec<usize> = sample_ordinals(&mut rng, target, n_opaque, Ghost(cfg.seed));
    let samples: Vec<Lab<W::Single>> = gather(&out, cfg.alpha_threshold, &picks);
    assert(samples@ =~= sampled::<W::Single>(input, cfg));
    let wanted: usize = if cfg.num_colors < 1 {
        1
    } else {
        cfg.num_colors
    };
    let k: usize = if wanted < samples.len() {
        wanted
    } else {
        samples.len()
    };
    let mut centroids: Vec<Lab<W::Single>> = seed_centroids::<W>(
        &samples,
        k,
        &mut rng,
        Ghost(cfg.seed),
        Ghost(target as nat),
    );
    refine::<W>(&samples, &mut centroids, cfg.max_iterations);
    assert(centroids@ == fitted::<W>(input, cfg));
    remap(&mut out, cfg.alpha_threshold, &centroids);
    out
}

} // verus!
