//! How many colours quantization finds: as many as it is asked for, where there are as many.

use vstd::prelude::*;

use crate::arithmetic::{equal, lemma_order};
use crate::color::{dist2_of, rgb_of, Lab};
use crate::number::{
    at_least, below, ordered, rank_of, ranked, sum_of, whole_of, wide_of, Number, Precise,
};
use crate::palette::{
    law_quantizing_keeps_alpha_and_transparency, lemma_counted, lemma_nearest_exists,
    lemma_refined_len, lemma_remembered_later, lemma_seeded_len,
};
use crate::quantize::{
    assignment, chosen, cluster, color_count, distance, drawn, fitted, fraction_bits, gap, gaps,
    is_farthest, is_nearest, lemma_nearest_unique, lemma_opaque_step, lemma_windows, mean_of,
    members, nearest_index, opaque, opaque_colors, opaque_pixels, ordinal, packed, pixel_bucket,
    pixel_color, quantized, recentered, refined, remembered, sample_count, sampled, seeded,
    share_of, spent, unassigned, weight_sum, QuantizeConfig,
};
use crate::rng::random;

verus! {

/// How many colours an image may be reduced to.
pub open spec fn wanted(cfg: &QuantizeConfig) -> int {
    if cfg.num_colors > 1 {
        cfg.num_colors as int
    } else {
        1
    }
}

/// The samples leave nothing to tell them apart from these centroids by: their squared distances
/// from the nearest centroids add up to nothing.
pub open spec fn settled_at<W: Precise>(
    samples: Seq<Lab<W::Single>>,
    seeds: Seq<Lab<W::Single>>,
) -> bool {
    spent(weight_sum::<W>(gaps(samples, seeds)))
}

proof fn lemma_seeds_needed<W: Precise>(
    samples: Seq<Lab<W::Single>>,
    centroids: Seq<Lab<W::Single>>,
    k: int,
    seed: u64,
    calls: nat,
)
    requires
        0 < centroids.len() <= k,
    ensures
        ({
            let seeds = seeded::<W>(samples, centroids, k, seed, calls);
            seeds.len() == k || seeds.len() < k && settled_at::<W>(samples, seeds)
        }),
    decreases k - centroids.len(),
{
    let ds = gaps(samples, centroids);
    if centroids.len() < k && !spent(weight_sum::<W>(ds)) {
        let i = chosen::<W>(ds, fraction_bits(random(seed, calls)));
        lemma_seeds_needed::<W>(samples, centroids.push(samples[i]), k, seed, calls + 1);
    }
}

/// As many centroids are fitted as colours are asked for, or as there are samples, unless fewer
/// leave no sample off a centroid. There are as many samples as opaque pixels, up to the cap.
pub proof fn law_as_many_centroids_as_asked_for<W: Precise>(
    pixels: Seq<u8>,
    cfg: &QuantizeConfig,
)
    requires
        opaque_pixels(pixels, cfg.alpha_threshold, pixels.len() / 4).len() > 0,
    ensures
        ({
            let n_opaque = opaque_pixels(pixels, cfg.alpha_threshold, pixels.len() / 4).len();
            let samples = sampled::<W::Single>(pixels, cfg);
            let n = fitted::<W>(pixels, cfg).len();
            &&& samples.len() <= n_opaque
            &&& samples.len() <= cfg.max_samples || samples.len() == 1
            &&& samples.len() == n_opaque || samples.len() == cfg.max_samples || cfg.max_samples
                == 0 && samples.len() == 1
            &&& n == wanted(cfg) || n == samples.len() || exists|seeds: Seq<Lab<W::Single>>|
                seeds.len() == n && #[trigger] settled_at::<W>(samples, seeds)
            &&& n <= wanted(cfg)
            &&& n <= samples.len()
        }),
{
    let samples = sampled::<W::Single>(pixels, cfg);
    let n = samples.len();
    let first = samples[random(cfg.seed, n) as int % n as int];
    let k = color_count(cfg, n as int);
    let seeds = seeded::<W>(samples, seq![first], k, cfg.seed, n + 1);
    lemma_seeds_needed::<W>(samples, seq![first], k, cfg.seed, n + 1);
    lemma_seeded_len::<W>(samples, seq![first], k, cfg.seed, n + 1);
    lemma_refined_len::<W>(samples, seeds, unassigned(n), cfg.max_iterations as nat);
    assert(settled_at::<W>(samples, seeds) || seeds.len() == k);
}

/// Where no more pixels are opaque than may be sampled, every one of them is; otherwise one is
/// taken out of each of equally many that follow each other, as a random number says.
pub proof fn law_samples_cover_the_image<R: Number>(pixels: Seq<u8>, cfg: &QuantizeConfig, m: int)
    requires
        0 <= m < sampled::<R>(pixels, cfg).len(),
        opaque_pixels(pixels, cfg.alpha_threshold, pixels.len() / 4).len() > 0,
    ensures
        ({
            let picks = opaque_pixels(pixels, cfg.alpha_threshold, pixels.len() / 4);
            let samples = sampled::<R>(pixels, cfg);
            let width = picks.len() as int / samples.len() as int;
            &&& picks.len() <= cfg.max_samples ==> samples.len() == picks.len() && samples[m]
                == pixel_color::<R>(pixels, picks[m])
            &&& ({
                let j = m * width + random(cfg.seed, m as nat) as int % width;
                &&& m * width <= j < (m + 1) * width
                &&& j < picks.len()
                &&& samples[m] == pixel_color::<R>(pixels, picks[j])
            })
        }),
{
    let picks = opaque_pixels(pixels, cfg.alpha_threshold, pixels.len() / 4);
    let samples = sampled::<R>(pixels, cfg);
    let n = picks.len() as int;
    let target = sample_count(cfg, n);
    let width = n / target;
    assert(width >= 1) by (nonlinear_arith)
        requires
            width == n / target,
            0 < target <= n,
    ;
    let jitter = random(cfg.seed, m as nat) as int % width;
    assert(0 <= jitter < width);
    lemma_windows(n, target, m, jitter);
    let j = ordinal(cfg.seed, width, m);
    assert(samples[m] == pixel_color::<R>(pixels, picks[j]));
    if n <= cfg.max_samples {
        assert(target == n);
        assert(width == 1) by (nonlinear_arith)
            requires
                width == n / target,
                target == n,
                0 < n,
        ;
        assert(jitter == 0);
        assert(m * width == m) by (nonlinear_arith)
            requires
                width == 1,
        ;
        assert(j == m);
    }
}

/// Sums of numbers that are not negative are no less than what is added, sums of zeros are zero,
/// and more precision changes no sign. In floating point this holds.
#[verifier::opaque]
pub open spec fn keeps_sums<W: Precise>() -> bool {
    &&& forall|a: W, b: W|
        #![trigger sum_of(a, b)]
        at_least(a, whole_of::<W>(0)) && at_least(b, whole_of::<W>(0)) ==> at_least(
            sum_of(a, b),
            a,
        ) && at_least(sum_of(a, b), b)
    &&& forall|a: W, b: W|
        equal(a, whole_of::<W>(0)) && equal(b, whole_of::<W>(0)) ==> equal(
            #[trigger] sum_of(a, b),
            whole_of::<W>(0),
        )
    &&& forall|x: W::Single|
        below(whole_of::<W::Single>(0), x) ==> below(whole_of::<W>(0), #[trigger] wide_of::<W>(x))
    &&& forall|x: W::Single|
        equal(x, whole_of::<W::Single>(0)) ==> equal(
            #[trigger] wide_of::<W>(x),
            whole_of::<W>(0),
        )
}

/// Distances tell these colours apart: a colour is at no distance from itself, and at some
/// distance from every other.
pub open spec fn told_apart<R: Number>(colors: Seq<Lab<R>>) -> bool {
    forall|i: int, j: int|
        #![trigger dist2_of(colors[i], colors[j])]
        0 <= i < colors.len() && 0 <= j < colors.len() ==> if colors[i] == colors[j] {
            equal(dist2_of(colors[i], colors[j]), whole_of::<R>(0))
        } else {
            below(whole_of::<R>(0), dist2_of(colors[i], colors[j]))
        }
}

/// The colour, `m` times.
pub open spec fn copies<R: Number>(color: Lab<R>, m: nat) -> Seq<Lab<R>> {
    Seq::new(m, |k: int| color)
}

/// Any number of copies of one of these colours, up to as many as there are, have that colour as
/// their mean.
pub open spec fn means_stay<W: Precise>(colors: Seq<Lab<W::Single>>) -> bool {
    forall|i: int, m: nat|
        0 <= i < colors.len() && 0 < m <= colors.len() ==> mean_of::<W>(
            #[trigger] copies(colors[i], m),
        ) == colors[i]
}

/// A gap is the distance to one of the centroids, and to none it is less.
pub proof fn law_gaps_go_to_the_nearest<R: Number>(x: Lab<R>, centroids: Seq<Lab<R>>) -> (c: int)
    requires
        centroids.len() > 0,
    ensures
        0 <= c < centroids.len(),
        gap(x, centroids) == dist2_of(x, centroids[c]),
        forall|j: int|
            0 <= j < centroids.len() ==> rank_of(gap(x, centroids)) <= rank_of(
                dist2_of(x, #[trigger] centroids[j]),
            ),
    decreases centroids.len(),
{
    let n = centroids.len() as int;
    if n == 1 {
        0
    } else {
        let before = centroids.drop_last();
        let c = law_gaps_go_to_the_nearest(x, before);
        let d = dist2_of(x, centroids.last());
        assert forall|j: int| 0 <= j < n implies rank_of(gap(x, centroids)) <= rank_of(
            dist2_of(x, #[trigger] centroids[j]),
        ) by {
            if j < n - 1 {
                assert(before[j] == centroids[j]);
            }
        }
        assert(before[c] == centroids[c]);
        if rank_of(d) < rank_of(gap(x, before)) {
            n - 1
        } else {
            c
        }
    }
}

/// The gap of a sample is zero if a centroid lies on it, and positive otherwise.
proof fn lemma_gap_sign<R: Number>(samples: Seq<Lab<R>>, centroids: Seq<Lab<R>>, i: int)
    requires
        ordered::<R>(),
        ranked::<R>(),
        told_apart(samples),
        centroids.len() > 0,
        forall|c: int| 0 <= c < centroids.len() ==> samples.contains(#[trigger] centroids[c]),
        0 <= i < samples.len(),
    ensures
        centroids.contains(samples[i]) ==> equal(gap(samples[i], centroids), whole_of::<R>(0)),
        !centroids.contains(samples[i]) ==> below(whole_of::<R>(0), gap(samples[i], centroids)),
{
    let x = samples[i];
    let zero = whole_of::<R>(0);
    let c = law_gaps_go_to_the_nearest(x, centroids);
    let m = choose|m: int| 0 <= m < samples.len() && samples[m] == centroids[c];
    assert(samples.contains(centroids[c]));
    let g = dist2_of(samples[i], samples[m]);
    assert(g == gap(x, centroids));
    if centroids.contains(x) {
        let j = choose|j: int| 0 <= j < centroids.len() && centroids[j] == x;
        let own = dist2_of(samples[i], samples[i]);
        assert(equal(own, zero));
        assert(rank_of(g) <= rank_of(dist2_of(x, centroids[j])));
        if below(zero, g) {
            assert(rank_of(zero) < rank_of(g));
            lemma_ranks_agree(own, zero);
        }
    }
}

/// Equal numbers have equal ranks.
proof fn lemma_ranks_agree<R: Number>(a: R, b: R)
    requires
        ordered::<R>(),
        equal(a, b),
    ensures
        rank_of(a) == rank_of(b),
{
    reveal(ordered);
}

/// Gaps that are zero add up to zero, and with a positive one among them to more.
proof fn lemma_weights<W: Precise>(ds: Seq<W::Single>)
    requires
        ordered::<W>(),
        keeps_sums::<W>(),
        forall|j: int|
            0 <= j < ds.len() ==> equal(#[trigger] ds[j], whole_of::<W::Single>(0)) || below(
                whole_of::<W::Single>(0),
                ds[j],
            ),
    ensures
        at_least(weight_sum::<W>(ds), whole_of::<W>(0)),
        (forall|j: int| 0 <= j < ds.len() ==> equal(#[trigger] ds[j], whole_of::<W::Single>(0)))
            ==> equal(weight_sum::<W>(ds), whole_of::<W>(0)),
        forall|j: int|
            0 <= j < ds.len() && below(whole_of::<W::Single>(0), #[trigger] ds[j]) ==> below(
                whole_of::<W>(0),
                weight_sum::<W>(ds),
            ),
    decreases ds.len(),
{
    let zero = whole_of::<W>(0);
    if ds.len() == 0 {
        reveal(ordered);
    } else {
        let head = ds.drop_last();
        assert forall|j: int| 0 <= j < head.len() implies equal(
            #[trigger] head[j],
            whole_of::<W::Single>(0),
        ) || below(whole_of::<W::Single>(0), head[j]) by {
            assert(head[j] == ds[j]);
        }
        lemma_weights::<W>(head);
        let (a, b) = (weight_sum::<W>(head), wide_of::<W>(ds.last()));
        let total = sum_of(a, b);
        assert(ds.last() == ds[ds.len() - 1]);
        assert(at_least(b, zero) && (below(whole_of::<W::Single>(0), ds.last()) ==> below(zero, b))
            && (equal(ds.last(), whole_of::<W::Single>(0)) ==> equal(b, zero))) by {
            reveal(keeps_sums);
            lemma_order(zero, b, zero);
        }
        assert(at_least(total, a) && at_least(total, b) && (equal(a, zero) && equal(b, zero)
            ==> equal(total, zero))) by {
            reveal(keeps_sums);
        }
        lemma_order(total, a, zero);
        lemma_order(zero, a, total);
        lemma_order(zero, b, total);
        if forall|j: int| 0 <= j < ds.len() ==> equal(#[trigger] ds[j], whole_of::<W::Single>(0)) {
            assert forall|j: int| 0 <= j < head.len() implies equal(
                #[trigger] head[j],
                whole_of::<W::Single>(0),
            ) by {
                assert(head[j] == ds[j]);
            }
        }
        assert forall|j: int|
            0 <= j < ds.len() && below(whole_of::<W::Single>(0), #[trigger] ds[j]) implies below(
            zero,
            total,
        ) by {
            if j < ds.len() - 1 {
                assert(head[j] == ds[j]);
            }
        }
    }
}

/// A sample that is drawn has a positive gap.
proof fn lemma_drawn<W: Precise>(ds: Seq<W::Single>, w: W, i: int)
    requires
        0 <= i,
    ensures
        drawn::<W>(ds, w, i) matches Some(j) ==> i <= j < ds.len() && below(
            whole_of::<W::Single>(0),
            ds[j],
        ),
    decreases ds.len() - i,
{
    if i < ds.len() {
        if !below(whole_of::<W::Single>(0), ds[i]) {
            lemma_drawn(ds, w, i + 1);
        } else {
            lemma_drawn(
                ds,
                crate::number::difference_of(w, wide_of::<W>(ds[i])),
                i + 1,
            );
        }
    }
}

/// Some sample among the first `n` is the farthest of them.
proof fn lemma_farthest_exists<R: Number>(ds: Seq<R>, n: int) -> (i: int)
    requires
        0 < n <= ds.len(),
    ensures
        0 <= i < n,
        forall|j: int| 0 <= j < n ==> rank_of(#[trigger] ds[j]) <= rank_of(ds[i]),
        forall|j: int| 0 <= j < i ==> rank_of(#[trigger] ds[j]) < rank_of(ds[i]),
    decreases n,
{
    if n == 1 {
        0
    } else {
        let i = lemma_farthest_exists(ds, n - 1);
        if rank_of(ds[n - 1]) > rank_of(ds[i]) {
            n - 1
        } else {
            i
        }
    }
}

/// What is chosen lies off every centroid, as long as any sample does.
proof fn lemma_chosen<W: Precise>(ds: Seq<W::Single>, bits: u32)
    requires
        ordered::<W>(),
        ordered::<W::Single>(),
        ranked::<W::Single>(),
        keeps_sums::<W>(),
        forall|j: int|
            0 <= j < ds.len() ==> equal(#[trigger] ds[j], whole_of::<W::Single>(0)) || below(
                whole_of::<W::Single>(0),
                ds[j],
            ),
        !spent(weight_sum::<W>(ds)),
    ensures
        0 <= chosen::<W>(ds, bits) < ds.len(),
        below(whole_of::<W::Single>(0), ds[chosen::<W>(ds, bits)]),
{
    let zero = whole_of::<W::Single>(0);
    lemma_weights::<W>(ds);
    lemma_drawn::<W>(ds, share_of(bits, weight_sum::<W>(ds)), 0);
    assert(exists|j: int| 0 <= j < ds.len() && !equal(#[trigger] ds[j], zero));
    let p = choose|j: int| 0 <= j < ds.len() && !equal(#[trigger] ds[j], zero);
    assert(below(zero, ds[p]));
    let f = lemma_farthest_exists(ds, ds.len() as int);
    assert(is_farthest(ds, f));
    let i = choose|i: int| is_farthest(ds, i);
    assert(is_farthest(ds, i));
    assert(rank_of(ds[p]) <= rank_of(ds[i]));
    assert(rank_of(zero) < rank_of(ds[p]));
    if equal(ds[i], zero) {
        lemma_ranks_agree(ds[i], zero);
    }
}

/// Seeds that have been chosen one by one are all different samples; there are as many as were
/// asked for, or one on every sample.
proof fn lemma_seeds_differ<W: Precise>(
    samples: Seq<Lab<W::Single>>,
    centroids: Seq<Lab<W::Single>>,
    k: int,
    seed: u64,
    calls: nat,
)
    requires
        ordered::<W>(),
        ordered::<W::Single>(),
        ranked::<W::Single>(),
        keeps_sums::<W>(),
        told_apart(samples),
        0 < centroids.len() <= k,
        centroids.no_duplicates(),
        forall|c: int| 0 <= c < centroids.len() ==> samples.contains(#[trigger] centroids[c]),
    ensures
        ({
            let seeds = seeded::<W>(samples, centroids, k, seed, calls);
            &&& 0 < seeds.len() <= k
            &&& seeds.no_duplicates()
            &&& forall|c: int| 0 <= c < seeds.len() ==> samples.contains(#[trigger] seeds[c])
            &&& seeds.len() == k || forall|i: int|
                0 <= i < samples.len() ==> seeds.contains(#[trigger] samples[i])
        }),
    decreases k - centroids.len(),
{
    let ds = gaps(samples, centroids);
    let zero = whole_of::<W::Single>(0);
    assert forall|j: int| 0 <= j < ds.len() implies equal(#[trigger] ds[j], zero) || below(
        zero,
        ds[j],
    ) by {
        lemma_gap_sign(samples, centroids, j);
    }
    if centroids.len() >= k {
    } else if spent(weight_sum::<W>(ds)) {
        lemma_weights::<W>(ds);
        assert forall|i: int| 0 <= i < samples.len() implies centroids.contains(
            #[trigger] samples[i],
        ) by {
            lemma_gap_sign(samples, centroids, i);
            if !centroids.contains(samples[i]) {
                assert(below(zero, ds[i]));
                lemma_order(whole_of::<W>(0), weight_sum::<W>(ds), whole_of::<W>(0));
            }
        }
    } else {
        let bits = fraction_bits(random(seed, calls));
        lemma_chosen::<W>(ds, bits);
        let i = chosen::<W>(ds, bits);
        let more = centroids.push(samples[i]);
        lemma_gap_sign(samples, centroids, i);
        lemma_order(zero, ds[i], zero);
        assert(!centroids.contains(samples[i]));
        assert forall|c: int| 0 <= c < more.len() implies samples.contains(#[trigger] more[c]) by {
            if c < centroids.len() {
                assert(more[c] == centroids[c]);
            } else {
                assert(samples.contains(samples[i]));
            }
        }
        assert(more.no_duplicates()) by {
            assert forall|a: int, b: int|
                0 <= a < more.len() && 0 <= b < more.len() && a != b implies more[a] != more[b] by {
                if a < centroids.len() && b < centroids.len() {
                    assert(centroids[a] != centroids[b]);
                } else if a < centroids.len() {
                    assert(centroids.contains(centroids[a]));
                } else {
                    assert(centroids.contains(centroids[b]));
                }
            }
        }
        lemma_seeds_differ::<W>(samples, more, k, seed, calls + 1);
    }
}

/// Different samples are no more than the samples show colours, and as many only if there is one
/// of each.
proof fn lemma_among<C>(part: Seq<C>, all: Seq<C>)
    requires
        part.no_duplicates(),
        forall|c: int| 0 <= c < part.len() ==> all.contains(#[trigger] part[c]),
    ensures
        all.to_set().finite(),
        all.to_set().len() <= all.len(),
        part.len() <= all.to_set().len(),
        part.len() == all.to_set().len() <==> forall|i: int|
            0 <= i < all.len() ==> part.contains(#[trigger] all[i]),
{
    let (a, b) = (part.to_set(), all.to_set());
    part.unique_seq_to_set();
    all.lemma_cardinality_of_set();
    assert forall|v: C| a.contains(v) implies b.contains(v) by {
        let c = choose|c: int| 0 <= c < part.len() && part[c] == v;
        assert(all.contains(part[c]));
    }
    vstd::set_lib::lemma_len_subset(a, b);
    if part.len() == b.len() {
        vstd::set_lib::lemma_subset_equality(a, b);
        assert forall|i: int| 0 <= i < all.len() implies part.contains(#[trigger] all[i]) by {
            assert(b.contains(all[i]));
            assert(a.contains(all[i]));
        }
    }
    if forall|i: int| 0 <= i < all.len() ==> part.contains(#[trigger] all[i]) {
        assert forall|v: C| b.contains(v) implies a.contains(v) by {
            let i = choose|i: int| 0 <= i < all.len() && all[i] == v;
            assert(part.contains(all[i]));
        }
        assert(a =~= b);
    }
}

/// Seeds that have been chosen one by one are all different, and there is one on every sample,
/// where the samples show no more colours than seeds are asked for.
proof fn lemma_seeds_cover<W: Precise>(
    samples: Seq<Lab<W::Single>>,
    centroids: Seq<Lab<W::Single>>,
    k: int,
    seed: u64,
    calls: nat,
)
    requires
        ordered::<W>(),
        ordered::<W::Single>(),
        ranked::<W::Single>(),
        keeps_sums::<W>(),
        told_apart(samples),
        0 < centroids.len() <= k,
        centroids.no_duplicates(),
        forall|c: int| 0 <= c < centroids.len() ==> samples.contains(#[trigger] centroids[c]),
        samples.to_set().len() <= k,
    ensures
        ({
            let seeds = seeded::<W>(samples, centroids, k, seed, calls);
            &&& seeds.len() > 0
            &&& seeds.no_duplicates()
            &&& forall|c: int| 0 <= c < seeds.len() ==> samples.contains(#[trigger] seeds[c])
            &&& forall|i: int| 0 <= i < samples.len() ==> seeds.contains(#[trigger] samples[i])
        }),
{
    lemma_seeds_differ::<W>(samples, centroids, k, seed, calls);
    lemma_among(seeded::<W>(samples, centroids, k, seed, calls), samples);
}

/// A sample is nearest to the centroid that lies on it.
proof fn lemma_own_centroid<R: Number>(
    samples: Seq<Lab<R>>,
    centroids: Seq<Lab<R>>,
    i: int,
    c: int,
)
    requires
        ordered::<R>(),
        ranked::<R>(),
        told_apart(samples),
        centroids.no_duplicates(),
        forall|c: int| 0 <= c < centroids.len() ==> samples.contains(#[trigger] centroids[c]),
        0 <= i < samples.len(),
        0 <= c < centroids.len(),
        centroids[c] == samples[i],
    ensures
        nearest_index(samples[i], centroids) == c,
{
    let x = samples[i];
    let zero = whole_of::<R>(0);
    let own = dist2_of(samples[i], samples[i]);
    assert(equal(own, zero));
    lemma_ranks_agree(own, zero);
    assert forall|j: int| 0 <= j < centroids.len() && j != c implies distance(x, centroids[c])
        < distance(x, #[trigger] centroids[j]) by {
        assert(samples.contains(centroids[j]));
        let m = choose|m: int| 0 <= m < samples.len() && samples[m] == centroids[j];
        assert(centroids[j] != centroids[c]);
        assert(below(zero, dist2_of(samples[i], samples[m])));
    }
    assert(is_nearest(x, centroids, c));
    lemma_nearest_unique(x, centroids, c, nearest_index(x, centroids));
}

/// The samples that are assigned to a centroid that lies on them are copies of it.
proof fn lemma_members<R: Number>(
    samples: Seq<Lab<R>>,
    assign: Seq<int>,
    centroids: Seq<Lab<R>>,
    c: int,
    n: int,
)
    requires
        0 <= n <= samples.len(),
        assign.len() == samples.len(),
        0 <= c < centroids.len(),
        forall|i: int|
            0 <= i < samples.len() ==> 0 <= #[trigger] assign[i] < centroids.len()
                && centroids[assign[i]] == samples[i],
    ensures
        members(samples, assign, c, n) == copies(
            centroids[c],
            members(samples, assign, c, n).len(),
        ),
        members(samples, assign, c, n).len() <= n,
        forall|i: int|
            0 <= i < n && #[trigger] assign[i] == c ==> members(samples, assign, c, n).len() > 0,
    decreases n,
{
    if n > 0 {
        lemma_members(samples, assign, centroids, c, n - 1);
        let before = members(samples, assign, c, n - 1);
        let now = members(samples, assign, c, n);
        if assign[n - 1] == c {
            assert(samples[n - 1] == centroids[c]);
            assert(now =~= copies(centroids[c], now.len()));
        }
        assert forall|i: int| 0 <= i < n && #[trigger] assign[i] == c implies now.len() > 0 by {
            if i < n - 1 {
                assert(before.len() > 0);
            }
        }
    } else {
        assert(members(samples, assign, c, n) =~= copies(centroids[c], 0));
    }
}

/// Centroids that lie on all the samples stay where they are.
proof fn lemma_centroids_stay<W: Precise>(
    samples: Seq<Lab<W::Single>>,
    centroids: Seq<Lab<W::Single>>,
    assign: Seq<int>,
    rounds: nat,
)
    requires
        ordered::<W::Single>(),
        ranked::<W::Single>(),
        told_apart(samples),
        means_stay::<W>(samples),
        centroids.no_duplicates(),
        forall|c: int| 0 <= c < centroids.len() ==> samples.contains(#[trigger] centroids[c]),
        forall|i: int| 0 <= i < samples.len() ==> centroids.contains(#[trigger] samples[i]),
    ensures
        refined::<W>(samples, centroids, assign, rounds) == centroids,
    decreases rounds,
{
    if rounds > 0 {
        let now = assignment(samples, centroids);
        assert forall|i: int| 0 <= i < samples.len() implies 0 <= #[trigger] now[i]
            < centroids.len() && centroids[now[i]] == samples[i] by {
            assert(centroids.contains(samples[i]));
            let c = choose|c: int| 0 <= c < centroids.len() && centroids[c] == samples[i];
            lemma_own_centroid(samples, centroids, i, c);
        }
        let moved = recentered::<W>(samples, now, centroids);
        assert forall|c: int| 0 <= c < centroids.len() implies #[trigger] moved[c]
            == centroids[c] by {
            assert(samples.contains(centroids[c]));
            let m = choose|m: int| 0 <= m < samples.len() && samples[m] == centroids[c];
            lemma_members(samples, now, centroids, c, samples.len() as int);
            let group = members(samples, now, c, samples.len() as int);
            if group.len() > 0 {
                assert(group == copies(samples[m], group.len()));
                assert(mean_of::<W>(copies(samples[m], group.len())) == samples[m]);
            }
        }
        assert(moved =~= centroids);
        lemma_centroids_stay::<W>(samples, centroids, now, (rounds - 1) as nat);
    }
}

/// The numbers are such that sums, distances and means of these samples come out as they should.
#[verifier::opaque]
pub open spec fn fits_samples<W: Precise>(samples: Seq<Lab<W::Single>>) -> bool {
    &&& ordered::<W>()
    &&& ordered::<W::Single>()
    &&& ranked::<W::Single>()
    &&& keeps_sums::<W>()
    &&& told_apart(samples)
    &&& means_stay::<W>(samples)
}

/// There are as many centroids as colours are asked for, or as many as the sampled pixels show
/// colours, if these are fewer: neither more nor less.
pub proof fn law_no_color_is_wasted<W: Precise>(pixels: Seq<u8>, cfg: &QuantizeConfig)
    requires
        opaque_pixels(pixels, cfg.alpha_threshold, pixels.len() / 4).len() > 0,
        fits_samples::<W>(sampled::<W::Single>(pixels, cfg)),
    ensures
        ({
            let shown = sampled::<W::Single>(pixels, cfg).to_set().len() as int;
            fitted::<W>(pixels, cfg).len() == if wanted(cfg) < shown {
                wanted(cfg)
            } else {
                shown
            }
        }),
{
    reveal(fits_samples);
    let samples = sampled::<W::Single>(pixels, cfg);
    let n = samples.len();
    let at = random(cfg.seed, n) as int % n as int;
    let start = seq![samples[at]];
    let k = color_count(cfg, n as int);
    assert(samples.contains(samples[at]));
    assert forall|c: int| 0 <= c < start.len() implies samples.contains(#[trigger] start[c]) by {
        assert(start[c] == samples[at]);
    }
    lemma_seeds_differ::<W>(samples, start, k, cfg.seed, n + 1);
    let seeds = seeded::<W>(samples, start, k, cfg.seed, n + 1);
    lemma_among(seeds, samples);
    lemma_refined_len::<W>(samples, seeds, unassigned(n), cfg.max_iterations as nat);
}

/// Where the sampled pixels show no more colours than are asked for, there is a centroid on each
/// of these colours, and nowhere else.
pub proof fn law_every_sampled_color_gets_a_centroid<W: Precise>(
    pixels: Seq<u8>,
    cfg: &QuantizeConfig,
)
    requires
        opaque_pixels(pixels, cfg.alpha_threshold, pixels.len() / 4).len() > 0,
        fits_samples::<W>(sampled::<W::Single>(pixels, cfg)),
        sampled::<W::Single>(pixels, cfg).to_set().len() <= wanted(cfg),
    ensures
        ({
            let samples = sampled::<W::Single>(pixels, cfg);
            let centroids = fitted::<W>(pixels, cfg);
            &&& centroids.no_duplicates()
            &&& forall|c: int| 0 <= c < centroids.len() ==> samples.contains(#[trigger] centroids[c])
            &&& forall|m: int| 0 <= m < samples.len() ==> centroids.contains(#[trigger] samples[m])
        }),
{
    reveal(fits_samples);
    let samples = sampled::<W::Single>(pixels, cfg);
    let n = samples.len();
    let at = random(cfg.seed, n) as int % n as int;
    let first = samples[at];
    let k = color_count(cfg, n as int);
    samples.lemma_cardinality_of_set();
    assert(samples.contains(samples[at]));
    let start = seq![first];
    assert forall|c: int| 0 <= c < start.len() implies samples.contains(#[trigger] start[c]) by {
        assert(start[c] == first);
    }
    lemma_seeds_cover::<W>(samples, start, k, cfg.seed, n + 1);
    let seeds = seeded::<W>(samples, start, k, cfg.seed, n + 1);
    lemma_centroids_stay::<W>(samples, seeds, unassigned(n), cfg.max_iterations as nat);
}

/// The colours of the opaque ones among the first `n` pixels, as they are compared.
pub open spec fn colors_upto<R: Number>(pixels: Seq<u8>, threshold: u8, n: int) -> Seq<Lab<R>> {
    opaque_pixels(pixels, threshold, n as nat).map_values(|i: int| pixel_color::<R>(pixels, i))
}

/// Pixels show no more colours as they are compared than as they are written.
proof fn lemma_fewer_colors<R: Number>(pixels: Seq<u8>, threshold: u8, n: nat)
    ensures
        opaque_colors(pixels, threshold, n as int).finite(),
        colors_upto::<R>(pixels, threshold, n as int).to_set().finite(),
        colors_upto::<R>(pixels, threshold, n as int).to_set().len() <= opaque_colors(
            pixels,
            threshold,
            n as int,
        ).len(),
    decreases n,
{
    let now = colors_upto::<R>(pixels, threshold, n as int);
    if n == 0 {
        assert(now.to_set() =~= Set::empty());
        assert(opaque_colors(pixels, threshold, 0) =~= Set::empty());
    } else {
        let j = n - 1;
        lemma_fewer_colors::<R>(pixels, threshold, j as nat);
        lemma_opaque_step(pixels, threshold, j as nat);
        let before = colors_upto::<R>(pixels, threshold, j);
        let picks = opaque_pixels(pixels, threshold, j as nat);
        if opaque(pixels, threshold, j) {
            let x = pixel_color::<R>(pixels, j);
            assert(now =~= before.push(x));
            assert(now.to_set() =~= before.to_set().insert(x)) by {
                assert forall|v: Lab<R>| now.to_set().contains(v) == before.to_set().insert(
                    x,
                ).contains(v) by {
                    if before.contains(v) {
                        let k = choose|k: int| 0 <= k < before.len() && before[k] == v;
                        assert(now[k] == v);
                    }
                    if now.contains(v) {
                        let k = choose|k: int| 0 <= k < now.len() && now[k] == v;
                        if k < before.len() {
                            assert(before[k] == v);
                        }
                    }
                    assert(now[before.len() as int] == x);
                }
            }
            if opaque_colors(pixels, threshold, j).contains(packed(pixels, j)) {
                let shown = picks.map_values(|i: int| packed(pixels, i));
                let k = choose|k: int| 0 <= k < shown.len() && shown[k] == packed(pixels, j);
                let i = picks[k];
                assert(packed(pixels, i) == packed(pixels, j));
                assert(pixels[4 * i] == pixels[4 * j] && pixels[4 * i + 1] == pixels[4 * j + 1]
                    && pixels[4 * i + 2] == pixels[4 * j + 2]);
                assert(before[k] == x);
                assert(before.contains(x));
            }
        } else {
            assert(now =~= before);
        }
    }
}

/// The opaque pixel `i` comes out as the colour of opaque pixel `j`.
pub open spec fn comes_out_as(before: Seq<u8>, after: Seq<u8>, i: int, j: int) -> bool {
    &&& after[4 * i] == before[4 * j]
    &&& after[4 * i + 1] == before[4 * j + 1]
    &&& after[4 * i + 2] == before[4 * j + 2]
}

/// No opaque pixel before pixel `i` shares its bucket.
pub open spec fn opens_bucket(pixels: Seq<u8>, threshold: u8, i: int) -> bool {
    forall|j: int|
        0 <= j < i && #[trigger] opaque(pixels, threshold, j) ==> pixel_bucket(pixels, j)
            != pixel_bucket(pixels, i)
}

proof fn lemma_nothing_remembered<R: Number>(
    pixels: Seq<u8>,
    threshold: u8,
    centroids: Seq<Lab<R>>,
    key: int,
    i: int,
)
    requires
        forall|j: int|
            0 <= j < i && #[trigger] opaque(pixels, threshold, j) ==> pixel_bucket(pixels, j)
                != key,
    ensures
        remembered(pixels, threshold, centroids, key, i) is None,
    decreases i,
{
    if i > 0 {
        lemma_nothing_remembered(pixels, threshold, centroids, key, i - 1);
    }
}

/// An opaque pixel that is the first of its bucket takes the colour of a centroid that no other
/// centroid is nearer than, whatever the centroids are.
pub proof fn law_pixels_go_to_the_nearest_centroid<W: Precise>(
    pixels: Seq<u8>,
    cfg: &QuantizeConfig,
    i: int,
)
    requires
        0 <= i < pixels.len() / 4,
        opaque(pixels, cfg.alpha_threshold, i),
        opens_bucket(pixels, cfg.alpha_threshold, i),
    ensures
        exists|c: int|
            #![trigger fitted::<W>(pixels, cfg)[c]]
            {
                let out = quantized::<W>(pixels, cfg);
                let centroids = fitted::<W>(pixels, cfg);
                let rgb = rgb_of(centroids[c]);
                let x = pixel_color::<W::Single>(pixels, i);
                &&& 0 <= c < centroids.len()
                &&& out[4 * i] == rgb[0] && out[4 * i + 1] == rgb[1] && out[4 * i + 2] == rgb[2]
                &&& forall|j: int|
                    0 <= j < centroids.len() ==> distance(x, centroids[c]) <= distance(
                        x,
                        #[trigger] centroids[j],
                    )
            },
{
    let t = cfg.alpha_threshold;
    let centroids = fitted::<W>(pixels, cfg);
    let x = pixel_color::<W::Single>(pixels, i);
    lemma_counted(pixels, t, pixels.len() / 4, i);
    law_as_many_centroids_as_asked_for::<W>(pixels, cfg);
    lemma_some_centroid::<W>(pixels, cfg);
    lemma_nearest_exists(x, centroids);
    lemma_nothing_remembered(pixels, t, centroids, pixel_bucket(pixels, i), i);
    let c = nearest_index(x, centroids);
    assert(cluster(pixels, t, centroids, i) == c);
    assert(4 * i / 4 == i && (4 * i + 1) / 4 == i && (4 * i + 2) / 4 == i);
    assert((4 * i) % 4 == 0 && (4 * i + 1) % 4 == 1 && (4 * i + 2) % 4 == 2);
    assert(centroids[c] == fitted::<W>(pixels, cfg)[c]);
}

proof fn lemma_some_centroid<W: Precise>(pixels: Seq<u8>, cfg: &QuantizeConfig)
    requires
        opaque_pixels(pixels, cfg.alpha_threshold, pixels.len() / 4).len() > 0,
    ensures
        fitted::<W>(pixels, cfg).len() > 0,
{
    let samples = sampled::<W::Single>(pixels, cfg);
    let n = samples.len();
    let first = samples[random(cfg.seed, n) as int % n as int];
    let k = color_count(cfg, n as int);
    let seeds = seeded::<W>(samples, seq![first], k, cfg.seed, n + 1);
    lemma_seeded_len::<W>(samples, seq![first], k, cfg.seed, n + 1);
    lemma_refined_len::<W>(samples, seeds, unassigned(n), cfg.max_iterations as nat);
}

/// Packed colours are equal for equal colours alone.
pub proof fn law_packing_tells_colors_apart(a: Seq<u8>, i: int, b: Seq<u8>, j: int)
    ensures
        packed(a, i) == packed(b, j) <==> a[4 * i] == b[4 * j] && a[4 * i + 1] == b[4 * j + 1] && a[4
            * i + 2] == b[4 * j + 2],
{
}

/// The image shows no more colours than are asked for, all its opaque pixels are sampled, and
/// numbers are precise enough to tell its colours apart and to give them back.
#[verifier::opaque]
pub open spec fn shows_few_colors<W: Precise>(pixels: Seq<u8>, cfg: &QuantizeConfig) -> bool {
    let n = pixels.len() as int / 4;
    let t = cfg.alpha_threshold;
    &&& 0 < opaque_pixels(pixels, t, n as nat).len() <= cfg.max_samples
    &&& opaque_colors(pixels, t, n).len() <= wanted(cfg)
    &&& fits_samples::<W>(colors_upto::<W::Single>(pixels, t, n))
    &&& forall|i: int|
        0 <= i < n && #[trigger] opaque(pixels, t, i) ==> rgb_of(
            pixel_color::<W::Single>(pixels, i),
        ) == [pixels[4 * i], pixels[4 * i + 1], pixels[4 * i + 2]]
}

/// Different colours of the image are in different buckets.
#[verifier::opaque]
pub open spec fn buckets_tell_apart(pixels: Seq<u8>, threshold: u8) -> bool {
    forall|i: int, j: int|
        0 <= i < pixels.len() / 4 && 0 <= j < pixels.len() / 4 && #[trigger] opaque(
            pixels,
            threshold,
            i,
        ) && #[trigger] opaque(pixels, threshold, j) && pixel_bucket(pixels, i) == pixel_bucket(
            pixels,
            j,
        ) ==> packed(pixels, i) == packed(pixels, j)
}

proof fn lemma_exact_centroids<W: Precise>(pixels: Seq<u8>, cfg: &QuantizeConfig)
    requires
        shows_few_colors::<W>(pixels, cfg),
    ensures
        forall|i: int|
            0 <= i < pixels.len() / 4 && #[trigger] opaque(pixels, cfg.alpha_threshold, i)
                ==> exact_centroid::<W>(pixels, cfg, i),
{
    reveal(fits_samples);
    reveal(shows_few_colors);
    let n = pixels.len() as int / 4;
    let t = cfg.alpha_threshold;
    let all = colors_upto::<W::Single>(pixels, t, n);
    let samples = sampled::<W::Single>(pixels, cfg);
    let centroids = fitted::<W>(pixels, cfg);
    assert(samples =~= all) by {
        assert(samples.len() == all.len());
        assert forall|m: int| 0 <= m < samples.len() implies samples[m] == all[m] by {
            law_samples_cover_the_image::<W::Single>(pixels, cfg, m);
        }
    }
    lemma_fewer_colors::<W::Single>(pixels, t, n as nat);
    law_every_sampled_color_gets_a_centroid::<W>(pixels, cfg);
    assert forall|i: int| 0 <= i < n && #[trigger] opaque(pixels, t, i) implies exact_centroid::<W>(
        pixels,
        cfg,
        i,
    ) by {
        let k = lemma_pick_of(pixels, t, n as nat, i);
        assert(all[k] == pixel_color::<W::Single>(pixels, i));
        assert(centroids.contains(samples[k]));
        let c = choose|c: int| 0 <= c < centroids.len() && centroids[c] == samples[k];
        lemma_own_centroid(samples, centroids, k, c);
    }
}

/// A pixel comes out as the first pixel of its bucket was.
proof fn lemma_comes_out_as_first<W: Precise>(
    pixels: Seq<u8>,
    cfg: &QuantizeConfig,
    i: int,
    j: int,
)
    requires
        shows_few_colors::<W>(pixels, cfg),
        0 <= j <= i < pixels.len() / 4,
        opaque(pixels, cfg.alpha_threshold, i),
        opaque(pixels, cfg.alpha_threshold, j),
        pixel_bucket(pixels, j) == pixel_bucket(pixels, i),
        opens_bucket(pixels, cfg.alpha_threshold, j),
    ensures
        comes_out_as(pixels, quantized::<W>(pixels, cfg), i, j),
{
    let t = cfg.alpha_threshold;
    let centroids = fitted::<W>(pixels, cfg);
    lemma_exact_centroids::<W>(pixels, cfg);
    assert(exact_centroid::<W>(pixels, cfg, j));
    lemma_nothing_remembered(pixels, t, centroids, pixel_bucket(pixels, j), j);
    lemma_remembered_later(pixels, t, centroids, pixel_bucket(pixels, j), j, i);
    reveal(shows_few_colors);
    lemma_mapped::<W>(pixels, cfg, i, j);
}

/// Where different colours are in different buckets, an opaque pixel comes out as it was.
proof fn lemma_comes_out_unchanged<W: Precise>(pixels: Seq<u8>, cfg: &QuantizeConfig, i: int)
    requires
        shows_few_colors::<W>(pixels, cfg),
        0 <= i < pixels.len() / 4,
        opaque(pixels, cfg.alpha_threshold, i),
        buckets_tell_apart(pixels, cfg.alpha_threshold),
    ensures
        comes_out_as(pixels, quantized::<W>(pixels, cfg), i, i),
{
    let j = lemma_first_of_bucket(pixels, cfg.alpha_threshold, i);
    assert(packed(pixels, i) == packed(pixels, j)) by {
        reveal(buckets_tell_apart);
    }
    law_packing_tells_colors_apart(pixels, i, pixels, j);
    lemma_comes_out_as_first::<W>(pixels, cfg, i, j);
}

/// An image that shows no more colours than are asked for keeps them, where all its opaque pixels
/// are sampled and numbers are precise enough: there is a centroid on each of them, the first
/// pixel of every bucket comes out as it was, so that pixels of different buckets keep different
/// colours, and an image in which no two colours share a bucket comes out unchanged.
pub proof fn law_few_colors_are_kept<W: Precise>(pixels: Seq<u8>, cfg: &QuantizeConfig)
    requires
        shows_few_colors::<W>(pixels, cfg),
    ensures
        forall|i: int|
            0 <= i < pixels.len() / 4 && #[trigger] opaque(pixels, cfg.alpha_threshold, i)
                ==> fitted::<W>(pixels, cfg).contains(pixel_color::<W::Single>(pixels, i)),
        forall|i: int|
            0 <= i < pixels.len() / 4 && #[trigger] opaque(pixels, cfg.alpha_threshold, i)
                && opens_bucket(pixels, cfg.alpha_threshold, i) ==> comes_out_as(
                pixels,
                quantized::<W>(pixels, cfg),
                i,
                i,
            ),
        buckets_tell_apart(pixels, cfg.alpha_threshold) ==> quantized::<W>(pixels, cfg) == pixels,
{
    let n = pixels.len() as int / 4;
    let t = cfg.alpha_threshold;
    let centroids = fitted::<W>(pixels, cfg);
    let out = quantized::<W>(pixels, cfg);
    assert forall|i: int| 0 <= i < n && #[trigger] opaque(pixels, t, i) implies centroids.contains(
        pixel_color::<W::Single>(pixels, i),
    ) by {
        lemma_exact_centroids::<W>(pixels, cfg);
        assert(exact_centroid::<W>(pixels, cfg, i));
    }
    assert forall|i: int|
        0 <= i < n && #[trigger] opaque(pixels, t, i) && opens_bucket(pixels, t, i) implies
        comes_out_as(pixels, out, i, i) by {
        lemma_comes_out_as_first::<W>(pixels, cfg, i, i);
    }
    if buckets_tell_apart(pixels, t) {
        law_quantizing_keeps_alpha_and_transparency::<W>(pixels, cfg);
        assert forall|p: int| 0 <= p < pixels.len() implies out[p] == pixels[p] by {
            let i = p / 4;
            if i < n && p % 4 < 3 && opaque(pixels, t, i) {
                lemma_comes_out_unchanged::<W>(pixels, cfg, i);
                assert(p == 4 * i || p == 4 * i + 1 || p == 4 * i + 2);
            } else {
                assert(quantized::<W>(pixels, cfg)[p] == pixels[p]);
            }
        }
        assert(out =~= pixels);
    }
}

/// The nearest centroid to a pixel lies on its colour.
spec fn exact_centroid<W: Precise>(pixels: Seq<u8>, cfg: &QuantizeConfig, i: int) -> bool {
    let centroids = fitted::<W>(pixels, cfg);
    let x = pixel_color::<W::Single>(pixels, i);
    let c = nearest_index(x, centroids);
    0 <= c < centroids.len() && centroids[c] == x
}

/// A pixel that is mapped to the nearest centroid of pixel `j` comes out as `j` was.
proof fn lemma_mapped<W: Precise>(pixels: Seq<u8>, cfg: &QuantizeConfig, i: int, j: int)
    requires
        0 <= i < pixels.len() / 4,
        0 <= j < pixels.len() / 4,
        opaque(pixels, cfg.alpha_threshold, i),
        opaque_pixels(pixels, cfg.alpha_threshold, pixels.len() / 4).len() > 0,
        cluster(pixels, cfg.alpha_threshold, fitted::<W>(pixels, cfg), i) == nearest_index(
            pixel_color::<W::Single>(pixels, j),
            fitted::<W>(pixels, cfg),
        ),
        exact_centroid::<W>(pixels, cfg, j),
        rgb_of(pixel_color::<W::Single>(pixels, j)) == [
            pixels[4 * j],
            pixels[4 * j + 1],
            pixels[4 * j + 2],
        ],
    ensures
        comes_out_as(pixels, quantized::<W>(pixels, cfg), i, j),
{
    let rgb = rgb_of(pixel_color::<W::Single>(pixels, j));
    assert(rgb[0] == pixels[4 * j] && rgb[1] == pixels[4 * j + 1] && rgb[2] == pixels[4 * j + 2]);
    assert(4 * i / 4 == i && (4 * i + 1) / 4 == i && (4 * i + 2) / 4 == i);
    assert((4 * i) % 4 == 0 && (4 * i + 1) % 4 == 1 && (4 * i + 2) % 4 == 2);
}

/// An opaque pixel is among the opaque pixels.
pub proof fn lemma_pick_of(pixels: Seq<u8>, threshold: u8, n: nat, i: int) -> (k: int)
    requires
        0 <= i < n,
        opaque(pixels, threshold, i),
    ensures
        0 <= k < opaque_pixels(pixels, threshold, n).len(),
        opaque_pixels(pixels, threshold, n)[k] == i,
    decreases n,
{
    if i < n - 1 {
        lemma_pick_of(pixels, threshold, (n - 1) as nat, i)
    } else {
        opaque_pixels(pixels, threshold, (n - 1) as nat).len() as int
    }
}

/// Every bucket with an opaque pixel is opened by one.
proof fn lemma_first_of_bucket(pixels: Seq<u8>, threshold: u8, i: int) -> (j: int)
    requires
        0 <= i,
        opaque(pixels, threshold, i),
    ensures
        0 <= j <= i,
        opaque(pixels, threshold, j),
        pixel_bucket(pixels, j) == pixel_bucket(pixels, i),
        opens_bucket(pixels, threshold, j),
    decreases i,
{
    if exists|k: int|
        0 <= k < i && #[trigger] opaque(pixels, threshold, k) && pixel_bucket(pixels, k)
            == pixel_bucket(pixels, i) {
        let k = choose|k: int|
            0 <= k < i && #[trigger] opaque(pixels, threshold, k) && pixel_bucket(pixels, k)
                == pixel_bucket(pixels, i);
        lemma_first_of_bucket(pixels, threshold, k)
    } else {
        i
    }
}

} // verus!
