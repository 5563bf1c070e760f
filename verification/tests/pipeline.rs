use std::collections::HashMap;

use svgit::color::{dist2, lab_to_rgb, rgb_to_lab, Lab};
use svgit::contour::{contours_of, signed_area, Pt};
use svgit::number::{Number, Precise};
use svgit::quantize::{distinct_colors, quantize_rgba, rgb565, QuantizeConfig};
use svgit::segment::segment;
use svgit::simplify::{perp_dist2, simplify_closed};
use svgit::trace::{trace_rgba, TraceConfig};

/// Single-precision floating point.
#[derive(Debug, Clone, Copy, PartialEq)]
struct F32(f32);

impl Number for F32 {
    fn from_index(n: usize) -> Self {
        F32(n as f32)
    }

    fn ratio(n: u32, d: u32) -> Self {
        F32(n as f32 / d as f32)
    }

    fn plus(self, b: Self) -> Self {
        F32(self.0 + b.0)
    }

    fn minus(self, b: Self) -> Self {
        F32(self.0 - b.0)
    }

    fn times(self, b: Self) -> Self {
        F32(self.0 * b.0)
    }

    fn over(self, b: Self) -> Self {
        F32(self.0 / b.0)
    }

    fn lesser(self, b: Self) -> Self {
        F32(self.0.min(b.0))
    }

    fn greater(self, b: Self) -> Self {
        F32(self.0.max(b.0))
    }

    fn exp_neg(self) -> Self {
        F32((-self.0).exp())
    }

    fn pow(self, b: Self) -> Self {
        F32(self.0.powf(b.0))
    }

    fn cbrt(self) -> Self {
        F32(self.0.cbrt())
    }

    fn is_below(self, b: Self) -> bool {
        self.0 < b.0
    }

    fn is_at_least(self, b: Self) -> bool {
        self.0 >= b.0
    }

    fn rank(self) -> u32 {
        // Zero has two bit patterns; negative numbers are ordered the other way round.
        let bits = (self.0 + 0.0).to_bits();
        if bits >> 31 == 1 {
            !bits
        } else {
            bits | 0x8000_0000
        }
    }

    fn floor_index(self) -> usize {
        self.0.floor().max(0.0) as usize
    }

    fn ceil_int(self) -> i64 {
        self.0.ceil() as i64
    }

    fn round_index(self) -> usize {
        self.0.round() as usize
    }

    fn trunc_index(self) -> usize {
        self.0 as usize
    }

    fn trunc_count(self) -> u32 {
        self.0 as u32
    }

    fn unit_byte(self) -> u8 {
        (self.0.clamp(0.0, 1.0) * 255.0).round() as u8
    }

    fn round_byte(self) -> u8 {
        self.0.round().clamp(0.0, 255.0) as u8
    }
}

/// Double-precision floating point.
#[derive(Debug, Clone, Copy, PartialEq)]
struct F64(f64);

impl Number for F64 {
    fn from_index(n: usize) -> Self {
        F64(n as f64)
    }

    fn ratio(n: u32, d: u32) -> Self {
        F64(n as f64 / d as f64)
    }

    fn plus(self, b: Self) -> Self {
        F64(self.0 + b.0)
    }

    fn minus(self, b: Self) -> Self {
        F64(self.0 - b.0)
    }

    fn times(self, b: Self) -> Self {
        F64(self.0 * b.0)
    }

    fn over(self, b: Self) -> Self {
        F64(self.0 / b.0)
    }

    fn lesser(self, b: Self) -> Self {
        F64(self.0.min(b.0))
    }

    fn greater(self, b: Self) -> Self {
        F64(self.0.max(b.0))
    }

    fn exp_neg(self) -> Self {
        F64((-self.0).exp())
    }

    fn pow(self, b: Self) -> Self {
        F64(self.0.powf(b.0))
    }

    fn cbrt(self) -> Self {
        F64(self.0.cbrt())
    }

    fn is_below(self, b: Self) -> bool {
        self.0 < b.0
    }

    fn is_at_least(self, b: Self) -> bool {
        self.0 >= b.0
    }

    fn rank(self) -> u32 {
        (self.wide_rank() >> 32) as u32
    }

    fn floor_index(self) -> usize {
        self.0.floor().max(0.0) as usize
    }

    fn ceil_int(self) -> i64 {
        self.0.ceil() as i64
    }

    fn round_index(self) -> usize {
        self.0.round() as usize
    }

    fn trunc_index(self) -> usize {
        self.0 as usize
    }

    fn trunc_count(self) -> u32 {
        self.0 as u32
    }

    fn unit_byte(self) -> u8 {
        (self.0.clamp(0.0, 1.0) * 255.0).round() as u8
    }

    fn round_byte(self) -> u8 {
        self.0.round().clamp(0.0, 255.0) as u8
    }
}

impl Precise for F64 {
    type Single = F32;

    fn widen(x: F32) -> Self {
        F64(x.0 as f64)
    }

    fn narrow(self) -> F32 {
        F32(self.0 as f32)
    }

    fn from_count(n: u64) -> Self {
        F64(n as f64)
    }

    fn from_int(n: i32) -> Self {
        F64(n as f64)
    }

    fn wide_rank(self) -> u64 {
        let bits = (self.0 + 0.0).to_bits();
        if bits >> 63 == 1 {
            !bits
        } else {
            bits | 0x8000_0000_0000_0000
        }
    }
}

#[test]
fn roundtrip_is_near_identity() {
    // LAB is wider than sRGB, but sRGB → LAB → sRGB should return close to
    // the original for in-gamut colors.
    for &(r, g, b) in &[
        (0, 0, 0),
        (255, 255, 255),
        (255, 0, 0),
        (0, 128, 64),
        (12, 200, 240),
        (130, 70, 200),
    ] {
        let [r2, g2, b2] = lab_to_rgb(rgb_to_lab::<F32>(r, g, b));
        assert!((r as i32 - r2 as i32).abs() <= 2, "r {r}->{r2}");
        assert!((g as i32 - g2 as i32).abs() <= 2, "g {g}->{g2}");
        assert!((b as i32 - b2 as i32).abs() <= 2, "b {b}->{b2}");
    }
}

#[test]
fn black_and_white_extremes() {
    assert_eq!(rgb_to_lab::<F32>(0, 0, 0)[0].0, 0.0);
    assert!((rgb_to_lab::<F32>(255, 255, 255)[0].0 - 100.0).abs() < 0.1);
}

/// Build an RGBA buffer from a list of opaque RGB triples.
fn opaque_rgba(colors: &[[u8; 3]]) -> Vec<u8> {
    let mut v = Vec::with_capacity(colors.len() * 4);
    for c in colors {
        v.extend_from_slice(&[c[0], c[1], c[2], 255]);
    }
    v
}

#[test]
fn reduces_to_requested_color_count() {
    // Four well-separated colors, asked for two -> exactly two distinct out.
    let img = opaque_rgba(&[[255, 0, 0], [250, 5, 5], [0, 0, 255], [5, 5, 250]]);
    let out = quantize_rgba::<F64>(img, &QuantizeConfig { num_colors: 2, ..Default::default() });
    assert_eq!(distinct_colors(&out, 0), 2);
}

#[test]
fn single_color_target_flattens_everything() {
    let img = opaque_rgba(&[[10, 20, 30], [200, 100, 50], [0, 255, 0]]);
    let out = quantize_rgba::<F64>(img, &QuantizeConfig { num_colors: 1, ..Default::default() });
    assert_eq!(distinct_colors(&out, 0), 1);
}

#[test]
fn never_exceeds_requested_colors() {
    // A spread of colors quantized to 5 -> at most 5 distinct out.
    let mut cols = Vec::new();
    for i in 0..50u8 {
        cols.push([i.wrapping_mul(5), 255 - i.wrapping_mul(3), i.wrapping_mul(2)]);
    }
    let out = quantize_rgba::<F64>(opaque_rgba(&cols), &QuantizeConfig { num_colors: 5, ..Default::default() });
    assert!(distinct_colors(&out, 0) <= 5);
}

#[test]
fn is_deterministic() {
    let img = opaque_rgba(&[[10, 20, 30], [200, 100, 50], [0, 255, 0], [120, 120, 120]]);
    let a = quantize_rgba::<F64>(img.clone(), &QuantizeConfig { num_colors: 2, ..Default::default() });
    let b = quantize_rgba::<F64>(img, &QuantizeConfig { num_colors: 2, ..Default::default() });
    assert_eq!(a, b);
}

#[test]
fn preserves_transparent_pixels() {
    // One opaque, one fully transparent with distinctive RGB.
    let img = vec![255u8, 0, 0, 255, 7, 8, 9, 0];
    let out = quantize_rgba::<F64>(img.clone(), &QuantizeConfig { num_colors: 4, ..Default::default() });
    // Transparent pixel's bytes are untouched.
    assert_eq!(&out[4..8], &img[4..8]);
}

#[test]
fn handles_empty_and_tiny_inputs() {
    assert!(quantize_rgba::<F64>(Vec::new(), &QuantizeConfig::default()).is_empty());
    let one = vec![1u8, 2, 3, 255];
    assert_eq!(
        quantize_rgba::<F64>(one, &QuantizeConfig { num_colors: 8, ..Default::default() }).len(),
        4
    );
}

#[test]
fn collapses_a_staircase_into_a_diagonal() {
    // A staircase from (0,0) to (4,4) closed back along the top edge.
    let loop_pts = vec![
        (0, 0), (1, 0), (1, 1), (2, 1), (2, 2), (3, 2), (3, 3), (4, 3), (4, 4), (0, 4),
    ];
    let s = simplify_closed(&loop_pts, F64(1.5));
    // The stair should collapse to roughly the corners of a triangle.
    assert!(s.len() < loop_pts.len());
    assert!(s.len() <= 4, "expected a near-triangle, got {}", s.len());
}

#[test]
fn noop_on_small_or_zero_epsilon() {
    let loop_pts = vec![(0, 0), (4, 0), (4, 4), (0, 4)];
    assert_eq!(simplify_closed(&loop_pts, F64(0.0)), loop_pts);
    assert_eq!(simplify_closed(&loop_pts, F64(-1.0)), loop_pts);
}

#[test]
fn keeps_real_corners() {
    // A clean square should keep its 4 corners.
    let sq = vec![(0, 0), (10, 0), (10, 10), (0, 10)];
    let s = simplify_closed(&sq, F64(1.0));
    assert_eq!(s.len(), 4);
}

#[test]
fn probe_diaghole_through_full_pipeline() {
    // The DIAGHOLE figure-eight hole, then RDP it like trace.rs does.
    let figure8 = vec![(2,1),(1,1),(1,2),(2,2),(2,3),(3,3),(3,2),(2,2)];
    println!("pre-RDP  len={} area2={}", figure8.len(), signed_area(&figure8));
    for eps in [0.0_f64, 1.2, 2.0] {
        let s = simplify_closed(&figure8, F64(eps));
        println!("  eps={eps} -> len={} area2={} pts={:?}", s.len(), signed_area(&s), s);
    }
}

fn pixels(colors: &[[u8; 4]]) -> Vec<u8> {
    colors.iter().flat_map(|c| c.iter().copied()).collect()
}

#[test]
fn two_flat_regions_produce_valid_svg() {
    // 2x2: top row red, bottom row blue.
    let px = pixels(&[
        [255, 0, 0, 255],
        [255, 0, 0, 255],
        [0, 0, 255, 255],
        [0, 0, 255, 255],
    ]);
    let svg = trace_rgba(&px, 2, 2, &TraceConfig { min_area: 0, simplify: F64(0.0), ..Default::default() });
    assert!(svg.starts_with("<?xml"));
    assert!(svg.contains("<svg"));
    assert!(svg.ends_with("</svg>\n"));
    // Background rect (one color) + one path (the other region).
    assert!(svg.contains("<rect"));
    assert_eq!(svg.matches("<path").count(), 1);
    // Both colors appear.
    assert!(svg.contains("#ff0000"));
    assert!(svg.contains("#0000ff"));
}

#[test]
fn transparent_pixels_are_not_drawn() {
    // One opaque green, three transparent.
    let px = pixels(&[
        [0, 255, 0, 255],
        [0, 0, 0, 0],
        [0, 0, 0, 0],
        [0, 0, 0, 0],
    ]);
    let svg = trace_rgba(&px, 2, 2, &TraceConfig { background: false, min_area: 0, simplify: F64(0.0), ..Default::default() });
    assert_eq!(svg.matches("<path").count(), 1);
    assert!(svg.contains("#00ff00"));
    assert!(!svg.contains("<rect"));
}

#[test]
fn probe_diagonal_holes_full_pipeline_default_cfg() {
    // 4x4 background color A with two diagonally-touching holes of color B
    // at cells (1,1) and (2,2). With default simplify=1.2 the holes get
    // mangled into a degenerate triangle / dropped.
    let a = [10u8, 20, 30, 255];
    let b = [200u8, 100, 50, 255];
    let mut px = vec![];
    let layout = [
        0,0,0,0,
        0,1,0,0,
        0,0,1,0,
        0,0,0,0,
    ];
    for &v in &layout {
        px.extend_from_slice(if v == 0 { &a } else { &b });
    }
    // Default cfg has background=true, simplify=1.2, min_area=4.
    // Use min_area=0 so the 1px holes survive as their own components.
    let cfg: TraceConfig<F64> = TraceConfig { min_area: 0, ..Default::default() };
    let svg = trace_rgba(&px, 4, 4, &cfg);
    println!("SVG:\n{svg}");
    // Count distinct fill colors actually drawn.
    let n_b = svg.matches("#c86432").count(); // b = (200,100,50)
    println!("paths of color B (the two holes) = {n_b}");
}

#[test]
fn empty_image_is_valid_svg() {
    let svg = trace_rgba::<F64>(&[], 0, 0, &TraceConfig::default());
    assert!(svg.contains("<svg"));
    assert!(svg.contains("</svg>"));
}

// --- direct floating-point versions to hold the results against ---

fn plain_lab(r: u8, g: u8, b: u8) -> [f32; 3] {
    fn linear(u: u8) -> f32 {
        let c = u as f32 / 255.0;
        if c <= 0.04045 {
            c / 12.92
        } else {
            ((c + 0.055) / 1.055).powf(2.4)
        }
    }
    fn f(t: f32) -> f32 {
        let d: f32 = 6.0 / 29.0;
        if t > d * d * d {
            t.cbrt()
        } else {
            t / (3.0 * d * d) + 4.0 / 29.0
        }
    }
    let (rl, gl, bl) = (linear(r), linear(g), linear(b));
    let fx = f((0.4124564 * rl + 0.3575761 * gl + 0.1804375 * bl) / 0.95047);
    let fy = f((0.2126729 * rl + 0.7151522 * gl + 0.0721750 * bl) / 1.0);
    let fz = f((0.0193339 * rl + 0.1191920 * gl + 0.9503041 * bl) / 1.08883);
    [116.0 * fy - 16.0, 500.0 * (fx - fy), 200.0 * (fy - fz)]
}

fn plain_rgb(lab: [f32; 3]) -> [u8; 3] {
    fn byte(c: f32) -> u8 {
        let c = c.clamp(0.0, 1.0);
        let v = if c <= 0.0031308 { 12.92 * c } else { 1.055 * c.powf(1.0 / 2.4) - 0.055 };
        (v * 255.0).round().clamp(0.0, 255.0) as u8
    }
    fn inv(t: f32) -> f32 {
        let d: f32 = 6.0 / 29.0;
        if t > d {
            t * t * t
        } else {
            3.0 * d * d * (t - 4.0 / 29.0)
        }
    }
    let fy = (lab[0] + 16.0) / 116.0;
    let x = 0.95047 * inv(fy + lab[1] / 500.0);
    let y = 1.0 * inv(fy);
    let z = 1.08883 * inv(fy - lab[2] / 200.0);
    [
        byte(3.2404542 * x - 1.5371385 * y - 0.4985314 * z),
        byte(-0.9692660 * x + 1.8760108 * y + 0.0415560 * z),
        byte(0.0556434 * x - 0.2040259 * y + 1.0572252 * z),
    ]
}

fn plain_dist2(a: [f32; 3], b: [f32; 3]) -> f32 {
    let (d0, d1, d2) = (a[0] - b[0], a[1] - b[1], a[2] - b[2]);
    d0 * d0 + d1 * d1 + d2 * d2
}

fn plain_nearest(x: [f32; 3], centroids: &[[f32; 3]]) -> usize {
    let mut best = 0;
    for c in 1..centroids.len() {
        if plain_dist2(x, centroids[c]) < plain_dist2(x, centroids[best]) {
            best = c;
        }
    }
    best
}

fn plain_random(state: &mut u64) -> u64 {
    *state = state.wrapping_add(0x9E37_79B9_7F4A_7C15);
    let mut z = *state;
    z = (z ^ (z >> 30)).wrapping_mul(0xBF58_476D_1CE4_E5B9);
    z = (z ^ (z >> 27)).wrapping_mul(0x94D0_49BB_1331_11EB);
    z ^ (z >> 31)
}

fn plain_quantize(mut pixels: Vec<u8>, cfg: &QuantizeConfig) -> Vec<u8> {
    let opaque: Vec<usize> =
        (0..pixels.len() / 4).filter(|i| pixels[i * 4 + 3] > cfg.alpha_threshold).collect();
    if opaque.is_empty() {
        return pixels;
    }
    let mut state = cfg.seed;
    let target = cfg.max_samples.max(1).min(opaque.len());
    let stride = opaque.len() / target;
    let samples: Vec<[f32; 3]> = (0..target)
        .map(|m| {
            let i = opaque[m * stride + (plain_random(&mut state) % stride as u64) as usize];
            plain_lab(pixels[i * 4], pixels[i * 4 + 1], pixels[i * 4 + 2])
        })
        .collect();
    let k = cfg.num_colors.max(1).min(samples.len());
    let mut centroids = vec![samples[(plain_random(&mut state) % samples.len() as u64) as usize]];
    while centroids.len() < k {
        let gaps: Vec<f32> = samples
            .iter()
            .map(|&s| plain_dist2(s, centroids[plain_nearest(s, &centroids)]))
            .collect();
        let total: f64 = gaps.iter().map(|&x| x as f64).sum();
        if total <= 0.0 {
            break;
        }
        let mut chosen = 0;
        for i in 1..gaps.len() {
            if gaps[i] > gaps[chosen] {
                chosen = i;
            }
        }
        let share = (plain_random(&mut state) >> 40) as f32 / (1u64 << 24) as f32;
        let mut weight = share as f64 * total;
        for (i, &w) in gaps.iter().enumerate() {
            if w > 0.0 {
                weight -= w as f64;
                if weight <= 0.0 {
                    chosen = i;
                    break;
                }
            }
        }
        centroids.push(samples[chosen]);
    }
    let mut assign = vec![usize::MAX; samples.len()];
    for _ in 0..cfg.max_iterations {
        let now: Vec<usize> = samples.iter().map(|&s| plain_nearest(s, &centroids)).collect();
        for c in 0..centroids.len() {
            let mut sum = [0.0f64; 3];
            let mut n = 0u64;
            for (i, s) in samples.iter().enumerate() {
                if now[i] == c {
                    for ch in 0..3 {
                        sum[ch] += s[ch] as f64;
                    }
                    n += 1;
                }
            }
            if n > 0 {
                for ch in 0..3 {
                    centroids[c][ch] = (sum[ch] / n as f64) as f32;
                }
            }
        }
        let settled = now == assign;
        assign = now;
        if settled {
            break;
        }
    }
    let mut memo: HashMap<usize, usize> = HashMap::new();
    for &i in &opaque {
        let (r, g, b) = (pixels[i * 4], pixels[i * 4 + 1], pixels[i * 4 + 2]);
        let key = (r as usize >> 3) << 11 | (g as usize >> 2) << 5 | b as usize >> 3;
        let c = *memo
            .entry(key)
            .or_insert_with(|| plain_nearest(plain_lab(r, g, b), &centroids));
        pixels[i * 4..i * 4 + 3].copy_from_slice(&plain_rgb(centroids[c]));
    }
    pixels
}

fn noise(n: usize, seed: u64) -> Vec<u8> {
    let mut state = seed;
    let mut v = Vec::with_capacity(n * 4);
    for _ in 0..n {
        let z = plain_random(&mut state);
        v.extend_from_slice(&[z as u8, (z >> 8) as u8, (z >> 16) as u8, (z >> 24) as u8]);
    }
    v
}

#[test]
fn lab_conversion_is_the_floating_point_formula() {
    for &(r, g, b) in &[(0, 0, 0), (255, 255, 255), (3, 10, 11), (200, 13, 77), (9, 250, 128)] {
        let lab: Lab<F32> = rgb_to_lab(r, g, b);
        let plain = plain_lab(r, g, b);
        assert_eq!([lab[0].0, lab[1].0, lab[2].0], plain);
        assert_eq!(lab_to_rgb(lab), plain_rgb(plain));
    }
    // Out of gamut on both sides.
    assert_eq!(lab_to_rgb([F32(150.0), F32(0.0), F32(0.0)]), [255, 255, 255]);
    assert_eq!(lab_to_rgb([F32(-20.0), F32(0.0), F32(0.0)]), [0, 0, 0]);
}

#[test]
fn distance_is_squared_euclidean() {
    let a = [F32(1.0), F32(2.0), F32(3.0)];
    let b = [F32(3.0), F32(-1.0), F32(4.0)];
    assert_eq!(dist2(a, b), F32(14.0));
    assert_eq!(dist2(a, a), F32(0.0));
}

#[test]
fn quantizing_follows_the_clustering_step_by_step() {
    for seed in 0..6u64 {
        let img = noise(300, seed);
        for &(k, samples, iterations) in
            &[(1, 40_000, 20), (3, 40_000, 20), (8, 50, 20), (8, 7, 3), (0, 0, 0), (400, 40_000, 2)]
        {
            let cfg = QuantizeConfig {
                num_colors: k,
                max_samples: samples,
                max_iterations: iterations,
                alpha_threshold: 100,
                seed: 99 + seed,
            };
            let out = quantize_rgba::<F64>(img.clone(), &cfg);
            assert_eq!(out, plain_quantize(img.clone(), &cfg), "k={k} samples={samples}");
            assert!(distinct_colors(&out, 100) <= k.max(1));
        }
    }
}

#[test]
fn quantizing_keeps_alpha_transparency_and_stray_bytes() {
    let mut img = noise(40, 5);
    img.extend_from_slice(&[1, 2, 3]);
    let cfg = QuantizeConfig { num_colors: 2, alpha_threshold: 128, ..Default::default() };
    let out = quantize_rgba::<F64>(img.clone(), &cfg);
    assert_eq!(out.len(), img.len());
    for i in 0..40 {
        assert_eq!(out[i * 4 + 3], img[i * 4 + 3]);
        if img[i * 4 + 3] <= 128 {
            assert_eq!(out[i * 4..i * 4 + 4], img[i * 4..i * 4 + 4]);
        }
    }
    assert_eq!(out[160..], [1, 2, 3]);
}

#[test]
fn bucket_mates_come_out_alike() {
    // The second pixel shares the bucket of the first; the third does not.
    let img = opaque_rgba(&[[8, 8, 8], [15, 11, 15], [200, 8, 8], [8, 8, 200]]);
    let out = quantize_rgba::<F64>(img, &QuantizeConfig { num_colors: 3, ..Default::default() });
    assert_eq!(out[0..4], out[4..8]);
    assert_ne!(out[0..4], out[8..12]);
}

#[test]
fn default_quantizer_settings() {
    let cfg = QuantizeConfig::default();
    assert_eq!((cfg.num_colors, cfg.max_iterations, cfg.max_samples), (16, 20, 40_000));
    assert_eq!((cfg.alpha_threshold, cfg.seed), (0, 0x9E37_79B9_7F4A_7C15));
}

#[test]
fn rgb565_packs_the_high_bits() {
    assert_eq!(rgb565(255, 255, 255), 0xFFFF);
    assert_eq!(rgb565(8, 4, 8), (1 << 11) | (1 << 5) | 1);
    assert_eq!(rgb565(7, 3, 7), 0);
}

#[test]
fn distinct_colors_counts_opaque_colors_once() {
    let img = [1, 2, 3, 255, 1, 2, 3, 200, 3, 2, 1, 255, 9, 9, 9, 10];
    assert_eq!(distinct_colors(&img, 0), 3);
    assert_eq!(distinct_colors(&img, 10), 2);
    assert_eq!(distinct_colors(&img, 255), 0);
    assert_eq!(distinct_colors(&[], 0), 0);
}

#[test]
fn distance_to_a_chord() {
    let d: F64 = perp_dist2((1, 3), (0, 0), (4, 0));
    assert_eq!(d, F64(9.0));
    // A chord of no length: the distance to its end.
    let d: F64 = perp_dist2((3, 4), (0, 0), (0, 0));
    assert_eq!(d, F64(25.0));
    // The distance is to the line, also beyond the ends.
    let d: F64 = perp_dist2((-5, 2), (0, 0), (4, 0));
    assert_eq!(d, F64(4.0));
}

#[test]
fn simplifying_keeps_the_anchor_and_the_far_points() {
    // The anchor is kept though it lies on a straight run.
    let pts: Vec<Pt> = vec![(5, 0), (10, 0), (10, 10), (9, 11), (0, 10), (0, 0)];
    let s = simplify_closed(&pts, F64(2.0));
    assert_eq!(s, vec![(5, 0), (10, 0), (9, 11), (0, 10), (0, 0)]);
    let dropped: F64 = perp_dist2((10, 10), (10, 0), (9, 11));
    assert!(dropped.0 <= 4.0);
    // Three points are never simplified.
    let tri: Vec<Pt> = vec![(0, 0), (1, 0), (2, 0)];
    assert_eq!(simplify_closed(&tri, F64(100.0)), tri);
}

const HEAD: &str = "<?xml version=\"1.0\" encoding=\"UTF-8\"?>\n<!-- Generator: svgit owned pipeline -->\n";

#[test]
fn trace_of_two_rows_to_the_letter() {
    let px = pixels(&[
        [255, 0, 0, 255],
        [255, 0, 0, 255],
        [0, 0, 255, 255],
        [0, 0, 255, 255],
    ]);
    let cfg = TraceConfig { min_area: 0, simplify: F64(0.0), ..Default::default() };
    let expected = format!(
        "{HEAD}<svg xmlns=\"http://www.w3.org/2000/svg\" width=\"2\" height=\"2\" viewBox=\"0 0 2 2\">\n\
         <rect width=\"2\" height=\"2\" fill=\"#ff0000\"/>\n\
         <path d=\"M0 1L2 1L2 2L0 2Z\" fill=\"#0000ff\" fill-rule=\"nonzero\"/>\n</svg>\n"
    );
    assert_eq!(trace_rgba(&px, 2, 2, &cfg), expected);
}

#[test]
fn trace_draws_holes_as_subpaths() {
    // A ring of one colour round a hole that is transparent.
    let ring = [1, 2, 3, 255];
    let mut px = vec![];
    for i in 0..9 {
        px.extend_from_slice(if i == 4 { &[0, 0, 0, 0] } else { &ring });
    }
    let cfg =
        TraceConfig { min_area: 0, simplify: F64(0.0), background: false, ..Default::default() };
    let svg = trace_rgba(&px, 3, 3, &cfg);
    assert!(svg.contains("d=\"M0 0L3 0L3 3L0 3ZM2 1L1 1L1 2L2 2Z\" fill=\"#010203\""), "{svg}");
}

#[test]
fn trace_merges_speckles() {
    let mut px = vec![];
    for i in 0..16 {
        px.extend_from_slice(if i == 5 { &[0, 0, 255, 255] } else { &[255, 0, 0, 255] });
    }
    let svg = trace_rgba(&px, 4, 4, &TraceConfig::<F64>::default());
    assert!(!svg.contains("<path"));
    assert!(svg.contains("<rect width=\"4\" height=\"4\" fill=\"#ff0000\"/>"));
    // Kept apart, and kept exact: at the default tolerance a single pixel collapses.
    let fine = TraceConfig { min_area: 1, simplify: F64(0.0), ..Default::default() };
    assert!(trace_rgba(&px, 4, 4, &fine).contains("<path d=\"M1 1L2 1L2 2L1 2Z\" fill=\"#0000ff\""));
}

#[test]
fn trace_of_a_short_buffer_is_empty() {
    let cfg = TraceConfig::<F64>::default();
    let svg = trace_rgba(&[1, 2, 3, 255], 2, 1, &cfg);
    assert!(!svg.contains("<path") && !svg.contains("<rect"));
    assert!(svg.ends_with("viewBox=\"0 0 2 1\">\n</svg>\n"));
    // A size whose product does not fit.
    assert!(trace_rgba(&[], usize::MAX, 2, &cfg).ends_with("</svg>\n"));
}

#[test]
fn default_tracer_settings() {
    let cfg = TraceConfig::<F64>::default();
    assert_eq!((cfg.alpha_threshold, cfg.min_area, cfg.background), (0, 4, true));
    assert_eq!(cfg.simplify, F64(1.2));
}

#[test]
fn loops_of_a_comb_enclose_it() {
    // Tines stick up from a baseline: one component with many corners.
    let (teeth, height) = (40, 30);
    let (w, h) = (2 * teeth + 1, height + 1);
    let mut idx = vec![2u32; w * h];
    for x in 0..w {
        idx[height * w + x] = 1;
    }
    for t in 0..teeth {
        for y in 0..height {
            idx[y * w + 2 * t] = 1;
        }
    }
    let seg = segment(&idx, w, h);
    let boxes = seg.bboxes();
    for c in 0..seg.num_components {
        let loops = contours_of(&seg.labels, w, h, c as u32, boxes[c]);
        let area: i64 = loops.iter().map(|l| signed_area(l)).sum();
        assert_eq!(area, 2 * seg.component_area[c] as i64);
        for l in &loops {
            assert!(!simplify_closed(l, F64(1.2)).is_empty());
        }
    }
}

#[test]
fn tracing_is_repeatable() {
    let px = noise(20 * 20, 7);
    let cfg = TraceConfig::<F64>::default();
    let first = trace_rgba(&px, 20, 20, &cfg);
    assert!(first.starts_with("<?xml") && first.ends_with("</svg>\n"));
    assert_eq!(trace_rgba(&px, 20, 20, &cfg), first);
}

#[test]
fn quantizing_shows_no_more_colors_than_there_were() {
    for num_colors in [0, 1, 3, 40] {
        let cfg = QuantizeConfig { num_colors, alpha_threshold: 20, ..Default::default() };
        let px = noise(60, 11);
        let out = quantize_rgba::<F64>(px.clone(), &cfg);
        let (before, after) = (distinct_colors(&px, 20), distinct_colors(&out, 20));
        assert!(after >= 1 && after <= before && after <= num_colors.max(1));
    }
}

#[test]
fn transparent_pixels_have_no_influence() {
    let cfg = QuantizeConfig { num_colors: 4, alpha_threshold: 128, ..Default::default() };
    let px = noise(200, 5);
    let opaque = |v: &[u8]| -> Vec<u8> {
        v.chunks_exact(4).filter(|p| p[3] > 128).flatten().copied().collect()
    };
    let whole = quantize_rgba::<F64>(px.clone(), &cfg);
    assert!(opaque(&px).len() < px.len());
    assert_eq!(opaque(&whole), quantize_rgba::<F64>(opaque(&px), &cfg));
}

#[test]
fn simplifying_again_changes_nothing_and_more_tolerance_keeps_less() {
    let mut loop_pts: Vec<Pt> = Vec::new();
    for i in 0..60i32 {
        loop_pts.push((i, (i * 37 % 11) + 20));
    }
    loop_pts.push((60, 90));
    loop_pts.push((0, 90));
    let mut before = loop_pts.clone();
    for tenths in [-5, 0, 3, 10, 15, 30, 60, 200] {
        let epsilon = F64(tenths as f64 / 10.0);
        let kept = simplify_closed(&loop_pts, epsilon);
        assert_eq!(simplify_closed(&kept, epsilon), kept);
        // A subsequence of what the smaller tolerance kept.
        let mut rest = before.iter();
        assert!(kept.iter().all(|p| rest.any(|q| q == p)));
        before = kept;
    }
    assert!(before.len() < loop_pts.len());
}
