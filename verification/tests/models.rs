use svgit::bgremove::{
    apply_matte, cut_of, matte_from_output, remove_background, BgConfig, BgError, Model,
};
use svgit::denoise::{crop_rgb_from_chw, denoise, padded_dims, reflect, DenoiseError};
use svgit::detect::{iou, nms, Det};
use svgit::number::Number;
use svgit::objseg::{
    input_side, letterbox, segment_everything, Instance, SegConfig, SegError, DEFAULT_SIDE, PAD,
};
use svgit::outputs::{read_layout, Layout, LayoutError};
use svgit::raster::{pixel_count, RasterError};
use svgit::resample::fits;
use svgit::superres::{rgb_u8_from_chw, super_resolve, upscale_alpha, SrError, SrImage};
use svgit::{bgremove, denoise as denoising, superres};

/// Single-precision floating point.
#[derive(Debug, Clone, Copy, PartialEq)]
struct F32(f32);

impl Number for F32 {
    fn from_index(n: usize) -> Self {
        F32(n as f32)
    }

    fn ratio(n: u32, d: u32) -> Self {
        F32(n as f32 / d as f32)
    }

    fn plus(self, b: Self) -> Self {
        F32(self.0 + b.0)
    }

    fn minus(self, b: Self) -> Self {
        F32(self.0 - b.0)
    }

    fn times(self, b: Self) -> Self {
        F32(self.0 * b.0)
    }

    fn over(self, b: Self) -> Self {
        F32(self.0 / b.0)
    }

    fn lesser(self, b: Self) -> Self {
        F32(self.0.min(b.0))
    }

    fn greater(self, b: Self) -> Self {
        F32(self.0.max(b.0))
    }

    fn exp_neg(self) -> Self {
        F32((-self.0).exp())
    }

    fn pow(self, b: Self) -> Self {
        F32(self.0.powf(b.0))
    }

    fn cbrt(self) -> Self {
        F32(self.0.cbrt())
    }

    fn is_below(self, b: Self) -> bool {
        self.0 < b.0
    }

    fn is_at_least(self, b: Self) -> bool {
        self.0 >= b.0
    }

    fn rank(self) -> u32 {
        // Zero has two bit patterns; negative numbers are ordered the other way round.
        let bits = (self.0 + 0.0).to_bits();
        if bits >> 31 == 1 {
            !bits
        } else {
            bits | 0x8000_0000
        }
    }

    fn floor_index(self) -> usize {
        self.0.floor().max(0.0) as usize
    }

    fn ceil_int(self) -> i64 {
        self.0.ceil() as i64
    }

    fn round_index(self) -> usize {
        self.0.round() as usize
    }

    fn trunc_index(self) -> usize {
        self.0 as usize
    }

    fn trunc_count(self) -> u32 {
        self.0 as u32
    }

    fn unit_byte(self) -> u8 {
        (self.0.clamp(0.0, 1.0) * 255.0).round() as u8
    }

    fn round_byte(self) -> u8 {
        self.0.round().clamp(0.0, 255.0) as u8
    }
}

/// A model's reply: the shape and the numbers of one output.
type Reply = (Vec<i64>, Vec<F32>);

fn numbers(values: &[f32]) -> Vec<F32> {
    values.iter().map(|&v| F32(v)).collect()
}

fn unreachable_model(_: Vec<F32>) -> Result<Reply, String> {
    panic!("the model must not be run")
}

// --- raster buffers ---

#[test]
fn buffers_are_checked_before_use() {
    assert_eq!(pixel_count(8, 2, 1), Ok(2));
    assert_eq!(pixel_count(9, 2, 1), Ok(2));
    assert_eq!(pixel_count(7, 2, 1), Err(RasterError::Truncated));
    assert_eq!(pixel_count(100, 0, 5), Err(RasterError::Truncated));
    assert_eq!(pixel_count(0, usize::MAX, 2), Err(RasterError::Overflow));
    assert_eq!(pixel_count(0, usize::MAX / 3, 1), Err(RasterError::Overflow));
}

// --- background removal ---

#[test]
fn input_tensor_is_normalized_nchw() {
    // A solid mid-gray u2netp-sized image.
    let side = Model::U2netp.side();
    let rgb = vec![128u8; side * side * 3];
    let t: Vec<F32> = bgremove::to_input_tensor(&rgb, Model::U2netp);
    assert_eq!(t.len(), 3 * side * side);
    // max == 128, so v == 1.0 everywhere; channel 0 == (1-0.485)/0.229.
    let mean = |c| -> f32 { Model::U2netp.mean::<F32>(c).0 };
    let std = |c| -> f32 { Model::U2netp.deviation::<F32>(c).0 };
    let expect_r = (1.0 - mean(0)) / std(0);
    assert!((t[0].0 - expect_r).abs() < 1e-5, "got {}", t[0].0);
    // Plane boundary: first G-plane element uses the green mean/std.
    let expect_g = (1.0 - mean(1)) / std(1);
    assert!((t[side * side].0 - expect_g).abs() < 1e-5);
}

#[test]
fn normalization_constants_are_those_of_the_models() {
    for (c, &(mean, std)) in [(0.485, 0.229), (0.456, 0.224), (0.406, 0.225)].iter().enumerate() {
        assert_eq!(Model::U2netp.mean::<F32>(c), F32(mean));
        assert_eq!(Model::U2netp.deviation::<F32>(c), F32(std));
        assert_eq!(Model::Isnet.mean::<F32>(c), F32(0.5));
        assert_eq!(Model::Isnet.deviation::<F32>(c), F32(1.0));
    }
}

#[test]
fn isnet_tensor_uses_pm_half_normalization() {
    // ISNet: (v - 0.5) / 1.0. A white (max) pixel → 0.5.
    let side = Model::Isnet.side();
    let rgb = vec![255u8; side * side * 3];
    let t: Vec<F32> = bgremove::to_input_tensor(&rgb, Model::Isnet);
    assert_eq!(t.len(), 3 * side * side);
    assert!((t[0].0 - 0.5).abs() < 1e-5, "got {}", t[0].0);
}

#[test]
fn input_tensor_handles_all_black() {
    // max clamps to 1 (not 0) — no NaN/inf.
    let side = Model::U2netp.side();
    let rgb = vec![0u8; side * side * 3];
    let t: Vec<F32> = bgremove::to_input_tensor(&rgb, Model::U2netp);
    assert!(t.iter().all(|v| v.0.is_finite()));
}

#[test]
fn matte_min_max_stretches_to_full_range() {
    let raw = numbers(&[0.1f32, 0.2, 0.3, 0.5, 0.9]);
    let m = matte_from_output(&raw);
    assert_eq!(*m.first().unwrap(), 0); // the min maps to 0
    assert_eq!(*m.last().unwrap(), 255); // the max maps to 255
    assert_eq!(m, vec![0, 32, 64, 128, 255]);
}

#[test]
fn matte_flat_input_does_not_divide_by_zero() {
    // min == max → the 1e-6 floor keeps it finite; everything maps to 0.
    let raw = [F32(0.42f32); 16];
    let m = matte_from_output(&raw);
    assert!(m.iter().all(|&v| v == 0));
}

#[test]
fn matte_passes_over_numbers_that_do_not_compare() {
    let m = matte_from_output(&numbers(&[f32::NAN, 1.0, 3.0, 2.0]));
    assert_eq!(m, vec![0, 0, 255, 128]);
    assert!(matte_from_output::<F32>(&[]).is_empty());
}

#[test]
fn model_parse_defaults_to_fast() {
    assert_eq!(Model::parse("isnet"), Model::Isnet);
    assert_eq!(Model::parse("high"), Model::Isnet);
    assert_eq!(Model::parse("u2netp"), Model::U2netp);
    assert_eq!(Model::parse("nonsense"), Model::U2netp);
}

#[test]
fn models_have_their_files_and_sides() {
    assert_eq!((Model::U2netp.filename(), Model::U2netp.side()), ("u2netp.onnx", 320));
    assert_eq!((Model::Isnet.filename(), Model::Isnet.side()), ("isnet-general-use.onnx", 1024));
}

#[test]
fn remove_background_rejects_overflowing_dims() {
    // Dimensions whose product (or product*4) overflows usize must error out
    // cleanly, before any allocation or model access — never panic.
    let cfg = BgConfig::<F32>::default();
    assert!(remove_background(&[], usize::MAX, 2, Model::U2netp, &cfg, unreachable_model).is_err());
    assert!(
        remove_background(&[], usize::MAX / 3, 1, Model::U2netp, &cfg, unreachable_model).is_err()
    );
    let out = remove_background(&[0; 7], 2, 1, Model::U2netp, &cfg, unreachable_model);
    assert!(matches!(out, Err(BgError::Raster(RasterError::Truncated))));
}

#[test]
fn matte_is_cut_off_and_multiplied_into_alpha() {
    let rgba = [1, 2, 3, 255, 4, 5, 6, 255, 7, 8, 9, 100, 0, 0, 0, 77];
    // Cut: at or above becomes opaque, below transparent; the last pixel has no matte.
    assert_eq!(
        apply_matte(&rgba, &[128, 127, 200], 128),
        [1, 2, 3, 255, 4, 5, 6, 0, 7, 8, 9, 100, 0, 0, 0, 77]
    );
    // Soft: every level passes through.
    assert_eq!(
        apply_matte(&rgba, &[128, 0, 51], 0),
        [1, 2, 3, 128, 4, 5, 6, 0, 7, 8, 9, 20, 0, 0, 0, 77]
    );
    for (before, after) in rgba.iter().zip(apply_matte(&rgba, &[10, 250, 130], 0)) {
        assert!(after <= *before);
    }
}

#[test]
fn only_a_threshold_of_zero_keeps_the_soft_matte() {
    assert_eq!(cut_of(F32(0.0)), 0);
    assert_eq!(cut_of(F32(-1.0)), 0);
    assert_eq!(cut_of(F32(0.0001)), 1);
    assert_eq!(cut_of(F32(0.5)), 128);
    assert_eq!(cut_of(F32(1.0)), 255);
    assert_eq!(cut_of(F32(7.0)), 255);
}

#[test]
fn a_tiny_threshold_cuts_clean() {
    let side = Model::U2netp.side();
    let rgba = full_size(|x, _| [9, 9, 9, if x % 2 == 0 { 255 } else { 40 }]);
    let run = |threshold: f32| {
        let cfg = BgConfig { threshold: F32(threshold) };
        remove_background(&rgba, side, side, Model::U2netp, &cfg, |_| {
            let data = (0..side * side).map(|i| F32((i % side) as f32)).collect();
            Ok::<Reply, String>((vec![1, 1, 320, 320], data))
        })
        .unwrap()
    };
    let cut = run(0.001);
    for p in 0..side * side {
        let alpha = cut[4 * p + 3];
        assert!(alpha == rgba[4 * p + 3] || alpha == 0);
    }
    assert!(run(0.0).chunks(4).any(|p| p[3] != 0 && p[3] != 40 && p[3] != 255));
}

/// An image of the model's own size: neither resampling changes anything.
fn full_size(f: impl Fn(usize, usize) -> [u8; 4]) -> Vec<u8> {
    let side = Model::U2netp.side();
    let mut v = Vec::new();
    for y in 0..side {
        for x in 0..side {
            v.extend_from_slice(&f(x, y));
        }
    }
    v
}

#[test]
fn background_goes_where_the_model_says() {
    let side = Model::U2netp.side();
    let rgba = full_size(|x, y| [x as u8, y as u8, 200, if x < 10 { 50 } else { 255 }]);
    let cfg = BgConfig { threshold: F32(0.5) };
    let out = remove_background(&rgba, side, side, Model::U2netp, &cfg, |input| {
        // What is handed over is the image itself: green of pixel (3, 7).
        assert_eq!(input.len(), 3 * side * side);
        let v = (7.0 / 255.0 - 0.456) / 0.224;
        assert_eq!(input[side * side + 7 * side + 3], F32(v));
        // Salient on the left half, with more numbers than needed behind.
        let mut data: Vec<F32> =
            (0..side * side).map(|i| F32(if i % side < 160 { 0.9 } else { 0.1 })).collect();
        data.push(F32(5.0));
        Ok::<Reply, String>((vec![1, 1, 320, 320], data))
    })
    .unwrap();
    for y in 0..side {
        for x in 0..side {
            let i = 4 * (y * side + x);
            assert_eq!(out[i..i + 3], rgba[i..i + 3]);
            assert_eq!(out[i + 3], if x < 160 { rgba[i + 3] } else { 0 });
        }
    }
}

#[test]
fn removing_a_background_resamples_both_ways() {
    // A small flat image: its flat resampled version is the same colour all over.
    let rgba: Vec<u8> = (0..6 * 4).map(|i| if i % 4 == 3 { 255 } else { 90 }).collect();
    let side = Model::U2netp.side();
    let cfg = BgConfig { threshold: F32(0.0) };
    let out = remove_background(&rgba, 3, 2, Model::U2netp, &cfg, |input| {
        assert_eq!(input.len(), 3 * side * side);
        assert!(input.iter().all(|v| v.0.is_finite()));
        let flat = (1.0 - 0.485) / 0.229;
        assert!((input[0].0 - flat).abs() < 0.05 && (input[side * side - 1].0 - flat).abs() < 0.05);
        // Left to right from background to foreground.
        let data = (0..side * side).map(|i| F32((i % side) as f32)).collect();
        Ok::<Reply, String>((vec![1, 1, 320, 320], data))
    })
    .unwrap();
    assert_eq!(out.len(), rgba.len());
    let alpha: Vec<u8> = out.chunks(4).map(|p| p[3]).collect();
    assert!(alpha[0] < alpha[1] && alpha[1] < alpha[2], "{alpha:?}");
    assert!((alpha[1] as i32 - 127).abs() < 5);
}

#[test]
fn background_errors_are_passed_on() {
    let rgba = full_size(|_, _| [0, 0, 0, 255]);
    let side = Model::U2netp.side();
    let cfg = BgConfig::<F32>::default();
    assert_eq!(cfg.threshold, F32(0.5));
    let out = remove_background(&rgba, side, side, Model::U2netp, &cfg, |_| {
        Err::<Reply, &str>("no such model")
    });
    assert!(matches!(out, Err(BgError::Model("no such model"))));
    let out = remove_background(&rgba, side, side, Model::U2netp, &cfg, |_| {
        Ok::<Reply, String>((vec![1, 5], vec![F32(0.0); 5]))
    });
    assert!(matches!(out, Err(BgError::Shape(s)) if s == vec![1, 5]));
}

// --- denoising ---

#[test]
fn padded_dims_round_up_to_multiple() {
    assert_eq!(padded_dims(64, 64), (64, 64));
    assert_eq!(padded_dims(65, 1), (128, 64));
    assert_eq!(padded_dims(100, 70), (128, 128));
    assert_eq!(padded_dims(1, 1), (64, 64));
}

#[test]
fn reflect_is_in_range_and_mirrors() {
    // Within range: identity.
    assert_eq!(reflect(0, 10), 0);
    assert_eq!(reflect(9, 10), 9);
    // Just past the edge mirrors back (reflect-101: n-2, not n-1).
    assert_eq!(reflect(10, 10), 8);
    assert_eq!(reflect(11, 10), 7);
    // Degenerate width.
    assert_eq!(reflect(5, 1), 0);
    // Large pad relative to width stays in range (triangle wave).
    for i in 0..500 {
        assert!(reflect(i, 7) < 7);
    }
}

#[test]
fn input_tensor_is_padded_scaled_nchw() {
    // 2×1 image, white then black; pad to 64×64.
    let rgba = [255u8, 255, 255, 255, 0, 0, 0, 255];
    let (pw, ph) = padded_dims(2, 1);
    let t: Vec<F32> = denoising::to_input_tensor(&rgba, 2, 1, pw, ph);
    assert_eq!(t.len(), 3 * pw * ph);
    // (0,0) is the white source pixel → 1.0 in each channel plane.
    let phw = pw * ph;
    for c in 0..3 {
        assert!((t[c * phw].0 - 1.0).abs() < 1e-6, "ch{c} at origin");
        // (0,1) is the black source pixel → 0.0.
        assert!(t[c * phw + 1].0.abs() < 1e-6, "ch{c} at x=1");
    }
}

#[test]
fn crop_extracts_top_left_and_clamps() {
    // Padded plane 64×64, 3 channels; fill with a ramp we can check, plus an
    // out-of-range value that must clamp.
    let (pw, ph) = (64usize, 64usize);
    let phw = pw * ph;
    let mut odata = vec![F32(0.0); 3 * phw];
    odata[0] = F32(0.0); // R at (0,0)
    odata[phw] = F32(1.0); // G at (0,0)
    odata[2 * phw] = F32(1.5); // B at (0,0) → clamp to 255
    let rgb = crop_rgb_from_chw(&odata, pw, ph, 1, 1);
    assert_eq!(rgb, vec![0, 255, 255]);
}

#[test]
fn lib_oversized_input_passes_through_unchanged() {
    // Above the pixel cap: returns an identical copy, never touching the
    // model.
    let side = 1300; // 1300² > MAX_INPUT_PIXELS
    let rgba = vec![9u8; side * side * 4];
    let out = denoise(&rgba, side, side, |input: Vec<F32>, _, _| unreachable_model(input)).unwrap();
    assert_eq!(out, rgba);
}

#[test]
fn denoise_rejects_overflowing_dims() {
    let model = |input: Vec<F32>, _: usize, _: usize| unreachable_model(input);
    assert!(denoise(&[], usize::MAX, 2, model).is_err());
    assert!(denoise(&[], usize::MAX / 3, 1, model).is_err());
    assert!(matches!(
        denoise(&[0; 3], 1, 1, model),
        Err(DenoiseError::Raster(RasterError::Truncated))
    ));
}

fn ramp(w: usize, h: usize) -> Vec<u8> {
    (0..w * h * 4).map(|i| (i * 7 % 251) as u8).collect()
}

#[test]
fn denoising_with_a_model_that_changes_nothing() {
    let (w, h) = (70, 3);
    let rgba = ramp(w, h);
    let out = denoise(&rgba, w, h, |input: Vec<F32>, pw, ph| {
        assert_eq!((pw, ph), (128, 64));
        // Padding is reflected without repeating the edge.
        let at = |x: usize, y: usize| input[y * pw + x];
        assert_eq!(at(70, 0), at(68, 0));
        assert_eq!(at(5, 3), at(5, 1));
        assert_eq!(at(5, 4), at(5, 0));
        Ok::<Reply, String>((vec![1, 3, ph as i64, pw as i64], input))
    })
    .unwrap();
    assert_eq!(out, rgba);
}

#[test]
fn denoising_replaces_colors_and_keeps_alpha() {
    let mut rgba = ramp(2, 2);
    rgba.push(42);
    let out = denoise(&rgba, 2, 2, |_: Vec<F32>, _, _| {
        // A 3×2 output: one column more than needed.
        Ok::<Reply, String>((vec![1, 3, 2, 3], (0..18).map(|i| F32(i as f32 / 51.0)).collect()))
    })
    .unwrap();
    let mut expected = rgba.clone();
    for (p, plane) in [0, 1, 3, 4].iter().enumerate() {
        for c in 0..3 {
            expected[4 * p + c] = (5 * (plane + 6 * c)) as u8;
        }
    }
    assert_eq!(out, expected);
}

#[test]
fn denoising_rejects_outputs_that_do_not_fit() {
    let rgba = ramp(2, 3);
    let run = |shape: Vec<i64>, n: usize| {
        denoise(&rgba, 2, 3, |_: Vec<F32>, _, _| Ok::<Reply, String>((shape, vec![F32(0.5); n])))
    };
    assert!(matches!(run(vec![1, 3, 3], 18), Err(DenoiseError::Shape(s)) if s == vec![1, 3, 3]));
    assert!(matches!(run(vec![1, 4, 3, 2], 24), Err(DenoiseError::Shape(_))));
    assert!(matches!(run(vec![1, 3, 2, 2], 12), Err(DenoiseError::Shape(_))));
    assert!(matches!(run(vec![1, 3, 3, 1], 12), Err(DenoiseError::Shape(_))));
    assert!(matches!(run(vec![1, 3, 3, 2], 17), Err(DenoiseError::Truncated(_))));
    assert!(matches!(run(vec![1, 3, -1, 2], 17), Err(DenoiseError::Truncated(_))));
    assert!(matches!(
        run(vec![1, 3, i64::MAX, i64::MAX], 17),
        Err(DenoiseError::Truncated(s)) if s == vec![1, 3, i64::MAX, i64::MAX]
    ));
    assert!(run(vec![1, 3, 3, 2], 18).is_ok());
    let err = denoise(&rgba, 2, 3, |_: Vec<F32>, _, _| Err::<Reply, u8>(7));
    assert!(matches!(err, Err(DenoiseError::Model(7))));
}

// --- super-resolution ---

#[test]
fn input_tensor_is_plain_scaled_nchw() {
    // 2×1 image: white then black pixel.
    let rgba = [255u8, 255, 255, 255, 0, 0, 0, 255];
    let t: Vec<F32> = superres::to_input_tensor(&rgba, 2, 1);
    assert_eq!(t.len(), 3 * 2);
    // White pixel (p=0) → 1.0 in every channel plane; black (p=1) → 0.0.
    let hw = 2;
    for c in 0..3 {
        assert!((t[c * hw].0 - 1.0).abs() < 1e-6, "white ch{c}");
        assert!(t[c * hw + 1].0.abs() < 1e-6, "black ch{c}");
    }
}

#[test]
fn rgb_from_chw_clamps_and_scales() {
    // 1 pixel, channels: 0.0, 1.0, and an out-of-range 1.5 (must clamp).
    let odata = numbers(&[0.0f32, 1.0, 1.5]);
    let rgb = rgb_u8_from_chw(&odata, 1);
    assert_eq!(rgb, vec![0, 255, 255]);
}

#[test]
fn alpha_upscale_preserves_opaque() {
    // A fully-opaque 2×2 stays opaque at 8×8.
    let rgba = vec![10u8; 2 * 2 * 4]; // alpha == 10 everywhere... make it 255
    let mut rgba = rgba;
    for p in 0..4 {
        rgba[p * 4 + 3] = 255;
    }
    let a = upscale_alpha(&rgba, 2, 2, 8, 8);
    assert_eq!(a.len(), 64);
    assert!(a.iter().all(|&v| v == 255));
}

#[test]
fn even_alpha_stays_even_when_enlarged() {
    for v in 0..=255u8 {
        for (w, h, ow, oh) in [(1, 1, 4, 4), (2, 3, 8, 12), (7, 5, 7, 20), (5, 7, 61, 29)] {
            let rgba: Vec<u8> = (0..w * h).flat_map(|p| [p as u8, 1, 2, v]).collect();
            let a = upscale_alpha(&rgba, w, h, ow, oh);
            assert_eq!(a, vec![v; ow * oh]);
        }
    }
}

#[test]
fn alpha_upscale_interpolates_and_copies() {
    let rgba = [0, 0, 0, 0, 0, 0, 0, 255];
    let a = upscale_alpha(&rgba, 2, 1, 4, 1);
    assert_eq!(a.len(), 4);
    assert!(a[0] < a[1] && a[1] < a[2] && a[2] < a[3] || a[0] == 0 && a[3] == 255, "{a:?}");
    assert!(a[1] < 128 && a[2] > 127);
    assert_eq!(upscale_alpha(&rgba, 2, 1, 2, 1), vec![0, 255]);
}

#[test]
fn oversized_input_passes_through_unchanged() {
    // Above the pixel cap: returns a copy with identical dims, never touching
    // the model.
    let side = 1025; // 1025² > MAX_INPUT_PIXELS
    let rgba = vec![7u8; side * side * 4];
    let out = super_resolve(&rgba, side, side, unreachable_model).unwrap();
    assert_eq!((out.width, out.height), (side, side));
    assert_eq!(out.rgba, rgba);
}

#[test]
fn super_resolve_rejects_overflowing_dims() {
    // Product (or product*4) overflow must error cleanly, never panic.
    assert!(super_resolve(&[], usize::MAX, 2, unreachable_model).is_err());
    assert!(super_resolve(&[], usize::MAX / 3, 1, unreachable_model).is_err());
    assert!(matches!(
        super_resolve(&[], 0, 1, unreachable_model),
        Err(SrError::Raster(RasterError::Truncated))
    ));
}

#[test]
fn upscaling_takes_colors_from_the_model_and_alpha_from_the_image() {
    let rgba = [10, 20, 30, 255, 40, 50, 60, 255];
    let SrImage { rgba: out, width, height } = super_resolve(&rgba, 2, 1, |input: Vec<F32>| {
        let bytes: Vec<u8> = input.iter().map(|v| (v.0 * 255.0).round() as u8).collect();
        assert_eq!(bytes, vec![10, 40, 20, 50, 30, 60]);
        // Each pixel doubled in both directions.
        let mut data = Vec::new();
        for c in 0..3 {
            for _ in 0..2 {
                for x in 0..4 {
                    data.push(input[c * 2 + x / 2]);
                }
            }
        }
        Ok::<Reply, String>((vec![1, 3, 2, 4], data))
    })
    .unwrap();
    assert_eq!((width, height), (4, 2));
    let row = [10, 20, 30, 255, 10, 20, 30, 255, 40, 50, 60, 255, 40, 50, 60, 255];
    assert_eq!(out, [row, row].concat());
}

#[test]
fn upscaling_rejects_outputs_that_do_not_fit() {
    let rgba = [0u8; 8];
    let run = |shape: Vec<i64>, n: usize| {
        super_resolve(&rgba, 2, 1, |_| Ok::<Reply, String>((shape, vec![F32(0.5); n])))
    };
    assert!(matches!(run(vec![1, 3, 4], 12), Err(SrError::Shape(s)) if s == vec![1, 3, 4]));
    assert!(matches!(run(vec![1, 1, 4, 4], 48), Err(SrError::Shape(_))));
    assert!(matches!(run(vec![1, 3, 0, 4], 48), Err(SrError::Truncated(_))));
    assert!(matches!(run(vec![1, 3, 4, 4], 47), Err(SrError::Truncated(s)) if s[2] == 4));
    assert!(matches!(run(vec![1, 3, -4, 4], 48), Err(SrError::Overflow)));
    assert!(matches!(run(vec![1, 3, i64::MAX, i64::MAX], 48), Err(SrError::Overflow)));
    assert!(run(vec![1, 3, 4, 4], 48).is_ok());
    let err = super_resolve(&rgba, 2, 1, |_: Vec<F32>| Err::<Reply, u8>(7));
    assert!(matches!(err, Err(SrError::Model(7))));
}

// --- detections ---

fn det(x1: f32, y1: f32, x2: f32, y2: f32, score: f32) -> Det<F32> {
    Det { x1: F32(x1), y1: F32(y1), x2: F32(x2), y2: F32(y2), score: F32(score), coeffs: vec![] }
}

#[test]
fn iou_identical_is_one() {
    assert!((iou(&det(0., 0., 10., 10., 1.), &det(0., 0., 10., 10., 1.)).0 - 1.0).abs() < 1e-6);
}

#[test]
fn iou_disjoint_is_zero() {
    assert_eq!(iou(&det(0., 0., 10., 10., 1.), &det(20., 20., 30., 30., 1.)).0, 0.0);
}

#[test]
fn iou_half_overlap() {
    // Two 10x10 boxes overlapping in a 5x10 strip: inter=50, union=150.
    let v = iou(&det(0., 0., 10., 10., 1.), &det(5., 0., 15., 10., 1.)).0;
    assert!((v - (50.0 / 150.0)).abs() < 1e-6);
}

#[test]
fn iou_of_empty_boxes_is_zero() {
    assert_eq!(iou(&det(5., 5., 5., 5., 1.), &det(5., 5., 5., 5., 1.)), F32(0.0));
}

#[test]
fn nms_suppresses_overlap_keeps_best() {
    let dets = vec![
        det(0., 0., 10., 10., 0.9),
        det(1., 1., 11., 11., 0.8), // heavy overlap with #0 -> suppressed
        det(50., 50., 60., 60., 0.7), // disjoint -> kept
    ];
    let keep = nms(&dets, F32(0.5), 10);
    assert_eq!(keep, vec![0, 2]);
}

#[test]
fn nms_respects_max() {
    let dets = vec![
        det(0., 0., 10., 10., 0.9),
        det(50., 50., 60., 60., 0.8),
        det(100., 100., 110., 110., 0.7),
    ];
    assert_eq!(nms(&dets, F32(0.5), 2).len(), 2);
}

#[test]
fn nms_goes_by_score_and_keeps_the_first_of_equals() {
    let dets = vec![
        det(0., 0., 10., 10., 0.5),
        det(100., 0., 110., 10., 0.5),
        det(1., 0., 11., 10., 0.9), // suppresses #0
        det(100., 1., 110., 11., 0.5), // suppressed by #1, which comes first
        det(200., 0., 210., 10., -0.25),
    ];
    assert_eq!(nms(&dets, F32(0.5), 10), vec![2, 1, 4]);
    // The cap is a hard one.
    assert_eq!(nms(&dets, F32(0.5), 1), vec![2]);
    assert!(nms(&dets, F32(0.5), 0).is_empty());
    // What only a suppressed detection would suppress is kept.
    let chain =
        vec![det(0., 0., 10., 10., 0.9), det(4., 0., 14., 10., 0.8), det(8., 0., 18., 10., 0.7)];
    assert_eq!(nms(&chain, F32(0.4), 10), vec![0, 2]);
    assert!(nms::<F32>(&[], F32(0.5), 3).is_empty());
}

// --- segmentation ---

#[test]
fn letterbox_centers_and_normalizes() {
    // 2x1 image (wide) into side=4: scale=2, nw=4, nh=2, pad top/bottom=1.
    let rgba = vec![255, 0, 0, 255, 0, 0, 255, 255];
    let (t, place) = letterbox::<F32>(&rgba, 2, 1, 4);
    assert_eq!(t.len(), 3 * 16);
    assert!((place.scale.0 - 2.0).abs() < 1e-6);
    assert_eq!((place.padx, place.pady), (0, 1));
    // Top row is padding (gray).
    assert!((t[0].0 - PAD as f32 / 255.0).abs() < 1e-6);
    // Row 1 (padded region) has real content in the R plane.
    assert!(t[4].0 > 0.5);
}

#[test]
fn letterbox_at_full_size_is_the_image() {
    let rgba = ramp(5, 5);
    let (t, place) = letterbox::<F32>(&rgba, 5, 5, 5);
    assert_eq!((place.nw, place.nh, place.padx, place.pady), (5, 5, 0, 0));
    for p in 0..25 {
        for c in 0..3 {
            assert_eq!(t[c * 25 + p], F32(rgba[4 * p + c] as f32 / 255.0));
        }
    }
}

#[test]
fn input_side_is_the_declared_one_or_the_default() {
    assert_eq!(input_side(Some(&[1, 3, 640, 640])), 640);
    assert_eq!(input_side(Some(&[1, 3, -1, -1])), DEFAULT_SIDE);
    assert_eq!(input_side(Some(&[])), DEFAULT_SIDE);
    assert_eq!(input_side(None), 1024);
}

#[test]
fn segment_everything_rejects_overflow() {
    let model = |_: Vec<F32>| -> Result<Vec<Reply>, String> { panic!("the model must not be run") };
    assert!(segment_everything(&[], usize::MAX, 2, 1024, &SegConfig::default(), model).is_err());
    let out = segment_everything(&[1], 1, 1, 1024, &SegConfig::default(), model);
    assert!(matches!(out, Err(SegError::Raster(RasterError::Truncated))));
}

#[test]
fn default_segmentation_settings() {
    let cfg = SegConfig::<F32>::default();
    assert_eq!((cfg.conf, cfg.iou, cfg.max_objects), (F32(0.4), F32(0.7), 48));
    assert_eq!((cfg.mask_threshold, cfg.min_area_frac), (F32(0.5), F32(0.0008)));
}

fn output(shape: &[i64], n: usize) -> Reply {
    (shape.to_vec(), vec![F32(0.0); n])
}

#[test]
fn outputs_are_told_apart_by_shape() {
    let all = [
        output(&[1, 2, 2, 2], 8),
        output(&[1, 2, 4, 4], 32),
        output(&[1, 9], 9),
        output(&[1, 6, 4], 24),
        output(&[1, 7, 5], 35),
        output(&[1, 5, 7], 35),
    ];
    let layout = Layout {
        proto: 1,
        proto_c: 2,
        ph: 4,
        pw: 4,
        det: 4,
        anchors: 5,
        channel_major: true,
    };
    assert_eq!(read_layout(&all), Ok(layout));
    let swapped = [output(&[1, 5, 7], 36), output(&[1, 2, 4, 4], 32)];
    assert_eq!(
        read_layout(&swapped),
        Ok(Layout { proto: 1, det: 0, channel_major: false, ..layout })
    );
    // Of equally large prototypes the last counts.
    let equal = [output(&[1, 2, 4, 4], 32), output(&[1, 7, 5], 35), output(&[1, 2, 2, 8], 32)];
    assert_eq!(
        read_layout(&equal),
        Ok(Layout { proto: 2, ph: 2, pw: 8, det: 1, ..layout })
    );
}

#[test]
fn implausible_outputs_are_refused() {
    let read = |all: &[Reply]| read_layout(all);
    let proto = || output(&[1, 2, 4, 4], 32);
    assert_eq!(read(&[]), Err(LayoutError::NoPrototypes));
    assert_eq!(read(&[output(&[1, 7, 5], 35)]), Err(LayoutError::NoPrototypes));
    assert_eq!(read(&[output(&[1, 0, 4, 4], 0)]), Err(LayoutError::Dimension(0)));
    assert_eq!(read(&[output(&[1, 2, -4, 4], 0)]), Err(LayoutError::Dimension(-4)));
    assert_eq!(read(&[output(&[1, 2, 4, 1_000_001], 0)]), Err(LayoutError::Dimension(1_000_001)));
    assert_eq!(read(&[output(&[1, 2, 4, 4], 33)]), Err(LayoutError::Prototype(0)));
    assert_eq!(read(&[proto(), output(&[1, 8, 5], 40)]), Err(LayoutError::NoDetections(7)));
    assert_eq!(read(&[proto(), output(&[1, 7, -5], 35)]), Err(LayoutError::Dimension(-5)));
    assert_eq!(read(&[proto(), output(&[1, 7, 5], 34)]), Err(LayoutError::Detection(1, 7, 5)));
}

/// Two objects on an 8×8 image in a model of side 8 with 4×4 prototypes: one prototype that is
/// set on the left half and one that is set on the right half.
fn two_halves(channel_major: bool) -> Vec<Reply> {
    let mut protos = Vec::new();
    for k in 0..2 {
        for i in 0..16 {
            let left = i % 4 < 2;
            protos.push(F32(if left == (k == 0) { 4.0 } else { -4.0 }));
        }
    }
    // cx, cy, w, h, score, and one coefficient per prototype.
    let dets: [[f32; 7]; 4] = [
        [6.0, 4.0, 4.0, 8.0, 0.8, 0.0, 1.0], // the right half
        [3.0, 2.0, 6.0, 4.0, 0.9, 1.0, 0.0], // the upper left, cropped from a wider box
        [6.0, 4.0, 4.0, 8.0, 0.7, 0.0, 1.0], // the right half again
        [1.0, 1.0, 2.0, 2.0, 0.3, 1.0, 0.0], // not confident enough
    ];
    let mut data = Vec::new();
    if channel_major {
        for c in 0..7 {
            for d in &dets {
                data.push(F32(d[c]));
            }
        }
        vec![(vec![1, 7, 4], data), (vec![1, 2, 4, 4], protos)]
    } else {
        for d in &dets {
            data.extend(numbers(d));
        }
        vec![(vec![1, 2, 4, 4], protos), (vec![1, 4, 7], data)]
    }
}

#[test]
fn objects_become_masks_largest_first() {
    let rgba = ramp(8, 8);
    for &major in &[true, false] {
        let out = segment_everything(&rgba, 8, 8, 8, &SegConfig::default(), |input| {
            assert_eq!(input.len(), 3 * 64);
            assert_eq!(input[64 + 9], F32(rgba[4 * 9 + 1] as f32 / 255.0));
            Ok::<Vec<Reply>, String>(two_halves(major))
        })
        .unwrap();
        assert_eq!(out.len(), 2);
        let Instance { mask, bbox, score, area } = &out[0];
        assert_eq!((*bbox, *score, *area), ((4, 0, 8, 8), F32(0.8), 32));
        for p in 0..64 {
            assert_eq!(mask[p], (p % 8 >= 4) as u8);
        }
        let Instance { mask, bbox, score, area } = &out[1];
        assert_eq!((*bbox, *score, *area), ((0, 0, 6, 4), F32(0.9), 16));
        for p in 0..64 {
            assert_eq!(mask[p], (p % 8 < 4 && p / 8 < 4) as u8);
        }
    }
}

#[test]
fn small_and_surplus_objects_are_dropped() {
    let rgba = ramp(8, 8);
    let run = |cfg: &SegConfig<F32>| {
        segment_everything(&rgba, 8, 8, 8, cfg, |_| Ok::<Vec<Reply>, String>(two_halves(true)))
            .unwrap()
    };
    let large = SegConfig { min_area_frac: F32(0.3), ..Default::default() };
    assert_eq!(run(&large).len(), 1);
    let nothing = SegConfig { max_objects: 0, ..Default::default() };
    assert!(run(&nothing).is_empty());
    let one = SegConfig { max_objects: 1, ..Default::default() };
    assert_eq!(run(&one)[0].score, F32(0.9));
    let none = SegConfig { mask_threshold: F32(0.999), ..Default::default() };
    assert!(run(&none).is_empty());
    let sure = SegConfig { conf: F32(0.95), ..Default::default() };
    assert!(run(&sure).is_empty());
    let lax = SegConfig { iou: F32(1.5), ..Default::default() };
    assert_eq!(run(&lax).len(), 3);
}

#[test]
fn segmentation_errors_are_passed_on() {
    let rgba = ramp(8, 8);
    let out = segment_everything(&rgba, 8, 8, 8, &SegConfig::default(), |_: Vec<F32>| {
        Err::<Vec<Reply>, &str>("no such model")
    });
    assert!(matches!(out, Err(SegError::Model("no such model"))));
    let out = segment_everything(&rgba, 8, 8, 8, &SegConfig::default(), |_: Vec<F32>| {
        Ok::<Vec<Reply>, &str>(vec![])
    });
    assert!(matches!(out, Err(SegError::Layout(LayoutError::NoPrototypes))));
}

#[test]
fn very_wide_images_are_made_smaller() {
    let w = 1_048_577;
    assert!(fits(w, 1, 320, 320) && fits(320, 320, w, 1));
    assert!(!fits(w, 1, w + 1, 1) && !fits(0, 1, 1, 1));
    let rgba: Vec<u8> = (0..w).flat_map(|_| [255, 0, 51, 255]).collect();
    let (t, place) = letterbox::<F32>(&rgba, w, 1, 4);
    assert_eq!((place.nw, place.nh, place.padx, place.pady), (4, 1, 0, 1));
    for x in 0..4 {
        assert_eq!(t[4 + x], F32(1.0));
        assert_eq!(t[16 + 4 + x], F32(0.0));
        assert_eq!(t[32 + 4 + x], F32(51.0 / 255.0));
    }
}
