//! sRGB ↔ CIELAB conversion (D65 white point).
//!
//! The quantizer clusters in LAB so that Euclidean distance approximates
//! perceptual difference — the reason LAB k-means produces noticeably better
//! palettes than clustering in raw RGB.

use vstd::prelude::*;

use crate::number::{
    at_least, below, consistent, cube_root_of, difference_of, greater_of, lesser_of, power_of,
    product_of, quotient_of, ratio_of, round_byte_of, sum_of, whole_of,
};
use crate::number::{
    cbrt, from_index, greater, is_at_least, is_below, lesser, minus, over, plus, pow, ratio,
    round_byte, times, Number,
};

verus! {

/// A colour in LAB: lightness and the two opponent axes.
pub type Lab<R> = [R; 3];

/// An sRGB byte as linear light.
pub open spec fn linear_of<R: Number>(u: u8) -> R {
    let c = quotient_of(whole_of::<R>(u as usize), whole_of::<R>(255));
    if at_least(ratio_of(4045, 100_000), c) {
        quotient_of(c, ratio_of(1292, 100))
    } else {
        power_of(quotient_of(sum_of(c, ratio_of(55, 1000)), ratio_of(1055, 1000)), ratio_of(24, 10))
    }
}

fn srgb_to_linear<R: Number>(u: u8) -> (x: R)
    requires
        consistent::<R>(),
    ensures
        x == linear_of::<R>(u),
{
    let c: R = over(from_index(u as usize), from_index(255));
    if is_at_least(ratio(4045, 100_000), c) {
        over(c, ratio(1292, 100))
    } else {
        pow(over(plus(c, ratio(55, 1000)), ratio(1055, 1000)), ratio(24, 10))
    }
}

/// Linear light as an sRGB byte, clamped to gamut.
pub open spec fn srgb_of<R: Number>(light: R) -> u8 {
    let c = lesser_of(greater_of(light, whole_of::<R>(0)), whole_of::<R>(1));
    let v = if at_least(ratio_of(31_308, 10_000_000), c) {
        product_of(ratio_of(1292, 100), c)
    } else {
        difference_of(
            product_of(
                ratio_of(1055, 1000),
                power_of(c, quotient_of(whole_of::<R>(1), ratio_of(24, 10))),
            ),
            ratio_of(55, 1000),
        )
    };
    round_byte_of(product_of(v, whole_of::<R>(255)))
}

fn linear_to_srgb<R: Number>(light: R) -> (b: u8)
    requires
        consistent::<R>(),
    ensures
        b == srgb_of(light),
{
    let c: R = lesser(greater(light, from_index(0)), from_index(1));
    let v: R = if is_at_least(ratio(31_308, 10_000_000), c) {
        times(ratio(1292, 100), c)
    } else {
        minus(
            times(ratio(1055, 1000), pow(c, over(from_index(1), ratio(24, 10)))),
            ratio(55, 1000),
        )
    };
    round_byte(times(v, from_index(255)))
}

/// The D65 reference white.
pub open spec fn white_x<R: Number>() -> R {
    ratio_of(95_047, 100_000)
}

/// The D65 reference white.
pub open spec fn white_z<R: Number>() -> R {
    ratio_of(108_883, 100_000)
}

/// The knee of the LAB curve.
pub open spec fn knee<R: Number>() -> R {
    ratio_of(6, 29)
}

/// The slope of the LAB curve's linear part, inverted.
pub open spec fn slope<R: Number>() -> R {
    product_of(product_of(whole_of::<R>(3), knee::<R>()), knee::<R>())
}

/// The LAB curve.
pub open spec fn curve_of<R: Number>(t: R) -> R {
    let d = knee::<R>();
    if below(product_of(product_of(d, d), d), t) {
        cube_root_of(t)
    } else {
        sum_of(quotient_of(t, slope()), ratio_of(4, 29))
    }
}

fn lab_f<R: Number>(t: R) -> (y: R)
    requires
        consistent::<R>(),
    ensures
        y == curve_of(t),
{
    let d: R = ratio(6, 29);
    if is_below(times(times(d, d), d), t) {
        cbrt(t)
    } else {
        plus(over(t, times(times(from_index(3), d), d)), ratio(4, 29))
    }
}

/// The LAB curve, inverted.
pub open spec fn uncurve_of<R: Number>(t: R) -> R {
    if below(knee::<R>(), t) {
        product_of(product_of(t, t), t)
    } else {
        product_of(slope(), difference_of(t, ratio_of(4, 29)))
    }
}

fn lab_finv<R: Number>(t: R) -> (y: R)
    requires
        consistent::<R>(),
    ensures
        y == uncurve_of(t),
{
    let d: R = ratio(6, 29);
    if is_below(d, t) {
        times(times(t, t), t)
    } else {
        times(times(times(from_index(3), d), d), minus(t, ratio(4, 29)))
    }
}

/// `a * x + b * y + c * z`, in this order.
pub open spec fn mix<R: Number>(a: R, x: R, b: R, y: R, c: R, z: R) -> R {
    sum_of(sum_of(product_of(a, x), product_of(b, y)), product_of(c, z))
}

fn mixed<R: Number>(a: R, x: R, b: R, y: R, c: R, z: R) -> (v: R)
    requires
        consistent::<R>(),
    ensures
        v == mix(a, x, b, y, c, z),
{
    plus(plus(times(a, x), times(b, y)), times(c, z))
}

/// `a * x - b * y - c * z`, in this order.
pub open spec fn unmix<R: Number>(a: R, x: R, b: R, y: R, c: R, z: R) -> R {
    difference_of(difference_of(product_of(a, x), product_of(b, y)), product_of(c, z))
}

/// The LAB colour of an sRGB triple.
pub open spec fn lab_of<R: Number>(r: u8, g: u8, b: u8) -> Lab<R> {
    let (rl, gl, bl) = (linear_of::<R>(r), linear_of::<R>(g), linear_of::<R>(b));
    let m: u32 = 10_000_000;
    let x = mix(ratio_of(4_124_564, m), rl, ratio_of(3_575_761, m), gl, ratio_of(1_804_375, m), bl);
    let y = mix(ratio_of(2_126_729, m), rl, ratio_of(7_151_522, m), gl, ratio_of(721_750, m), bl);
    let z = mix(ratio_of(193_339, m), rl, ratio_of(1_191_920, m), gl, ratio_of(9_503_041, m), bl);
    let fx = curve_of(quotient_of(x, white_x()));
    let fy = curve_of(quotient_of(y, whole_of::<R>(1)));
    let fz = curve_of(quotient_of(z, white_z()));
    [
        difference_of(product_of(whole_of::<R>(116), fy), whole_of::<R>(16)),
        product_of(whole_of::<R>(500), difference_of(fx, fy)),
        product_of(whole_of::<R>(200), difference_of(fy, fz)),
    ]
}

/// Convert an sRGB triple (0–255) to CIELAB.
pub fn rgb_to_lab<R: Number>(r: u8, g: u8, b: u8) -> (lab: Lab<R>)
    requires
        consistent::<R>(),
    ensures
        lab == lab_of::<R>(r, g, b),
{
    let (rl, gl, bl): (R, R, R) = (srgb_to_linear(r), srgb_to_linear(g), srgb_to_linear(b));
    let m: u32 = 10_000_000;
    let x: R = mixed(ratio(4_124_564, m), rl, ratio(3_575_761, m), gl, ratio(1_804_375, m), bl);
    let y: R = mixed(ratio(2_126_729, m), rl, ratio(7_151_522, m), gl, ratio(721_750, m), bl);
    let z: R = mixed(ratio(193_339, m), rl, ratio(1_191_920, m), gl, ratio(9_503_041, m), bl);
    let fx: R = lab_f(over(x, ratio(95_047, 100_000)));
    let fy: R = lab_f(over(y, from_index(1)));
    let fz: R = lab_f(over(z, ratio(108_883, 100_000)));
    [
        minus(times(from_index(116), fy), from_index(16)),
        times(from_index(500), minus(fx, fy)),
        times(from_index(200), minus(fy, fz)),
    ]
}

/// The sRGB triple of a LAB colour.
pub open spec fn rgb_of<R: Number>(lab: Lab<R>) -> [u8; 3] {
    let fy = quotient_of(sum_of(lab[0], whole_of::<R>(16)), whole_of::<R>(116));
    let fx = sum_of(fy, quotient_of(lab[1], whole_of::<R>(500)));
    let fz = difference_of(fy, quotient_of(lab[2], whole_of::<R>(200)));
    let x = product_of(white_x(), uncurve_of(fx));
    let y = product_of(whole_of::<R>(1), uncurve_of(fy));
    let z = product_of(white_z(), uncurve_of(fz));
    let m: u32 = 10_000_000;
    let rl = unmix(ratio_of(32_404_542, m), x, ratio_of(15_371_385, m), y, ratio_of(4_985_314, m), z);
    let minus_gx = difference_of(whole_of::<R>(0), ratio_of(9_692_660, m));
    let gl = mix(minus_gx, x, ratio_of(18_760_108, m), y, ratio_of(415_560, m), z);
    let bl = sum_of(
        difference_of(
            product_of(ratio_of(556_434, m), x),
            product_of(ratio_of(2_040_259, m), y),
        ),
        product_of(ratio_of(10_572_252, m), z),
    );
    [srgb_of(rl), srgb_of(gl), srgb_of(bl)]
}

/// Convert a CIELAB triple back to an sRGB triple (0–255), clamped to gamut.
pub fn lab_to_rgb<R: Number>(lab: Lab<R>) -> (rgb: [u8; 3])
    requires
        consistent::<R>(),
    ensures
        rgb == rgb_of(lab),
{
    let fy: R = over(plus(lab[0], from_index(16)), from_index(116));
    let fx: R = plus(fy, over(lab[1], from_index(500)));
    let fz: R = minus(fy, over(lab[2], from_index(200)));
    let x: R = times(ratio(95_047, 100_000), lab_finv(fx));
    let y: R = times(from_index(1), lab_finv(fy));
    let z: R = times(ratio(108_883, 100_000), lab_finv(fz));
    let m: u32 = 10_000_000;
    let rl: R = minus(
        minus(times(ratio(32_404_542, m), x), times(ratio(15_371_385, m), y)),
        times(ratio(4_985_314, m), z),
    );
    let minus_gx: R = minus(from_index(0), ratio(9_692_660, m));
    let gl: R = mixed(minus_gx, x, ratio(18_760_108, m), y, ratio(415_560, m), z);
    let bl: R = plus(
        minus(times(ratio(556_434, m), x), times(ratio(2_040_259, m), y)),
        times(ratio(10_572_252, m), z),
    );
    [linear_to_srgb(rl), linear_to_srgb(gl), linear_to_srgb(bl)]
}

/// The squared Euclidean distance of two colours.
pub open spec fn dist2_of<R: Number>(a: Lab<R>, b: Lab<R>) -> R {
    let d0 = difference_of(a[0], b[0]);
    let d1 = difference_of(a[1], b[1]);
    let d2 = difference_of(a[2], b[2]);
    mix(d0, d0, d1, d1, d2, d2)
}

pub fn dist2<R: Number>(a: Lab<R>, b: Lab<R>) -> (d: R)
    requires
        consistent::<R>(),
    ensures
        d == dist2_of(a, b),
{
    let d0: R = minus(a[0], b[0]);
    let d1: R = minus(a[1], b[1]);
    let d2: R = minus(a[2], b[2]);
    mixed(d0, d0, d1, d1, d2, d2)
}

} // verus!
