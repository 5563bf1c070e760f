//! Colours on the way to CIELAB and back, where arithmetic is exact.

use vstd::prelude::*;

use crate::color::{
    curve_of, knee, lab_of, linear_of, mix, rgb_of, slope, srgb_of, uncurve_of, unmix, white_x,
    white_z, Lab,
};
use crate::exact::{
    exact, lemma_exact, lemma_exact_ratio, lemma_exact_whole, lemma_prod_cancel, lemma_prod_order,
    lemma_prod_ring, lemma_prod_square, lemma_prod_units, prod,
};
use crate::number::{
    below, cube_root_of, difference_of, greater_of, lesser_of, power_of, product_of, quotient_of,
    ratio_of, round_byte_of, sum_of, whole_of, Number,
};

verus! {

proof fn lemma_quotient_raw(a: real, b: real)
    by (nonlinear_arith)
    requires
        0real < b,
    ensures
        (a / b) * b == a,
{
}

/// What a ratio stands for.
proof fn lemma_ratio_value<R: Number>(val: spec_fn(R) -> real, n: u32, d: u32)
    requires
        exact(val),
        d > 0,
    ensures
        val(ratio_of::<R>(n, d)) == (n as int as real) / (d as int as real),
{
    let (x, y) = (n as int as real, d as int as real);
    lemma_exact_ratio::<R>(val, n, d);
    lemma_quotient_raw(x, y);
    assert(prod(x / y, y) == x) by {
        reveal(prod);
    }
    lemma_prod_cancel(x / y, val(ratio_of::<R>(n, d)), y);
    lemma_prod_cancel(val(ratio_of::<R>(n, d)), x / y, y);
}

/// Cube roots are exact.
pub open spec fn cube_roots<R: Number>(val: spec_fn(R) -> real) -> bool {
    forall|t: R|
        #![trigger cube_root_of(t)]
        prod(
            prod(val(cube_root_of(t)), val(cube_root_of(t))),
            val(cube_root_of(t)),
        ) == val(t)
}

/// Cubes are in the order of the numbers, above zero.
proof fn lemma_cube_order(c: real, d: real)
    requires
        c <= d,
        0real < d,
    ensures
        prod(prod(c, c), c) <= prod(prod(d, d), d),
{
    lemma_prod_square(c);
    lemma_prod_square(d);
    if c <= 0real {
        lemma_prod_order(c, 0real, prod(c, c));
        lemma_prod_units(prod(c, c));
        lemma_prod_order(0real, d, prod(d, d));
        lemma_prod_units(prod(d, d));
    } else {
        lemma_prod_order(c, d, c);
        lemma_prod_order(c, d, d);
        lemma_prod_order(prod(c, c), prod(d, d), c);
        lemma_prod_order(c, d, prod(d, d));
    }
}

proof fn lemma_knee<R: Number>(val: spec_fn(R) -> real)
    requires
        exact(val),
    ensures
        ({
            let d = knee::<R>();
            let s = slope::<R>();
            &&& val(d) == 6real / 29real
            &&& val(product_of(product_of(d, d), d)) == 216real / 24389real
            &&& val(s) == 108real / 841real
            &&& val(ratio_of::<R>(4, 29)) == 4real / 29real
            &&& val(product_of(product_of(d, d), d)) == prod(prod(val(d), val(d)), val(d))
        }),
{
    let d = knee::<R>();
    let three = whole_of::<R>(3);
    lemma_ratio_value::<R>(val, 6, 29);
    lemma_ratio_value::<R>(val, 4, 29);
    lemma_exact_whole(val, 3);
    lemma_exact(val, d, d);
    lemma_exact(val, product_of(d, d), d);
    lemma_exact(val, three, d);
    lemma_exact(val, product_of(three, d), d);
    lemma_constant_products();
}

proof fn lemma_constant_products()
    ensures
        prod(6real / 29real, 6real / 29real) == 36real / 841real,
        prod(36real / 841real, 6real / 29real) == 216real / 24389real,
        prod(3real, 6real / 29real) == 18real / 29real,
        prod(18real / 29real, 6real / 29real) == 108real / 841real,
        prod(108real / 841real, 2real / 29real) == 216real / 24389real,
        prod(2real / 29real, 108real / 841real) == 216real / 24389real,
{
    reveal(prod);
}

/// The curve by which lightness goes and the way back along it undo each other, on either side of
/// the knee.
pub proof fn law_the_lab_curve_goes_back<R: Number>(val: spec_fn(R) -> real, t: R)
    requires
        exact(val),
        cube_roots(val),
    ensures
        val(uncurve_of(curve_of(t))) == val(t),
{
    let d = knee::<R>();
    let s = slope::<R>();
    let cube = product_of(product_of(d, d), d);
    let offset = ratio_of::<R>(4, 29);
    lemma_knee::<R>(val);
    lemma_constant_products();
    lemma_exact(val, cube, t);
    let y = curve_of(t);
    lemma_exact(val, d, y);
    if below(cube, t) {
        if val(y) <= val(d) {
            lemma_cube_order(val(y), val(d));
        }
        lemma_exact(val, y, y);
        lemma_exact(val, product_of(y, y), y);
    } else {
        let q = quotient_of(t, s);
        lemma_exact(val, t, s);
        lemma_exact(val, q, offset);
        lemma_prod_cancel(val(q), 2real / 29real, val(s));
        lemma_exact(val, y, offset);
        lemma_exact(val, s, difference_of(y, offset));
        lemma_prod_ring(val(s), val(q), val(q));
    }
}

/// Numbers that stand for the same are the same.
#[verifier::opaque]
pub open spec fn distinct<R: Number>(val: spec_fn(R) -> real) -> bool {
    forall|a: R, b: R| #[trigger] val(a) == #[trigger] val(b) ==> a == b
}

proof fn lemma_same<R: Number>(val: spec_fn(R) -> real, a: R, b: R)
    requires
        distinct(val),
        val(a) == val(b),
    ensures
        a == b,
{
    reveal(distinct);
}

proof fn lemma_mix<R: Number>(val: spec_fn(R) -> real, a: R, x: R, b: R, y: R, c: R, z: R)
    requires
        exact(val),
    ensures
        val(mix(a, x, b, y, c, z)) == prod(val(a), val(x)) + prod(val(b), val(y)) + prod(
            val(c),
            val(z),
        ),
        val(unmix(a, x, b, y, c, z)) == prod(val(a), val(x)) - prod(val(b), val(y)) - prod(
            val(c),
            val(z),
        ),
{
    let (p, q, r) = (product_of(a, x), product_of(b, y), product_of(c, z));
    lemma_exact(val, a, x);
    lemma_exact(val, b, y);
    lemma_exact(val, c, z);
    lemma_exact(val, p, q);
    lemma_exact(val, sum_of(p, q), r);
    lemma_exact(val, difference_of(p, q), r);
}

/// The numbers behind the LAB coordinates come back out of them.
proof fn lemma_lab_coordinates<R: Number>(val: spec_fn(R) -> real, fx: R, fy: R, fz: R)
    requires
        exact(val),
        distinct(val),
    ensures
        ({
            let l = difference_of(product_of(whole_of::<R>(116), fy), whole_of::<R>(16));
            let a = product_of(whole_of::<R>(500), difference_of(fx, fy));
            let b = product_of(whole_of::<R>(200), difference_of(fy, fz));
            let gy = quotient_of(sum_of(l, whole_of::<R>(16)), whole_of::<R>(116));
            &&& gy == fy
            &&& sum_of(gy, quotient_of(a, whole_of::<R>(500))) == fx
            &&& difference_of(gy, quotient_of(b, whole_of::<R>(200))) == fz
        }),
{
    let (k116, k16) = (whole_of::<R>(116), whole_of::<R>(16));
    let (k500, k200) = (whole_of::<R>(500), whole_of::<R>(200));
    lemma_exact_whole(val, 116);
    lemma_exact_whole(val, 16);
    lemma_exact_whole(val, 500);
    lemma_exact_whole(val, 200);
    let m = product_of(k116, fy);
    lemma_exact(val, k116, fy);
    lemma_exact(val, m, k16);
    let l = difference_of(m, k16);
    lemma_exact(val, l, k16);
    lemma_exact(val, sum_of(l, k16), k116);
    let gy = quotient_of(sum_of(l, k16), k116);
    lemma_prod_ring(116real, val(fy), val(fy));
    lemma_prod_cancel(val(gy), val(fy), 116real);
    lemma_prod_cancel(val(fy), val(gy), 116real);
    lemma_same(val, gy, fy);
    let u = difference_of(fx, fy);
    let a = product_of(k500, u);
    lemma_exact(val, fx, fy);
    lemma_exact(val, k500, u);
    lemma_exact(val, a, k500);
    let qa = quotient_of(a, k500);
    lemma_prod_ring(500real, val(u), val(u));
    lemma_prod_cancel(val(qa), val(u), 500real);
    lemma_prod_cancel(val(u), val(qa), 500real);
    lemma_exact(val, gy, qa);
    lemma_same(val, sum_of(gy, qa), fx);
    let w = difference_of(fy, fz);
    let b = product_of(k200, w);
    lemma_exact(val, fy, fz);
    lemma_exact(val, k200, w);
    lemma_exact(val, b, k200);
    let qb = quotient_of(b, k200);
    lemma_prod_ring(200real, val(w), val(w));
    lemma_prod_cancel(val(qb), val(w), 200real);
    lemma_prod_cancel(val(w), val(qb), 200real);
    lemma_exact(val, gy, qb);
    lemma_same(val, difference_of(gy, qb), fz);
}

/// The share of a white that a stimulus is goes along the curve and back to the stimulus.
proof fn lemma_white<R: Number>(val: spec_fn(R) -> real, x: R, white: R)
    requires
        exact(val),
        cube_roots(val),
        val(white) > 0real,
    ensures
        val(product_of(white, uncurve_of(curve_of(quotient_of(x, white))))) == val(x),
{
    let q = quotient_of(x, white);
    lemma_exact(val, x, white);
    law_the_lab_curve_goes_back(val, q);
    lemma_exact(val, white, uncurve_of(curve_of(q)));
    lemma_prod_ring(val(white), val(q), val(q));
}

/// The stimuli `x`, `y` and `z` of linear light, as real numbers.
spec fn stimuli(r: real, g: real, b: real) -> (real, real, real) {
    (
        prod(4124564real / 10000000real, r) + prod(3575761real / 10000000real, g) + prod(
            1804375real / 10000000real,
            b,
        ),
        prod(2126729real / 10000000real, r) + prod(7151522real / 10000000real, g) + prod(
            721750real / 10000000real,
            b,
        ),
        prod(193339real / 10000000real, r) + prod(1191920real / 10000000real, g) + prod(
            9503041real / 10000000real,
            b,
        ),
    )
}

/// Linear light that stimuli stand for, as real numbers.
spec fn lights(x: real, y: real, z: real) -> (real, real, real) {
    (
        prod(32404542real / 10000000real, x) - prod(15371385real / 10000000real, y) - prod(
            4985314real / 10000000real,
            z,
        ),
        prod(0real - 9692660real / 10000000real, x) + prod(18760108real / 10000000real, y) + prod(
            415560real / 10000000real,
            z,
        ),
        prod(556434real / 10000000real, x) - prod(2040259real / 10000000real, y) + prod(
            10572252real / 10000000real,
            z,
        ),
    )
}

/// The two matrices undo each other, but for what their rounding leaves.
proof fn lemma_matrices(r: real, g: real, b: real)
    requires
        0real <= r <= 1real,
        0real <= g <= 1real,
        0real <= b <= 1real,
    ensures
        ({
            let (x, y, z) = stimuli(r, g, b);
            let (r2, g2, b2) = lights(x, y, z);
            let e = 1real / 100000real;
            &&& r - e <= r2 <= r + e
            &&& g - e <= g2 <= g + e
            &&& b - e <= b2 <= b + e
        }),
{
    let (x, y, z) = stimuli(r, g, b);
    let (r2, g2, b2) = lights(x, y, z);
    assert(10000000real * x == 4124564real * r + 3575761real * g + 1804375real * b) by {
        reveal(prod);
    }
    assert(10000000real * y == 2126729real * r + 7151522real * g + 721750real * b) by {
        reveal(prod);
    }
    assert(10000000real * z == 193339real * r + 1191920real * g + 9503041real * b) by {
        reveal(prod);
    }
    assert(10000000real * r2 == 32404542real * x - 15371385real * y - 4985314real * z) by {
        reveal(prod);
    }
    lemma_prod_ring(0real, 9692660real / 10000000real, x);
    lemma_prod_units(x);
    assert(10000000real * g2 == 0real - 9692660real * x + 18760108real * y + 415560real * z) by {
        reveal(prod);
    }
    assert(10000000real * b2 == 556434real * x - 2040259real * y + 10572252real * z) by {
        reveal(prod);
    }
}

/// Within a hundred-thousandth of full light.
pub open spec fn close(a: real, b: real) -> bool {
    b - 1real / 100000real <= a <= b + 1real / 100000real
}

/// The colour is what some linear light within a hundred-thousandth of that of `r`, `g` and `b`
/// comes out as.
pub open spec fn shows_light_of<R: Number>(
    val: spec_fn(R) -> real,
    rgb: [u8; 3],
    r: u8,
    g: u8,
    b: u8,
    light: (R, R, R),
) -> bool {
    &&& rgb == [srgb_of(light.0), srgb_of(light.1), srgb_of(light.2)]
    &&& close(val(light.0), val(linear_of::<R>(r)))
    &&& close(val(light.1), val(linear_of::<R>(g)))
    &&& close(val(light.2), val(linear_of::<R>(b)))
}

/// Colours go to LAB and back: what comes back is the colour of light that differs from that of
/// the colour by no more than a hundred-thousandth in red, green and blue each.
pub proof fn law_colors_go_to_lab_and_back<R: Number>(
    val: spec_fn(R) -> real,
    r: u8,
    g: u8,
    b: u8,
)
    requires
        exact(val),
        distinct(val),
        cube_roots(val),
        forall|u: u8| 0real <= val(#[trigger] linear_of::<R>(u)) <= 1real,
    ensures
        exists|light: (R, R, R)|
            shows_light_of(val, rgb_of(lab_of::<R>(r, g, b)), r, g, b, light),
{
    let m: u32 = 10_000_000;
    let (rl, gl, bl) = (linear_of::<R>(r), linear_of::<R>(g), linear_of::<R>(b));
    let x = mix(ratio_of(4_124_564, m), rl, ratio_of(3_575_761, m), gl, ratio_of(1_804_375, m), bl);
    let y = mix(ratio_of(2_126_729, m), rl, ratio_of(7_151_522, m), gl, ratio_of(721_750, m), bl);
    let z = mix(ratio_of(193_339, m), rl, ratio_of(1_191_920, m), gl, ratio_of(9_503_041, m), bl);
    lemma_mix(
        val,
        ratio_of(4_124_564, m),
        rl,
        ratio_of(3_575_761, m),
        gl,
        ratio_of(1_804_375, m),
        bl,
    );
    lemma_mix(val, ratio_of(2_126_729, m), rl, ratio_of(7_151_522, m), gl, ratio_of(721_750, m), bl);
    lemma_mix(val, ratio_of(193_339, m), rl, ratio_of(1_191_920, m), gl, ratio_of(9_503_041, m), bl);
    lemma_ratio_value::<R>(val, 4_124_564, m);
    lemma_ratio_value::<R>(val, 3_575_761, m);
    lemma_ratio_value::<R>(val, 1_804_375, m);
    lemma_ratio_value::<R>(val, 2_126_729, m);
    lemma_ratio_value::<R>(val, 7_151_522, m);
    lemma_ratio_value::<R>(val, 721_750, m);
    lemma_ratio_value::<R>(val, 193_339, m);
    lemma_ratio_value::<R>(val, 1_191_920, m);
    lemma_ratio_value::<R>(val, 9_503_041, m);
    assert((val(x), val(y), val(z)) == stimuli(val(rl), val(gl), val(bl)));
    let one = whole_of::<R>(1);
    lemma_exact_whole(val, 1);
    lemma_ratio_value::<R>(val, 95_047, 100_000);
    lemma_ratio_value::<R>(val, 108_883, 100_000);
    lemma_white(val, x, white_x());
    lemma_white(val, y, one);
    lemma_white(val, z, white_z());
    let fx = curve_of(quotient_of(x, white_x()));
    let fy = curve_of(quotient_of(y, one));
    let fz = curve_of(quotient_of(z, white_z()));
    lemma_lab_coordinates(val, fx, fy, fz);
    let lab: Lab<R> = lab_of::<R>(r, g, b);
    let x2 = product_of(white_x(), uncurve_of(fx));
    let y2 = product_of(one, uncurve_of(fy));
    let z2 = product_of(white_z(), uncurve_of(fz));
    let light = lemma_unmixed(val, x2, y2, z2, lab, fx, fy, fz);
    lemma_matrices(val(rl), val(gl), val(bl));
    assert(shows_light_of(val, rgb_of(lab), r, g, b, light));
}

proof fn lemma_unmixed<R: Number>(
    val: spec_fn(R) -> real,
    x: R,
    y: R,
    z: R,
    lab: Lab<R>,
    fx: R,
    fy: R,
    fz: R,
) -> (light: (R, R, R))
    requires
        exact(val),
        x == product_of(white_x::<R>(), uncurve_of(fx)),
        y == product_of(whole_of::<R>(1), uncurve_of(fy)),
        z == product_of(white_z::<R>(), uncurve_of(fz)),
        ({
            let gy = quotient_of(sum_of(lab[0], whole_of::<R>(16)), whole_of::<R>(116));
            &&& gy == fy
            &&& sum_of(gy, quotient_of(lab[1], whole_of::<R>(500))) == fx
            &&& difference_of(gy, quotient_of(lab[2], whole_of::<R>(200))) == fz
        }),
    ensures
        rgb_of(lab) == [srgb_of(light.0), srgb_of(light.1), srgb_of(light.2)],
        (val(light.0), val(light.1), val(light.2)) == lights(val(x), val(y), val(z)),
{
    let m: u32 = 10_000_000;
    let rl = unmix(ratio_of(32_404_542, m), x, ratio_of(15_371_385, m), y, ratio_of(4_985_314, m), z);
    let minus_gx = difference_of(whole_of::<R>(0), ratio_of(9_692_660, m));
    let gl = mix(minus_gx, x, ratio_of(18_760_108, m), y, ratio_of(415_560, m), z);
    let (p, q, s) = (
        product_of(ratio_of(556_434, m), x),
        product_of(ratio_of(2_040_259, m), y),
        product_of(ratio_of(10_572_252, m), z),
    );
    let bl = sum_of(difference_of(p, q), s);
    lemma_mix(val, ratio_of(32_404_542, m), x, ratio_of(15_371_385, m), y, ratio_of(4_985_314, m), z);
    lemma_mix(val, minus_gx, x, ratio_of(18_760_108, m), y, ratio_of(415_560, m), z);
    lemma_exact_whole(val, 0);
    lemma_exact(val, whole_of::<R>(0), ratio_of(9_692_660, m));
    lemma_exact(val, ratio_of(556_434, m), x);
    lemma_exact(val, ratio_of(2_040_259, m), y);
    lemma_exact(val, ratio_of(10_572_252, m), z);
    lemma_exact(val, p, q);
    lemma_exact(val, difference_of(p, q), s);
    lemma_ratio_value::<R>(val, 32_404_542, m);
    lemma_ratio_value::<R>(val, 15_371_385, m);
    lemma_ratio_value::<R>(val, 4_985_314, m);
    lemma_ratio_value::<R>(val, 9_692_660, m);
    lemma_ratio_value::<R>(val, 18_760_108, m);
    lemma_ratio_value::<R>(val, 415_560, m);
    lemma_ratio_value::<R>(val, 556_434, m);
    lemma_ratio_value::<R>(val, 2_040_259, m);
    lemma_ratio_value::<R>(val, 10_572_252, m);
    (rl, gl, bl)
}

/// Powers undo powers of the inverse exponent, and numbers that stand for a byte are rounded to it.
pub open spec fn powers<R: Number>(val: spec_fn(R) -> real) -> bool {
    &&& forall|x: R, e: R, f: R|
        #![trigger power_of(power_of(x, e), f)]
        val(x) > 0real && prod(val(e), val(f)) == 1real ==> val(power_of(power_of(x, e), f)) == val(
            x,
        )
    &&& forall|x: R, n: u8|
        #![trigger round_byte_of(x), level(n)]
        val(x) == level(n) ==> round_byte_of(x) == n
}

/// A byte as a real number.
pub open spec fn level(n: u8) -> real {
    n as int as real
}

/// Linear light goes back to the byte it came from, on either side of the point where the gamma
/// curve ceases to be straight.
pub proof fn law_linear_light_goes_back<R: Number>(val: spec_fn(R) -> real, u: u8)
    requires
        exact(val),
        distinct(val),
        powers(val),
        0real <= val(linear_of::<R>(u)) <= 1real,
        u > 10 ==> 31308real < 10000000real * val(linear_of::<R>(u)),
    ensures
        srgb_of(linear_of::<R>(u)) == u,
{
    let n = level(u);
    let (zero, one, top) = (whole_of::<R>(0), whole_of::<R>(1), whole_of::<R>(255));
    lemma_exact_whole(val, u as usize);
    lemma_exact_whole(val, 255);
    lemma_exact_whole(val, 0);
    lemma_exact_whole(val, 1);
    let c = quotient_of(whole_of::<R>(u as usize), top);
    lemma_exact(val, whole_of::<R>(u as usize), top);
    assert(255real * val(c) == n) by {
        reveal(prod);
    }
    lemma_ratio_value::<R>(val, 4045, 100_000);
    lemma_ratio_value::<R>(val, 1292, 100);
    lemma_ratio_value::<R>(val, 55, 1000);
    lemma_ratio_value::<R>(val, 1055, 1000);
    lemma_ratio_value::<R>(val, 24, 10);
    lemma_ratio_value::<R>(val, 31_308, 10_000_000);
    lemma_exact(val, ratio_of(4045, 100_000), c);
    let light = linear_of::<R>(u);
    lemma_exact(val, light, zero);
    let raised = greater_of(light, zero);
    lemma_exact(val, raised, one);
    let kept = lesser_of(raised, one);
    lemma_same(val, kept, light);
    lemma_exact(val, ratio_of(31_308, 10_000_000), light);
    if u <= 10 {
        let k = ratio_of::<R>(1292, 100);
        lemma_exact(val, c, k);
        assert(1292real * val(light) == 100real * val(c)) by {
            reveal(prod);
        }
        let v = product_of(k, light);
        lemma_exact(val, k, light);
        assert(val(v) == val(c)) by {
            reveal(prod);
        }
        lemma_exact(val, v, top);
        assert(val(product_of(v, top)) == n) by {
            reveal(prod);
        }
    } else {
        let (k, o) = (ratio_of::<R>(1055, 1000), ratio_of::<R>(55, 1000));
        let e = ratio_of::<R>(24, 10);
        let w = quotient_of(sum_of(c, o), k);
        lemma_exact(val, c, o);
        lemma_exact(val, sum_of(c, o), k);
        assert(1055real * val(w) == 1000real * val(c) + 55real) by {
            reveal(prod);
        }
        let f = quotient_of(one, e);
        lemma_exact(val, one, e);
        lemma_prod_ring(val(e), val(f), val(f));
        assert(light == power_of(w, e));
        let back = power_of(light, f);
        assert(val(back) == val(w));
        lemma_exact(val, k, back);
        let v = difference_of(product_of(k, back), o);
        lemma_exact(val, product_of(k, back), o);
        assert(val(v) == val(c)) by {
            reveal(prod);
        }
        lemma_exact(val, v, top);
        assert(val(product_of(v, top)) == n) by {
            reveal(prod);
        }
    }
}

} // verus!
