use svgit::svg::{
    fnum, polygon_subpath, polygon_subpath_f, render_region_paths, to_svg, to_svg_layered, Coord,
    Fill, Gradients, LinearGradient, Ptf, RadialGradient, Region, Seg, Subpath,
};
use svgit::text::{attr_escape, hex};

fn at(v: f64) -> Coord {
    Coord { hundredths: (v * 100.0).round() as i128 }
}

fn pt(x: f64, y: f64) -> Ptf {
    (at(x), at(y))
}

fn square(x: i32, y: i32) -> Subpath {
    polygon_subpath(&[(x, y), (x + 1, y), (x + 1, y + 1), (x, y + 1)])
}

fn solid(color: [u8; 3], subpaths: Vec<Subpath>) -> Region {
    Region { fill: Fill::Solid(color), subpaths }
}

const OPEN: &str = "<svg xmlns=\"http://www.w3.org/2000/svg\" width=\"4\" height=\"3\" viewBox=\"0 0 4 3\">\n";

fn document(rest: &str) -> String {
    format!(
        "<?xml version=\"1.0\" encoding=\"UTF-8\"?>\n<!-- Generator: svgit owned pipeline -->\n{OPEN}{rest}</svg>\n"
    )
}

#[test]
fn coordinates_have_up_to_two_decimals() {
    assert_eq!(fnum(at(0.0)), "0");
    assert_eq!(fnum(at(12.0)), "12");
    assert_eq!(fnum(at(-7.0)), "-7");
    assert_eq!(fnum(at(1.5)), "1.5");
    assert_eq!(fnum(at(1.25)), "1.25");
    assert_eq!(fnum(at(100.05)), "100.05");
    assert_eq!(fnum(at(-0.5)), "-0.5");
    assert_eq!(fnum(at(-0.05)), "-0.05");
    assert_eq!(fnum(Coord { hundredths: i128::MIN }), "-1701411834604692317316873037158841057.28");
    for k in -500..500i128 {
        let v = k as f64 / 100.0;
        let text = format!("{v:.2}");
        let trimmed = text.trim_end_matches('0').trim_end_matches('.');
        let expected = if trimmed == "-0" { "0" } else { trimmed };
        assert_eq!(fnum(Coord { hundredths: k }), expected);
    }
}

#[test]
fn colors_are_lower_case_hex() {
    assert_eq!(hex([0, 0, 0]), "#000000");
    assert_eq!(hex([255, 10, 171]), "#ff0aab");
}

#[test]
fn attribute_values_are_escaped() {
    assert_eq!(attr_escape("plain"), "plain");
    assert_eq!(attr_escape("a<b> & \"c\""), "a&lt;b&gt; &amp; &quot;c&quot;");
    assert_eq!(attr_escape("&lt;"), "&amp;lt;");
    assert_eq!(attr_escape("Übergröße"), "Übergröße");
}

#[test]
fn polygons_start_at_their_first_corner() {
    let sp = polygon_subpath(&[(1, 2), (3, 4), (-5, 6)]);
    assert_eq!(sp.start, pt(1.0, 2.0));
    assert_eq!(sp.segs.len(), 2);
    assert!(matches!(sp.segs[1], Seg::Line(p) if p == pt(-5.0, 6.0)));
    let sp = polygon_subpath_f(&[pt(0.5, 0.25), pt(1.0, 1.0)]);
    assert_eq!(sp.start, pt(0.5, 0.25));
    assert!(matches!(sp.segs[0], Seg::Line(p) if p == pt(1.0, 1.0)));
    let none = polygon_subpath_f(&[]);
    assert_eq!(none.start, pt(0.0, 0.0));
    assert!(none.segs.is_empty());
}

#[test]
fn solids_merge_by_color_in_ascending_order() {
    let regions = [
        solid([0, 0, 2], vec![square(2, 0)]),
        solid([0, 0, 1], vec![square(0, 0)]),
        solid([0, 0, 2], vec![square(3, 1)]),
    ];
    assert_eq!(
        to_svg(4, 3, None, &regions),
        document(
            "<path d=\"M0 0L1 0L1 1L0 1Z\" fill=\"#000001\" fill-rule=\"nonzero\"/>\n\
             <path d=\"M2 0L3 0L3 1L2 1ZM3 1L4 1L4 2L3 2Z\" fill=\"#000002\" fill-rule=\"nonzero\"/>\n"
        )
    );
}

#[test]
fn background_is_a_rect_and_its_color_is_not_drawn_again() {
    let regions = [solid([9, 8, 7], vec![square(0, 0)]), solid([1, 1, 1], vec![square(1, 1)])];
    assert_eq!(
        to_svg(4, 3, Some([9, 8, 7]), &regions),
        document(
            "<rect width=\"4\" height=\"3\" fill=\"#090807\"/>\n\
             <path d=\"M1 1L2 1L2 2L1 2Z\" fill=\"#010101\" fill-rule=\"nonzero\"/>\n"
        )
    );
}

#[test]
fn subpaths_that_enclose_nothing_are_left_out() {
    let line = polygon_subpath(&[(0, 0), (1, 0)]);
    assert_eq!(to_svg(4, 3, None, &[solid([1, 2, 3], vec![line])]), document(""));
}

#[test]
fn cubic_segments_carry_two_control_points() {
    let sp = Subpath {
        start: pt(0.0, 0.0),
        segs: vec![
            Seg::Cubic(pt(0.5, 0.0), pt(1.0, 0.25), pt(1.0, 1.0)),
            Seg::Line(pt(0.0, 1.0)),
        ],
    };
    assert_eq!(
        to_svg(4, 3, None, &[solid([0, 0, 0], vec![sp])]),
        document("<path d=\"M0 0C0.5 0 1 0.25 1 1L0 1Z\" fill=\"#000000\" fill-rule=\"nonzero\"/>\n")
    );
}

fn linear() -> Fill {
    Fill::Linear(LinearGradient {
        x1: at(0.0),
        y1: at(0.5),
        x2: at(4.0),
        y2: at(0.5),
        stops: vec![(at(0.0), [0, 0, 0]), (at(1.0), [255, 255, 255])],
    })
}

fn radial() -> Fill {
    Fill::Radial(RadialGradient {
        cx: at(1.0),
        cy: at(2.0),
        r: at(1.75),
        stops: vec![(at(0.25), [1, 2, 3])],
    })
}

const LINEAR_DEF: &str = "gradientUnits=\"userSpaceOnUse\" x1=\"0\" y1=\"0.5\" x2=\"4\" y2=\"0.5\">\
    <stop offset=\"0\" stop-color=\"#000000\"/><stop offset=\"1\" stop-color=\"#ffffff\"/></linearGradient>";
const RADIAL_DEF: &str = "gradientUnits=\"userSpaceOnUse\" cx=\"1\" cy=\"2\" r=\"1.75\">\
    <stop offset=\"0.25\" stop-color=\"#010203\"/></radialGradient>";

#[test]
fn identical_gradients_share_a_definition() {
    let regions = [
        Region { fill: linear(), subpaths: vec![square(0, 0)] },
        Region { fill: radial(), subpaths: vec![square(1, 0)] },
        Region { fill: linear(), subpaths: vec![square(2, 0)] },
        // Paints nothing, so it needs no definition either.
        Region { fill: radial(), subpaths: vec![] },
        solid([5, 5, 5], vec![square(3, 0)]),
    ];
    let expected = format!(
        "<defs><linearGradient id=\"g0\" {LINEAR_DEF}<radialGradient id=\"g1\" {RADIAL_DEF}</defs>\n\
         <path d=\"M3 0L4 0L4 1L3 1Z\" fill=\"#050505\" fill-rule=\"nonzero\"/>\n\
         <path d=\"M0 0L1 0L1 1L0 1Z\" fill=\"url(#g0)\" fill-rule=\"nonzero\"/>\n\
         <path d=\"M1 0L2 0L2 1L1 1Z\" fill=\"url(#g1)\" fill-rule=\"nonzero\"/>\n\
         <path d=\"M2 0L3 0L3 1L2 1Z\" fill=\"url(#g0)\" fill-rule=\"nonzero\"/>\n"
    );
    assert_eq!(to_svg(4, 3, None, &regions), document(&expected));
}

#[test]
fn layers_become_groups_and_share_definitions() {
    let layers = vec![
        (
            "sky & \"sea\"".to_string(),
            vec![Region { fill: linear(), subpaths: vec![square(0, 0)] }],
        ),
        ("nothing".to_string(), vec![]),
        (
            "boat".to_string(),
            vec![
                solid([7, 7, 7], vec![square(1, 1)]),
                Region { fill: linear(), subpaths: vec![square(2, 0)] },
            ],
        ),
    ];
    let expected = format!(
        "<?xml version=\"1.0\" encoding=\"UTF-8\"?>\n<!-- Generator: svgit owned pipeline (layered) -->\n{OPEN}\
         <defs><linearGradient id=\"g0\" {LINEAR_DEF}</defs>\n\
         <g data-object=\"sky &amp; &quot;sea&quot;\">\n\
         <path d=\"M0 0L1 0L1 1L0 1Z\" fill=\"url(#g0)\" fill-rule=\"nonzero\"/>\n</g>\n\
         <g data-object=\"boat\">\n\
         <path d=\"M1 1L2 1L2 2L1 2Z\" fill=\"#070707\" fill-rule=\"nonzero\"/>\n\
         <path d=\"M2 0L3 0L3 1L2 1Z\" fill=\"url(#g0)\" fill-rule=\"nonzero\"/>\n</g>\n</svg>\n"
    );
    assert_eq!(to_svg_layered(4, 3, &layers), expected);
    assert_eq!(
        to_svg_layered(4, 3, &[]),
        document("").replace("pipeline -->", "pipeline (layered) -->")
    );
}

#[test]
fn gradient_numbers_are_kept_from_call_to_call() {
    let mut grads = Gradients::new();
    let first = [
        Region { fill: radial(), subpaths: vec![square(0, 0)] },
        Region { fill: linear(), subpaths: vec![] },
    ];
    assert_eq!(
        render_region_paths(&first, None, &mut grads),
        "<path d=\"M0 0L1 0L1 1L0 1Z\" fill=\"url(#g0)\" fill-rule=\"nonzero\"/>\n"
    );
    let second = [
        Region { fill: linear(), subpaths: vec![square(1, 0)] },
        Region { fill: radial(), subpaths: vec![square(2, 0)] },
        solid([9, 9, 9], vec![square(3, 0)]),
    ];
    assert_eq!(
        render_region_paths(&second, Some([9, 9, 9]), &mut grads),
        "<path d=\"M1 0L2 0L2 1L1 1Z\" fill=\"url(#g1)\" fill-rule=\"nonzero\"/>\n\
         <path d=\"M2 0L3 0L3 1L2 1Z\" fill=\"url(#g0)\" fill-rule=\"nonzero\"/>\n"
    );
}
