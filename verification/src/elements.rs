//! What the elements of a document say.

use vstd::prelude::*;

use crate::reading::{
    all_digits, byte_at, hundredths_of, law_colors_read_back, law_coordinates_read_back,
    law_decimals_read_back, law_escaped_text_reads_back, unescaped, value,
};
use crate::svg::{
    body_text, color_hex, color_number, color_text, coord_text, defs_element, defs_text,
    gradient_inner, gradient_path, gradient_paths, gradient_tag, gradients_after, group_text,
    groups_text, is_solid, layer_gradients, layered_text, rect_text, region_text, skip_number,
    solid_paths, stops_text, svg_open, svg_text, Coord, Fill, GradientKey, LinearGradient,
    RadialGradient, Region,
};
use crate::text::{decimal, escaped, hex_text};

verus! {

/// The text holds `part`, with `before` in front of it and `after` behind it.
pub open spec fn splits(t: Seq<char>, before: Seq<char>, part: Seq<char>, after: Seq<char>) -> bool {
    t == before + part + after
}

/// The text holds `part`.
pub open spec fn holds(t: Seq<char>, part: Seq<char>) -> bool {
    exists|before: Seq<char>, after: Seq<char>| #[trigger] splits(t, before, part, after)
}

/// An attribute with its name and its value in quotes.
pub open spec fn attribute(name: Seq<char>, v: Seq<char>) -> Seq<char> {
    " "@ + name + "=\""@ + v + "\""@
}

/// A value that reads as the number `n`.
pub open spec fn reads_as(v: Seq<char>, n: int) -> bool {
    v.len() > 0 && all_digits(v) && value(v) == n
}

/// The text holds an attribute of this name whose value reads as the number `n`.
pub open spec fn has_number(t: Seq<char>, name: Seq<char>, n: int) -> bool {
    exists|v: Seq<char>| #[trigger] reads_as(v, n) && holds(t, attribute(name, v))
}

pub proof fn lemma_holds(t: Seq<char>, before: Seq<char>, part: Seq<char>, after: Seq<char>)
    requires
        t =~= before + part + after,
    ensures
        holds(t, part),
{
    assert(splits(t, before, part, after));
}

proof fn lemma_has_number(
    t: Seq<char>,
    name: Seq<char>,
    n: nat,
    before: Seq<char>,
    after: Seq<char>,
)
    requires
        t =~= before + attribute(name, decimal(n)) + after,
    ensures
        has_number(t, name, n as int),
{
    law_decimals_read_back(n);
    lemma_holds(t, before, attribute(name, decimal(n)), after);
    assert(reads_as(decimal(n), n as int));
}

/// The document's tag gives its width and its height, each under its own name, and a view box from
/// the origin to them.
pub proof fn law_documents_give_their_size(width: usize, height: usize)
    ensures
        has_number(svg_open(width, height), "width"@, width as int),
        has_number(svg_open(width, height), "height"@, height as int),
        exists|w: Seq<char>, h: Seq<char>|
            #![trigger reads_as(w, width as int), reads_as(h, height as int)]
            reads_as(w, width as int) && reads_as(h, height as int) && holds(
                svg_open(width, height),
                attribute("viewBox"@, "0 0 "@ + w + " "@ + h),
            ),
{
    let t = svg_open(width, height);
    let (w, h) = (decimal(width as nat), decimal(height as nat));
    let a = "<svg xmlns=\"http://www.w3.org/2000/svg\" width=\""@;
    let lead = "<svg xmlns=\"http://www.w3.org/2000/svg\""@;
    let b = "\" height=\""@;
    let c = "\" viewBox=\"0 0 "@;
    let d = "\">\n"@;
    let rest = ">\n"@;
    reveal_strlit("<svg xmlns=\"http://www.w3.org/2000/svg\" width=\"");
    reveal_strlit("<svg xmlns=\"http://www.w3.org/2000/svg\"");
    reveal_strlit("\" height=\"");
    reveal_strlit("\" viewBox=\"0 0 ");
    reveal_strlit("\">\n");
    reveal_strlit(">\n");
    reveal_strlit("width");
    reveal_strlit("height");
    reveal_strlit("viewBox");
    reveal_strlit("0 0 ");
    reveal_strlit(" ");
    reveal_strlit("=\"");
    reveal_strlit("\"");
    let quote = "\""@;
    assert(a =~= lead + " "@ + "width"@ + "=\""@);
    assert(b =~= quote + " "@ + "height"@ + "=\""@);
    assert(c =~= quote + " "@ + "viewBox"@ + "=\""@ + "0 0 "@);
    assert(d =~= quote + rest);
    let box_value = "0 0 "@ + w + " "@ + h;
    let after_w = " "@ + "height"@ + "=\""@ + h + c + w + " "@ + h + d;
    assert(t =~= lead + attribute("width"@, w) + after_w);
    lemma_has_number(t, "width"@, width as nat, lead, after_w);
    let before_h = lead + attribute("width"@, w);
    let after_h = " "@ + "viewBox"@ + "=\""@ + box_value + d;
    assert(t =~= before_h + attribute("height"@, h) + after_h);
    lemma_has_number(t, "height"@, height as nat, before_h, after_h);
    let before_v = before_h + attribute("height"@, h);
    assert(t =~= before_v + attribute("viewBox"@, box_value) + rest);
    lemma_holds(t, before_v, attribute("viewBox"@, box_value), rest);
    law_decimals_read_back(width as nat);
    law_decimals_read_back(height as nat);
    assert(reads_as(w, width as int) && reads_as(h, height as int));
}

/// The text is that of a colour.
pub open spec fn is_color(t: Seq<char>, c: [u8; 3]) -> bool {
    t.len() == 7 && t[0] == '#' && byte_at(t, 1) == c[0] && byte_at(t, 3) == c[1] && byte_at(t, 5)
        == c[2]
}

/// The background is a rectangle over the whole document in its colour; without one there is none.
pub proof fn law_backgrounds_cover_the_document(
    width: usize,
    height: usize,
    background: Option<[u8; 3]>,
)
    ensures
        background is None ==> rect_text(width, height, background).len() == 0,
        background matches Some(c) ==> {
            let t = rect_text(width, height, background);
            &&& has_number(t, "width"@, width as int)
            &&& has_number(t, "height"@, height as int)
            &&& exists|v: Seq<char>| #[trigger] is_color(v, c) && holds(t, attribute("fill"@, v))
        },
{
    if let Some(col) = background {
        let t = rect_text(width, height, background);
        let (w, h, f) = (decimal(width as nat), decimal(height as nat), color_hex(col));
        reveal_strlit("<rect width=\"");
        reveal_strlit("<rect");
        reveal_strlit("\" height=\"");
        reveal_strlit("\" fill=\"");
        reveal_strlit("\"/>\n");
        reveal_strlit("/>\n");
        reveal_strlit("width");
        reveal_strlit("height");
        reveal_strlit("fill");
        reveal_strlit(" ");
        reveal_strlit("=\"");
        reveal_strlit("\"");
        let quote = "\""@;
        let lead = "<rect"@;
        assert("<rect width=\""@ =~= lead + " "@ + "width"@ + "=\""@);
        assert("\" height=\""@ =~= quote + " "@ + "height"@ + "=\""@);
        assert("\" fill=\""@ =~= quote + " "@ + "fill"@ + "=\""@);
        assert("\"/>\n"@ =~= quote + "/>\n"@);
        let after_w = attribute("height"@, h) + attribute("fill"@, f) + "/>\n"@;
        assert(t =~= lead + attribute("width"@, w) + after_w);
        lemma_has_number(t, "width"@, width as nat, lead, after_w);
        let before_h = lead + attribute("width"@, w);
        let after_h = attribute("fill"@, f) + "/>\n"@;
        assert(t =~= before_h + attribute("height"@, h) + after_h);
        lemma_has_number(t, "height"@, height as nat, before_h, after_h);
        let before_f = before_h + attribute("height"@, h);
        assert(t =~= before_f + attribute("fill"@, f) + "/>\n"@);
        lemma_holds(t, before_f, attribute("fill"@, f), "/>\n"@);
        law_colors_read_back(col[0], col[1], col[2]);
        assert(is_color(f, col));
    }
}

/// The path element with data `d` and this fill.
pub open spec fn path_element(d: Seq<char>, fill: Seq<char>) -> Seq<char> {
    "<path"@ + attribute("d"@, d) + attribute("fill"@, fill) + attribute("fill-rule"@, "nonzero"@)
        + "/>\n"@
}

/// The path data of a region is part of that of its colour.
proof fn lemma_color_holds(regions: Seq<Region>, c: u32, i: int, n: int)
    requires
        0 <= i < n <= regions.len(),
        is_solid(regions[i], c),
    ensures
        holds(color_text(regions, c, n), region_text(regions[i])),
    decreases n,
{
    let now = color_text(regions, c, n);
    let before = color_text(regions, c, n - 1);
    let part = region_text(regions[i]);
    let none = Seq::<char>::empty();
    if i == n - 1 {
        lemma_holds(now, before, part, none);
    } else {
        lemma_color_holds(regions, c, i, n - 1);
        let (a, b) = choose|a: Seq<char>, b: Seq<char>| #[trigger] splits(before, a, part, b);
        if is_solid(regions[n - 1], c) {
            lemma_holds(now, a, part, b + region_text(regions[n - 1]));
        } else {
            lemma_holds(now, a, part, b);
        }
    }
}

/// The element of every colour below `c` with data is among the elements.
proof fn lemma_solid_holds(regions: Seq<Region>, skip: Option<u32>, color: u32, c: int)
    requires
        0 <= color < c <= 0x100_0000,
        skip != Some(color),
        color_text(regions, color, regions.len() as int).len() > 0,
    ensures
        holds(
            solid_paths(regions, skip, c),
            path_element(
                color_text(regions, color, regions.len() as int),
                hex_text(
                    (color / 0x1_0000) as u8,
                    (color / 0x100 % 0x100) as u8,
                    (color % 0x100) as u8,
                ),
            ),
        ),
    decreases c,
{
    let now = solid_paths(regions, skip, c);
    let before = solid_paths(regions, skip, c - 1);
    let last = (c - 1) as u32;
    let data = color_text(regions, last, regions.len() as int);
    let fill = hex_text(
        (last / 0x1_0000) as u8,
        (last / 0x100 % 0x100) as u8,
        (last % 0x100) as u8,
    );
    let none = Seq::<char>::empty();
    lemma_path_element(data, fill);
    let element = path_element(data, fill);
    if skip != Some(last) && data.len() > 0 {
        assert(now =~= before + element);
    }
    if color == last {
        lemma_holds(now, before, element, none);
    } else {
        lemma_solid_holds(regions, skip, color, c - 1);
        let part = path_element(
            color_text(regions, color, regions.len() as int),
            hex_text(
                (color / 0x1_0000) as u8,
                (color / 0x100 % 0x100) as u8,
                (color % 0x100) as u8,
            ),
        );
        let (a, b) = choose|a: Seq<char>, b: Seq<char>| #[trigger] splits(before, a, part, b);
        if skip != Some(last) && data.len() > 0 {
            lemma_holds(now, a, part, b + element);
        } else {
            lemma_holds(now, a, part, b);
        }
    }
}

/// How a path element is written.
proof fn lemma_path_element(d: Seq<char>, fill: Seq<char>)
    ensures
        path_element(d, fill) == "<path d=\""@ + d + "\" fill=\""@ + fill
            + "\" fill-rule=\"nonzero\"/>\n"@,
{
    reveal_strlit("<path d=\"");
    reveal_strlit("<path");
    reveal_strlit("\" fill=\"");
    reveal_strlit("\" fill-rule=\"nonzero\"/>\n");
    reveal_strlit("/>\n");
    reveal_strlit("d");
    reveal_strlit("fill");
    reveal_strlit("fill-rule");
    reveal_strlit("nonzero");
    reveal_strlit(" ");
    reveal_strlit("=\"");
    reveal_strlit("\"");
    let quote = "\""@;
    assert("<path d=\""@ =~= "<path"@ + " "@ + "d"@ + "=\""@);
    assert("\" fill=\""@ =~= quote + " "@ + "fill"@ + "=\""@);
    assert("\" fill-rule=\"nonzero\"/>\n"@ =~= quote + " "@ + "fill-rule"@ + "=\""@ + "nonzero"@
        + quote + "/>\n"@);
    assert(path_element(d, fill) =~= "<path d=\""@ + d + "\" fill=\""@ + fill
        + "\" fill-rule=\"nonzero\"/>\n"@);
}

/// The bytes of a colour come back out of its number.
proof fn lemma_color_bytes(c: [u8; 3])
    ensures
        color_number(c) < 0x100_0000,
        (color_number(c) / 0x1_0000) as u8 == c[0],
        (color_number(c) / 0x100 % 0x100) as u8 == c[1],
        (color_number(c) % 0x100) as u8 == c[2],
{
}

/// What is among the elements of flat colours is in the body.
proof fn lemma_body_holds(
    regions: Seq<Region>,
    skip: Option<u32>,
    keys: Seq<GradientKey>,
    flat: Seq<char>,
    element: Seq<char>,
)
    requires
        flat == solid_paths(regions, skip, 0x100_0000),
        holds(flat, element),
    ensures
        holds(body_text(regions, skip, keys), element),
{
    let n = regions.len() as int;
    let rest = gradient_paths(regions, gradients_after(regions, keys, n), n);
    let (p, q) = choose|p: Seq<char>, q: Seq<char>| #[trigger] splits(flat, p, element, q);
    assert(body_text(regions, skip, keys) == flat + rest);
    lemma_holds(flat + rest, p, element, q + rest);
}

/// A path is painted flat in this colour, and its data holds `part`.
pub open spec fn paints(body: Seq<char>, part: Seq<char>, c: [u8; 3]) -> bool {
    exists|d: Seq<char>, fill: Seq<char>|
        #![trigger path_element(d, fill)]
        is_color(fill, c) && holds(d, part) && holds(body, path_element(d, fill))
}

/// Every region that is painted flat and draws something is part of a path in its colour, unless
/// it is of the colour to skip.
pub proof fn law_flat_regions_are_painted(
    regions: Seq<Region>,
    skip: Option<u32>,
    keys: Seq<GradientKey>,
    i: int,
)
    requires
        0 <= i < regions.len(),
        region_text(regions[i]).len() > 0,
        regions[i].fill is Solid,
        skip != Some(color_number(regions[i].fill->Solid_0)),
    ensures
        paints(
            body_text(regions, skip, keys),
            region_text(regions[i]),
            regions[i].fill->Solid_0,
        ),
{
    let n = regions.len() as int;
    let c = regions[i].fill->Solid_0;
    let k = color_number(c);
    let d = color_text(regions, k, n);
    lemma_color_bytes(c);
    let fill = hex_text(c[0], c[1], c[2]);
    let element = path_element(d, fill);
    lemma_region_element(regions, skip, i, k);
    lemma_body_holds(regions, skip, keys, solid_paths(regions, skip, 0x100_0000), element);
    law_colors_read_back(c[0], c[1], c[2]);
    assert(is_color(fill, c));
}

proof fn lemma_region_element(regions: Seq<Region>, skip: Option<u32>, i: int, k: u32)
    requires
        0 <= i < regions.len(),
        region_text(regions[i]).len() > 0,
        is_solid(regions[i], k),
        skip != Some(k),
        k < 0x100_0000,
    ensures
        holds(color_text(regions, k, regions.len() as int), region_text(regions[i])),
        holds(
            solid_paths(regions, skip, 0x100_0000),
            path_element(
                color_text(regions, k, regions.len() as int),
                hex_text((k / 0x1_0000) as u8, (k / 0x100 % 0x100) as u8, (k % 0x100) as u8),
            ),
        ),
{
    let n = regions.len() as int;
    let part = region_text(regions[i]);
    let d = color_text(regions, k, n);
    lemma_color_holds(regions, k, i, n);
    let (a, b) = choose|a: Seq<char>, b: Seq<char>| #[trigger] splits(d, a, part, b);
    assert(d.len() > 0);
    lemma_solid_holds(regions, skip, k, 0x100_0000);
}

/// A value that reads as this coordinate.
pub open spec fn reads_as_coord(v: Seq<char>, c: Coord) -> bool {
    hundredths_of(v) == c.hundredths
}

/// The text holds an attribute of this name whose value reads as this coordinate.
pub open spec fn has_coord(t: Seq<char>, name: Seq<char>, c: Coord) -> bool {
    exists|v: Seq<char>| #[trigger] reads_as_coord(v, c) && holds(t, attribute(name, v))
}

proof fn lemma_has_coord(
    t: Seq<char>,
    name: Seq<char>,
    c: Coord,
    before: Seq<char>,
    after: Seq<char>,
)
    requires
        t =~= before + attribute(name, coord_text(c)) + after,
    ensures
        has_coord(t, name, c),
{
    law_coordinates_read_back(c.hundredths as int);
    lemma_holds(t, before, attribute(name, coord_text(c)), after);
    assert(reads_as_coord(coord_text(c), c));
}

/// How a linear gradient is written.
#[verifier::rlimit(40)]
proof fn lemma_linear_text(g: LinearGradient)
    ensures
        gradient_inner(Fill::Linear(g)) == "gradientUnits=\"userSpaceOnUse\""@ + attribute(
            "x1"@,
            coord_text(g.x1),
        ) + attribute("y1"@, coord_text(g.y1)) + attribute("x2"@, coord_text(g.x2)) + attribute(
            "y2"@,
            coord_text(g.y2),
        ) + (">"@ + stops_text(g.stops@, g.stops@.len() as int)),
{
    let (x1, y1, x2, y2) = (
        coord_text(g.x1),
        coord_text(g.y1),
        coord_text(g.x2),
        coord_text(g.y2),
    );
    let stops = stops_text(g.stops@, g.stops@.len() as int);
    let lead = "gradientUnits=\"userSpaceOnUse\""@;
    let quote = "\""@;
    let (na, nb, nc, nd) = (
        " "@ + "x1"@ + "=\""@,
        " "@ + "y1"@ + "=\""@,
        " "@ + "x2"@ + "=\""@,
        " "@ + "y2"@ + "=\""@,
    );
    assert("gradientUnits=\"userSpaceOnUse\" x1=\""@ =~= lead + na) by {
        reveal_strlit("gradientUnits=\"userSpaceOnUse\" x1=\"");
        reveal_strlit("gradientUnits=\"userSpaceOnUse\"");
        reveal_strlit("x1");
        reveal_strlit(" ");
        reveal_strlit("=\"");
    }
    assert("\" y1=\""@ =~= quote + nb) by {
        reveal_strlit("\" y1=\"");
        reveal_strlit("y1");
        reveal_strlit(" ");
        reveal_strlit("=\"");
        reveal_strlit("\"");
    }
    assert("\" x2=\""@ =~= quote + nc) by {
        reveal_strlit("\" x2=\"");
        reveal_strlit("x2");
        reveal_strlit(" ");
        reveal_strlit("=\"");
        reveal_strlit("\"");
    }
    assert("\" y2=\""@ =~= quote + nd) by {
        reveal_strlit("\" y2=\"");
        reveal_strlit("y2");
        reveal_strlit(" ");
        reveal_strlit("=\"");
        reveal_strlit("\"");
    }
    assert("\">"@ =~= quote + ">"@) by {
        reveal_strlit("\">");
        reveal_strlit(">");
        reveal_strlit("\"");
    }
    assert(gradient_inner(Fill::Linear(g)) =~= lead + (na + x1 + quote) + (nb + y1 + quote) + (nc
        + x2 + quote) + (nd + y2 + quote) + (">"@ + stops));
}

/// A linear gradient says where it starts and where it ends, each coordinate under its own name,
/// and then gives its stops.
pub proof fn law_linear_gradients_give_their_ends(g: LinearGradient)
    ensures
        ({
            let t = gradient_inner(Fill::Linear(g));
            &&& has_coord(t, "x1"@, g.x1)
            &&& has_coord(t, "y1"@, g.y1)
            &&& has_coord(t, "x2"@, g.x2)
            &&& has_coord(t, "y2"@, g.y2)
            &&& holds(t, stops_text(g.stops@, g.stops@.len() as int))
        }),
{
    let t = gradient_inner(Fill::Linear(g));
    let stops = stops_text(g.stops@, g.stops@.len() as int);
    let lead = "gradientUnits=\"userSpaceOnUse\""@;
    let (a, b) = (attribute("x1"@, coord_text(g.x1)), attribute("y1"@, coord_text(g.y1)));
    let (c, d) = (attribute("x2"@, coord_text(g.x2)), attribute("y2"@, coord_text(g.y2)));
    let tail = ">"@ + stops;
    lemma_linear_text(g);
    lemma_five_parts(lead, a, b, c, d, tail);
    lemma_has_coord(t, "x1"@, g.x1, lead, b + c + d + tail);
    lemma_has_coord(t, "y1"@, g.y1, lead + a, c + d + tail);
    lemma_has_coord(t, "x2"@, g.x2, lead + a + b, d + tail);
    lemma_has_coord(t, "y2"@, g.y2, lead + a + b + c, tail);
    let head = lead + a + b + c + d;
    assert(head + (">"@ + stops) =~= head + ">"@ + stops + Seq::empty());
    lemma_holds(t, head + ">"@, stops, Seq::empty());
}

proof fn lemma_five_parts(
    lead: Seq<char>,
    a: Seq<char>,
    b: Seq<char>,
    c: Seq<char>,
    d: Seq<char>,
    tail: Seq<char>,
)
    ensures
        lead + a + b + c + d + tail == lead + a + (b + c + d + tail),
        lead + a + b + c + d + tail == lead + a + b + (c + d + tail),
        lead + a + b + c + d + tail == lead + a + b + c + (d + tail),
{
    assert(lead + a + b + c + d + tail =~= lead + a + (b + c + d + tail));
    assert(lead + a + b + c + d + tail =~= lead + a + b + (c + d + tail));
    assert(lead + a + b + c + d + tail =~= lead + a + b + c + (d + tail));
}

/// A radial gradient gives its centre and its radius, each under its own name, and then its stops.
pub proof fn law_radial_gradients_give_their_circle(g: RadialGradient)
    ensures
        ({
            let t = gradient_inner(Fill::Radial(g));
            &&& has_coord(t, "cx"@, g.cx)
            &&& has_coord(t, "cy"@, g.cy)
            &&& has_coord(t, "r"@, g.r)
            &&& holds(t, stops_text(g.stops@, g.stops@.len() as int))
        }),
{
    let t = gradient_inner(Fill::Radial(g));
    let (cx, cy, r) = (coord_text(g.cx), coord_text(g.cy), coord_text(g.r));
    let stops = stops_text(g.stops@, g.stops@.len() as int);
    reveal_strlit("gradientUnits=\"userSpaceOnUse\" cx=\"");
    reveal_strlit("gradientUnits=\"userSpaceOnUse\"");
    reveal_strlit("\" cy=\"");
    reveal_strlit("\" r=\"");
    reveal_strlit("\">");
    reveal_strlit(">");
    reveal_strlit("cx");
    reveal_strlit("cy");
    reveal_strlit("r");
    reveal_strlit(" ");
    reveal_strlit("=\"");
    reveal_strlit("\"");
    let quote = "\""@;
    let lead = "gradientUnits=\"userSpaceOnUse\""@;
    assert("gradientUnits=\"userSpaceOnUse\" cx=\""@ =~= lead + " "@ + "cx"@ + "=\""@);
    assert("\" cy=\""@ =~= quote + " "@ + "cy"@ + "=\""@);
    assert("\" r=\""@ =~= quote + " "@ + "r"@ + "=\""@);
    assert("\">"@ =~= quote + ">"@);
    let (a, b, c) = (attribute("cx"@, cx), attribute("cy"@, cy), attribute("r"@, r));
    let tail = ">"@ + stops;
    assert(t =~= lead + a + b + c + tail);
    lemma_has_coord(t, "cx"@, g.cx, lead, b + c + tail);
    lemma_has_coord(t, "cy"@, g.cy, lead + a, c + tail);
    lemma_has_coord(t, "r"@, g.r, lead + a + b, tail);
    lemma_holds(t, lead + a + b + c + ">"@, stops, Seq::empty());
}

/// A stop element with this offset and this colour.
pub open spec fn stop_element(offset: Seq<char>, color: Seq<char>) -> Seq<char> {
    "<stop"@ + attribute("offset"@, offset) + attribute("stop-color"@, color) + "/>"@
}

/// The stops of a gradient come in their order, each with its offset and its colour.
pub proof fn law_stops_come_in_order(stops: Seq<(Coord, [u8; 3])>, n: int)
    requires
        0 < n <= stops.len(),
    ensures
        stops_text(stops, 0).len() == 0,
        stops_text(stops, n) == stops_text(stops, n - 1) + stop_element(
            coord_text(stops[n - 1].0),
            color_hex(stops[n - 1].1),
        ),
        reads_as_coord(coord_text(stops[n - 1].0), stops[n - 1].0),
        is_color(color_hex(stops[n - 1].1), stops[n - 1].1),
{
    let (off, c) = stops[n - 1];
    reveal_strlit("<stop offset=\"");
    reveal_strlit("<stop");
    reveal_strlit("\" stop-color=\"");
    reveal_strlit("\"/>");
    reveal_strlit("/>");
    reveal_strlit("offset");
    reveal_strlit("stop-color");
    reveal_strlit(" ");
    reveal_strlit("=\"");
    reveal_strlit("\"");
    let quote = "\""@;
    assert("<stop offset=\""@ =~= "<stop"@ + " "@ + "offset"@ + "=\""@);
    assert("\" stop-color=\""@ =~= quote + " "@ + "stop-color"@ + "=\""@);
    assert("\"/>"@ =~= quote + "/>"@);
    law_coordinates_read_back(off.hundredths as int);
    law_colors_read_back(c[0], c[1], c[2]);
    assert(stops_text(stops, n) =~= stops_text(stops, n - 1) + stop_element(
        coord_text(off),
        color_hex(c),
    ));
}

/// A group with a label and what stands in it.
pub open spec fn group_element(label: Seq<char>, body: Seq<char>) -> Seq<char> {
    "<g"@ + attribute("data-object"@, label) + ">\n"@ + body + "</g>\n"@
}

/// The groups hold one that is labelled `label`, once its escapes are read, around `body`.
pub open spec fn groups(t: Seq<char>, label: Seq<char>, body: Seq<char>) -> bool {
    exists|v: Seq<char>| #[trigger] unescaped(v) == label && holds(t, group_element(v, body))
}

/// Every layer that paints something is a group of its own, with its label and its paths; the
/// layers come bottom first, each behind those before it.
pub proof fn law_layers_are_grouped(layers: Seq<(String, Vec<Region>)>, l: int, n: int)
    requires
        0 <= l < n <= layers.len(),
        body_text(layers[l].1@, None, layer_gradients(layers, l)).len() > 0,
    ensures
        groups(
            groups_text(layers, n),
            layers[l].0@,
            body_text(layers[l].1@, None, layer_gradients(layers, l)),
        ),
        groups_text(layers, l).is_prefix_of(groups_text(layers, n)),
    decreases n,
{
    let (label, body) = (layers[l].0@, body_text(layers[l].1@, None, layer_gradients(layers, l)));
    let now = groups_text(layers, n);
    let before = groups_text(layers, n - 1);
    let none = Seq::<char>::empty();
    if l == n - 1 {
        lemma_group_element(label, body);
        law_escaped_text_reads_back(label);
        let v = escaped(label);
        lemma_holds(now, before, group_element(v, body), none);
        assert(unescaped(v) == label);
    } else {
        law_layers_are_grouped(layers, l, n - 1);
        let v = choose|v: Seq<char>| #[trigger]
            unescaped(v) == label && holds(before, group_element(v, body));
        let element = group_element(v, body);
        let (a, b) = choose|a: Seq<char>, b: Seq<char>| #[trigger] splits(before, a, element, b);
        let more = now.skip(before.len() as int);
        assert(now =~= before + more);
        lemma_holds(now, a, element, b + more);
        assert(unescaped(v) == label);
    }
}

proof fn lemma_group_element(label: Seq<char>, body: Seq<char>)
    ensures
        group_text(label, body) == group_element(escaped(label), body),
{
    reveal_strlit("<g data-object=\"");
    reveal_strlit("<g");
    reveal_strlit("\">\n");
    reveal_strlit(">\n");
    reveal_strlit("data-object");
    reveal_strlit(" ");
    reveal_strlit("=\"");
    reveal_strlit("\"");
    let quote = "\""@;
    assert("<g data-object=\""@ =~= "<g"@ + " "@ + "data-object"@ + "=\""@);
    assert("\">\n"@ =~= quote + ">\n"@);
    assert(group_text(label, body) =~= group_element(escaped(label), body));
}

/// The definition of a gradient under the name `g` and a number.
pub open spec fn definition_element(number: Seq<char>, key: GradientKey) -> Seq<char> {
    "<"@ + gradient_tag(key.0) + attribute("id"@, "g"@ + number) + " "@ + key.1 + "</"@
        + gradient_tag(key.0) + ">"@
}

proof fn lemma_definition_element(number: Seq<char>, key: GradientKey)
    ensures
        definition_element(number, key) == "<"@ + gradient_tag(key.0) + " id=\"g"@ + number + "\" "@
            + key.1 + "</"@ + gradient_tag(key.0) + ">"@,
{
    reveal_strlit(" id=\"g");
    reveal_strlit("\" ");
    reveal_strlit("id");
    reveal_strlit("g");
    reveal_strlit(" ");
    reveal_strlit("=\"");
    reveal_strlit("\"");
    let quote = "\""@;
    assert(" id=\"g"@ =~= " "@ + "id"@ + "=\""@ + "g"@);
    assert("\" "@ =~= quote + " "@);
    assert(definition_element(number, key) =~= "<"@ + gradient_tag(key.0) + " id=\"g"@ + number
        + "\" "@ + key.1 + "</"@ + gradient_tag(key.0) + ">"@);
}

proof fn lemma_defs_hold(keys: Seq<GradientKey>, id: int, n: int)
    requires
        0 <= id < n <= keys.len(),
    ensures
        holds(defs_text(keys, n), definition_element(decimal(id as nat), keys[id])),
    decreases n,
{
    let now = defs_text(keys, n);
    let before = defs_text(keys, n - 1);
    let none = Seq::<char>::empty();
    lemma_definition_element(decimal((n - 1) as nat), keys[n - 1]);
    let last = definition_element(decimal((n - 1) as nat), keys[n - 1]);
    assert(now =~= before + last);
    if id == n - 1 {
        lemma_holds(now, before, last, none);
    } else {
        lemma_defs_hold(keys, id, n - 1);
        let part = definition_element(decimal(id as nat), keys[id]);
        let (a, b) = choose|a: Seq<char>, b: Seq<char>| #[trigger] splits(before, a, part, b);
        lemma_holds(now, a, part, b + last);
    }
}

/// The definition that a path refers to by number is there, under that number: the path's fill
/// names it, and the definitions hold it with what belongs to its gradient.
pub open spec fn resolves(defs: Seq<char>, path: Seq<char>, id: int, key: GradientKey) -> bool {
    exists|number: Seq<char>| #[trigger]
        reads_as(number, id) && holds(defs, definition_element(number, key)) && holds(
            path,
            attribute("fill"@, "url(#g"@ + number + ")"@),
        )
}

/// References to gradients resolve.
pub proof fn law_references_resolve(keys: Seq<GradientKey>, d: Seq<char>, id: int)
    requires
        0 <= id < keys.len(),
    ensures
        resolves(defs_text(keys, keys.len() as int), gradient_path(d, id), id, keys[id]),
{
    let number = decimal(id as nat);
    law_decimals_read_back(id as nat);
    lemma_defs_hold(keys, id, keys.len() as int);
    reveal_strlit("\" fill=\"url(#g");
    reveal_strlit(")\" fill-rule=\"nonzero\"/>\n");
    reveal_strlit("\"");
    reveal_strlit(" ");
    reveal_strlit("fill");
    reveal_strlit("=\"");
    reveal_strlit("url(#g");
    reveal_strlit(")");
    reveal_strlit(" fill-rule=\"nonzero\"/>\n");
    let quote = "\""@;
    let tail = " fill-rule=\"nonzero\"/>\n"@;
    assert("\" fill=\"url(#g"@ =~= quote + " "@ + "fill"@ + "=\""@ + "url(#g"@);
    assert(")\" fill-rule=\"nonzero\"/>\n"@ =~= ")"@ + quote + tail);
    let fill = attribute("fill"@, "url(#g"@ + number + ")"@);
    let lead = "<path d=\""@ + d + quote;
    assert(gradient_path(d, id) =~= lead + fill + tail);
    lemma_holds(gradient_path(d, id), lead, fill, tail);
    assert(reads_as(number, id));
}

/// A document holds its tag, its background, its definitions and its paths, in this order, between
/// what every document begins and ends with.
pub open spec fn is_document(
    t: Seq<char>,
    open: Seq<char>,
    rect: Seq<char>,
    defs: Seq<char>,
    body: Seq<char>,
) -> bool {
    exists|lead: Seq<char>| #[trigger]
        splits(t, lead, open + rect + defs + body, "</svg>\n"@) && "<?xml"@.is_prefix_of(lead)
}

/// Documents hold what they are made of: nothing of it is left out, and it comes in its order.
pub proof fn law_documents_hold_their_parts(
    width: usize,
    height: usize,
    background: Option<[u8; 3]>,
    regions: Seq<Region>,
    layers: Seq<(String, Vec<Region>)>,
)
    ensures
        is_document(
            svg_text(width, height, background, regions),
            svg_open(width, height),
            rect_text(width, height, background),
            defs_element(gradients_after(regions, Seq::empty(), regions.len() as int)),
            body_text(regions, skip_number(background), Seq::empty()),
        ),
        is_document(
            layered_text(width, height, layers),
            svg_open(width, height),
            Seq::empty(),
            defs_element(layer_gradients(layers, layers.len() as int)),
            groups_text(layers, layers.len() as int),
        ),
{
    let xml = "<?xml version=\"1.0\" encoding=\"UTF-8\"?>\n"@;
    let end = "</svg>\n"@;
    let first = "<!-- Generator: svgit owned pipeline -->\n"@;
    let second = "<!-- Generator: svgit owned pipeline (layered) -->\n"@;
    lemma_xml(first);
    lemma_xml(second);
    let open = svg_open(width, height);
    lemma_parts(
        xml,
        first,
        open,
        rect_text(width, height, background),
        defs_element(gradients_after(regions, Seq::empty(), regions.len() as int)),
        body_text(regions, skip_number(background), Seq::empty()),
        end,
    );
    lemma_parts(
        xml,
        second,
        open,
        Seq::empty(),
        defs_element(layer_gradients(layers, layers.len() as int)),
        groups_text(layers, layers.len() as int),
        end,
    );
    let head = xml + second + open;
    assert(head + Seq::empty() =~= head);
}

proof fn lemma_xml(note: Seq<char>)
    ensures
        "<?xml"@.is_prefix_of("<?xml version=\"1.0\" encoding=\"UTF-8\"?>\n"@ + note),
{
    reveal_strlit("<?xml");
    reveal_strlit("<?xml version=\"1.0\" encoding=\"UTF-8\"?>\n");
    let t = "<?xml version=\"1.0\" encoding=\"UTF-8\"?>\n"@ + note;
    assert("<?xml"@ =~= t.subrange(0, 5));
}

/// Parts that follow each other can be taken together.
proof fn lemma_parts(
    a: Seq<char>,
    b: Seq<char>,
    c: Seq<char>,
    d: Seq<char>,
    e: Seq<char>,
    f: Seq<char>,
    g: Seq<char>,
)
    ensures
        splits(a + b + c + d + e + f + g, a + b, c + d + e + f, g),
{
    assert(a + b + c + d + e + f + g =~= (a + b) + (c + d + e + f) + g);
}

} // verus!
