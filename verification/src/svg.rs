//! SVG serialization, plus the geometry types the contour and curve-fit stages
//! produce.
//!
//! Emits one `<path>` per color (holes are extra subpaths in the same path,
//! rendered with the nonzero fill rule thanks to their opposite winding). An
//! optional background `<rect>` lets the caller drop the single largest region,
//! which the others then stack on top of — keeping the path count low.

use vstd::prelude::*;

use crate::contour::Pt;
use crate::text::{attr_escape, hex, push_decimal, push_hundredths};
use crate::text::{decimal, escaped, hex_text, hundredths_text};

verus! {

/// A coordinate as it is written: a whole number of hundredths.
#[derive(Debug, Clone, Copy, PartialEq, Eq, Structural)]
pub struct Coord {
    pub hundredths: i128,
}

pub type Ptf = (Coord, Coord);

/// A single path segment. Polygon output uses only `Line`; curve fitting emits
/// `Cubic` (two control points + endpoint; the start point is implicit).
pub enum Seg {
    Line(Ptf),
    Cubic(Ptf, Ptf, Ptf),
}

/// A closed subpath: a start point followed by segments back around to it.
pub struct Subpath {
    pub start: Ptf,
    pub segs: Vec<Seg>,
}

/// A linear (axial) gradient fill in user space: a color ramp along the segment
/// `(x1,y1)→(x2,y2)`, with stops at offsets in `[0,1]`.
#[derive(Clone)]
pub struct LinearGradient {
    pub x1: Coord,
    pub y1: Coord,
    pub x2: Coord,
    pub y2: Coord,
    pub stops: Vec<(Coord, [u8; 3])>,
}

/// A radial gradient fill in user space: concentric rings of color centred at
/// `(cx,cy)`, the stops mapped across radius `0..r`.
#[derive(Clone)]
pub struct RadialGradient {
    pub cx: Coord,
    pub cy: Coord,
    pub r: Coord,
    pub stops: Vec<(Coord, [u8; 3])>,
}

/// How a region is painted: a flat color (the common case, merged by color in
/// the output) or a fitted gradient (emitted as its own `<path>` referencing a
/// `<linearGradient>`/`<radialGradient>` in `<defs>`; identical gradients shared
/// by several regions — e.g. merged quantization bands — collapse to one def).
#[derive(Clone)]
pub enum Fill {
    Solid([u8; 3]),
    Linear(LinearGradient),
    Radial(RadialGradient),
}

pub struct Region {
    pub fill: Fill,
    /// Outer subpath plus any hole subpaths.
    pub subpaths: Vec<Subpath>,
}

/// The coordinate of a whole number.
pub open spec fn whole(v: int) -> Coord {
    Coord { hundredths: (v * 100) as i128 }
}

/// The lattice corner as a point.
pub open spec fn corner_point(p: Pt) -> Ptf {
    (whole(p.0 as int), whole(p.1 as int))
}

fn point_of(p: Pt) -> (q: Ptf)
    ensures
        q == corner_point(p),
{
    (Coord { hundredths: p.0 as i128 * 100 }, Coord { hundredths: p.1 as i128 * 100 })
}

/// Build a closed polygon subpath (all line segments) from integer corners.
pub fn polygon_subpath(pts: &[Pt]) -> (sp: Subpath)
    requires
        pts@.len() > 0,
    ensures
        sp.start == corner_point(pts@[0]),
        sp.segs@ == pts@.drop_first().map_values(|p: Pt| Seg::Line(corner_point(p))),
{
    let mut segs: Vec<Seg> = Vec::new();
    let mut i: usize = 1;
    while i < pts.len()
        invariant
            1 <= i <= pts@.len(),
            segs@.len() == i - 1,
            forall|j: int|
                0 <= j < segs@.len() ==> #[trigger] segs@[j] == Seg::Line(
                    corner_point(pts@[j + 1]),
                ),
        decreases pts@.len() - i,
    {
        segs.push(Seg::Line(point_of(pts[i])));
        i = i + 1;
    }
    assert(segs@ =~= pts@.drop_first().map_values(|p: Pt| Seg::Line(corner_point(p))));
    Subpath { start: point_of(pts[0]), segs }
}

/// Build a closed polygon subpath from float corners (e.g. edge-snapped points).
pub fn polygon_subpath_f(pts: &[Ptf]) -> (sp: Subpath)
    ensures
        pts@.len() == 0 ==> sp.start == (whole(0), whole(0)) && sp.segs@.len() == 0,
        pts@.len() > 0 ==> sp.start == pts@[0] && sp.segs@ == pts@.drop_first().map_values(
            |p: Ptf| Seg::Line(p),
        ),
{
    let mut segs: Vec<Seg> = Vec::new();
    if pts.len() == 0 {
        return Subpath { start: (Coord { hundredths: 0 }, Coord { hundredths: 0 }), segs };
    }
    let mut i: usize = 1;
    while i < pts.len()
        invariant
            1 <= i <= pts@.len(),
            segs@.len() == i - 1,
            forall|j: int|
                0 <= j < segs@.len() ==> #[trigger] segs@[j] == Seg::Line(pts@[j + 1]),
        decreases pts@.len() - i,
    {
        segs.push(Seg::Line(pts[i]));
        i = i + 1;
    }
    assert(segs@ =~= pts@.drop_first().map_values(|p: Ptf| Seg::Line(p)));
    Subpath { start: pts[0], segs }
}

/// A coordinate as text.
pub open spec fn coord_text(v: Coord) -> Seq<char> {
    hundredths_text(v.hundredths as int)
}

/// A point as text.
pub open spec fn point_text(p: Ptf) -> Seq<char> {
    coord_text(p.0) + " "@ + coord_text(p.1)
}

/// A segment as path data.
pub open spec fn seg_text(seg: Seg) -> Seq<char> {
    match seg {
        Seg::Line(p) => "L"@ + point_text(p),
        Seg::Cubic(a, b, e) => "C"@ + point_text(a) + " "@ + point_text(b) + " "@ + point_text(e),
    }
}

/// The first `n` segments as path data.
pub open spec fn segs_text(segs: Seq<Seg>, n: int) -> Seq<char>
    decreases n,
{
    if n <= 0 {
        Seq::empty()
    } else {
        segs_text(segs, n - 1) + seg_text(segs[n - 1])
    }
}

/// A subpath as path data; one with fewer than two segments encloses nothing and is left out.
pub open spec fn subpath_text(sp: Subpath) -> Seq<char> {
    if sp.segs@.len() < 2 {
        Seq::empty()
    } else {
        "M"@ + point_text(sp.start) + segs_text(sp.segs@, sp.segs@.len() as int) + "Z"@
    }
}

/// The first `n` subpaths as path data.
pub open spec fn subpaths_text(sps: Seq<Subpath>, n: int) -> Seq<char>
    decreases n,
{
    if n <= 0 {
        Seq::empty()
    } else {
        subpaths_text(sps, n - 1) + subpath_text(sps[n - 1])
    }
}

/// The path data of a region.
pub open spec fn region_text(r: Region) -> Seq<char> {
    subpaths_text(r.subpaths@, r.subpaths@.len() as int)
}

/// Format a coordinate with up to 2 decimals, trimming trailing zeros.
pub fn fnum(v: Coord) -> (s: String)
    ensures
        s@ == coord_text(v),
{
    let mut s: String = String::new();
    push_hundredths(&mut s, v.hundredths);
    assert(s@ =~= coord_text(v));
    s
}

fn write_point(d: &mut String, p: Ptf)
    ensures
        final(d)@ == old(d)@ + point_text(p),
{
    let ghost before = d@;
    d.append(fnum(p.0).as_str());
    d.append(" ");
    d.append(fnum(p.1).as_str());
    assert(d@ =~= before + point_text(p));
}

fn write_seg(d: &mut String, seg: &Seg)
    ensures
        final(d)@ == old(d)@ + seg_text(*seg),
{
    let ghost before = d@;
    match seg {
        Seg::Line(p) => {
            d.append("L");
            write_point(d, *p);
        },
        Seg::Cubic(a, b, e) => {
            d.append("C");
            write_point(d, *a);
            d.append(" ");
            write_point(d, *b);
            d.append(" ");
            write_point(d, *e);
        },
    }
    assert(d@ =~= before + seg_text(*seg));
}

fn write_subpath(d: &mut String, sp: &Subpath)
    ensures
        final(d)@ == old(d)@ + subpath_text(*sp),
{
    let ghost before = d@;
    if sp.segs.len() < 2 {
        assert(d@ =~= before + subpath_text(*sp));
        return;
    }
    d.append("M");
    write_point(d, sp.start);
    let ghost head = "M"@ + point_text(sp.start);
    assert(d@ =~= before + head + segs_text(sp.segs@, 0));
    let mut i: usize = 0;
    while i < sp.segs.len()
        invariant
            i <= sp.segs@.len(),
            d@ == before + head + segs_text(sp.segs@, i as int),
        decreases sp.segs@.len() - i,
    {
        write_seg(d, &sp.segs[i]);
        assert(d@ =~= before + head + segs_text(sp.segs@, i + 1));
        i = i + 1;
    }
    d.append("Z");
    assert(d@ =~= before + subpath_text(*sp));
}

fn write_subpaths(d: &mut String, sps: &Vec<Subpath>)
    ensures
        final(d)@ == old(d)@ + subpaths_text(sps@, sps@.len() as int),
{
    let ghost before = d@;
    let mut i: usize = 0;
    assert(d@ =~= before + subpaths_text(sps@, 0));
    while i < sps.len()
        invariant
            i <= sps@.len(),
            d@ == before + subpaths_text(sps@, i as int),
        decreases sps@.len() - i,
    {
        write_subpath(d, &sps[i]);
        assert(d@ =~= before + subpaths_text(sps@, i + 1));
        i = i + 1;
    }
}

/// A colour as `#rrggbb`.
pub open spec fn color_hex(c: [u8; 3]) -> Seq<char> {
    hex_text(c[0], c[1], c[2])
}

/// The first `n` gradient stops as elements.
pub open spec fn stops_text(stops: Seq<(Coord, [u8; 3])>, n: int) -> Seq<char>
    decreases n,
{
    if n <= 0 {
        Seq::empty()
    } else {
        stops_text(stops, n - 1) + "<stop offset=\""@ + coord_text(stops[n - 1].0)
            + "\" stop-color=\""@ + color_hex(stops[n - 1].1) + "\"/>"@
    }
}

fn write_stops(s: &mut String, stops: &Vec<(Coord, [u8; 3])>)
    ensures
        final(s)@ == old(s)@ + stops_text(stops@, stops@.len() as int),
{
    let ghost before = s@;
    let mut i: usize = 0;
    assert(s@ =~= before + stops_text(stops@, 0));
    while i < stops.len()
        invariant
            i <= stops@.len(),
            s@ == before + stops_text(stops@, i as int),
        decreases stops@.len() - i,
    {
        let (off, c): (Coord, [u8; 3]) = stops[i];
        s.append("<stop offset=\"");
        s.append(fnum(off).as_str());
        s.append("\" stop-color=\"");
        s.append(hex(c).as_str());
        s.append("\"/>");
        assert(s@ =~= before + stops_text(stops@, i + 1));
        i = i + 1;
    }
}

/// The element name of a gradient fill.
pub open spec fn gradient_tag(radial: bool) -> Seq<char> {
    if radial {
        "radialGradient"@
    } else {
        "linearGradient"@
    }
}

/// What stands in a gradient element after its id: attributes, `>` and stops.
pub open spec fn gradient_inner(fill: Fill) -> Seq<char> {
    match fill {
        Fill::Solid(_) => Seq::empty(),
        Fill::Linear(g) => "gradientUnits=\"userSpaceOnUse\" x1=\""@ + coord_text(g.x1)
            + "\" y1=\""@ + coord_text(g.y1) + "\" x2=\""@ + coord_text(g.x2) + "\" y2=\""@
            + coord_text(g.y2) + "\">"@ + stops_text(g.stops@, g.stops@.len() as int),
        Fill::Radial(g) => "gradientUnits=\"userSpaceOnUse\" cx=\""@ + coord_text(g.cx)
            + "\" cy=\""@ + coord_text(g.cy) + "\" r=\""@ + coord_text(g.r) + "\">"@ + stops_text(
            g.stops@,
            g.stops@.len() as int,
        ),
    }
}

/// Whether a gradient is radial, and what stands in its element: equal for two gradients
/// exactly if they can share a definition.
pub type GradientKey = (bool, Seq<char>);

/// The key of a gradient fill.
pub open spec fn gradient_key(fill: Fill) -> GradientKey {
    (fill is Radial, gradient_inner(fill))
}

/// The element name plus everything after the `id="…"` (attributes, `>`, stops),
/// for a gradient fill. The returned string doubles as a dedup key: two regions
/// with byte-identical geometry+stops (e.g. merged quantization bands sharing one
/// fitted gradient) produce the same key and thus share a single `<defs>` entry.
fn grad_inner(fill: &Fill) -> (r: (bool, String))
    ensures
        r.0 == gradient_key(*fill).0,
        r.1@ == gradient_key(*fill).1,
{
    let mut s: String = String::new();
    match fill {
        Fill::Linear(g) => {
            s.append("gradientUnits=\"userSpaceOnUse\" x1=\"");
            s.append(fnum(g.x1).as_str());
            s.append("\" y1=\"");
            s.append(fnum(g.y1).as_str());
            s.append("\" x2=\"");
            s.append(fnum(g.x2).as_str());
            s.append("\" y2=\"");
            s.append(fnum(g.y2).as_str());
            s.append("\">");
            write_stops(&mut s, &g.stops);
            assert(s@ =~= gradient_inner(*fill));
            (false, s)
        },
        Fill::Radial(g) => {
            s.append("gradientUnits=\"userSpaceOnUse\" cx=\"");
            s.append(fnum(g.cx).as_str());
            s.append("\" cy=\"");
            s.append(fnum(g.cy).as_str());
            s.append("\" r=\"");
            s.append(fnum(g.r).as_str());
            s.append("\">");
            write_stops(&mut s, &g.stops);
            assert(s@ =~= gradient_inner(*fill));
            (true, s)
        },
        Fill::Solid(_) => (false, s),
    }
}

/// The gradient definitions needed by the first `n` regions, after those of `keys`: one for
/// each gradient that paints something and is not defined yet.
pub open spec fn gradients_after(regions: Seq<Region>, keys: Seq<GradientKey>, n: int) -> Seq<
    GradientKey,
>
    decreases n,
{
    if n <= 0 {
        keys
    } else {
        let before = gradients_after(regions, keys, n - 1);
        let r = regions[n - 1];
        if !(r.fill is Solid) && region_text(r).len() > 0 && !before.contains(
            gradient_key(r.fill),
        ) {
            before.push(gradient_key(r.fill))
        } else {
            before
        }
    }
}

/// Definition `i` is the first with this key.
pub open spec fn is_definition(keys: Seq<GradientKey>, key: GradientKey, i: int) -> bool {
    0 <= i < keys.len() && keys[i] == key && forall|j: int| 0 <= j < i ==> #[trigger] keys[j] != key
}

/// The number of the definition with this key.
pub open spec fn definition_of(keys: Seq<GradientKey>, key: GradientKey) -> int {
    choose|i: int| is_definition(keys, key, i)
}

/// The elements of the first `n` gradient definitions.
pub open spec fn defs_text(keys: Seq<GradientKey>, n: int) -> Seq<char>
    decreases n,
{
    if n <= 0 {
        Seq::empty()
    } else {
        let (radial, inner) = keys[n - 1];
        defs_text(keys, n - 1) + "<"@ + gradient_tag(radial) + " id=\"g"@ + decimal((n - 1) as nat)
            + "\" "@ + inner + "</"@ + gradient_tag(radial) + ">"@
    }
}

/// The path element with data `d` that is painted with gradient definition `id`.
pub open spec fn gradient_path(d: Seq<char>, id: int) -> Seq<char> {
    "<path d=\""@ + d + "\" fill=\"url(#g"@ + decimal(id as nat)
        + ")\" fill-rule=\"nonzero\"/>\n"@
}

/// The path elements of the gradient regions among the first `n` regions, in their order.
pub open spec fn gradient_paths(regions: Seq<Region>, keys: Seq<GradientKey>, n: int) -> Seq<char>
    decreases n,
{
    if n <= 0 {
        Seq::empty()
    } else {
        let before = gradient_paths(regions, keys, n - 1);
        let r = regions[n - 1];
        if !(r.fill is Solid) && region_text(r).len() > 0 {
            before + gradient_path(region_text(r), definition_of(keys, gradient_key(r.fill)))
        } else {
            before
        }
    }
}

/// A colour as one number, red in the highest byte.
pub open spec fn color_number(c: [u8; 3]) -> u32 {
    (c[0] * 0x1_0000 + c[1] * 0x100 + c[2]) as u32
}

/// Whether a region is painted flat in the colour with number `c`.
pub open spec fn is_solid(r: Region, c: u32) -> bool {
    r.fill matches Fill::Solid(color) && color_number(color) == c
}

/// The path data of those of the first `n` regions that are painted flat in colour `c`.
pub open spec fn color_text(regions: Seq<Region>, c: u32, n: int) -> Seq<char>
    decreases n,
{
    if n <= 0 {
        Seq::empty()
    } else {
        let before = color_text(regions, c, n - 1);
        if is_solid(regions[n - 1], c) {
            before + region_text(regions[n - 1])
        } else {
            before
        }
    }
}

/// The path elements of the flat colours below number `c`, in ascending order: one for each
/// colour that has path data and is not the one to skip.
pub open spec fn solid_paths(regions: Seq<Region>, skip: Option<u32>, c: int) -> Seq<char>
    decreases c,
{
    if c <= 0 {
        Seq::empty()
    } else {
        let before = solid_paths(regions, skip, c - 1);
        let color = (c - 1) as u32;
        let data = color_text(regions, color, regions.len() as int);
        if skip != Some(color) && data.len() > 0 {
            before + "<path d=\""@ + data + "\" fill=\""@ + hex_text(
                (color / 0x1_0000) as u8,
                (color / 0x100 % 0x100) as u8,
                (color % 0x100) as u8,
            ) + "\" fill-rule=\"nonzero\"/>\n"@
        } else {
            before
        }
    }
}

/// The path elements of a list of regions.
pub open spec fn body_text(
    regions: Seq<Region>,
    skip: Option<u32>,
    keys: Seq<GradientKey>,
) -> Seq<char> {
    let n = regions.len() as int;
    solid_paths(regions, skip, 0x100_0000) + gradient_paths(
        regions,
        gradients_after(regions, keys, n),
        n,
    )
}

/// The number of the colour to skip.
pub open spec fn skip_number(skip: Option<[u8; 3]>) -> Option<u32> {
    match skip {
        Some(c) => Some(color_number(c)),
        None => None,
    }
}

fn number_of(c: [u8; 3]) -> (k: u32)
    ensures
        k == color_number(c),
        k < 0x100_0000,
        (k / 0x1_0000) as u8 == c[0],
        (k / 0x100 % 0x100) as u8 == c[1],
        (k % 0x100) as u8 == c[2],
{
    c[0] as u32 * 0x1_0000 + c[1] as u32 * 0x100 + c[2] as u32
}

/// The gradient definitions so far; the place of a definition is its number.
pub struct Gradients {
    list: Vec<(bool, String)>,
}

impl View for Gradients {
    type V = Seq<GradientKey>;

    closed spec fn view(&self) -> Seq<GradientKey> {
        self.list@.map_values(|g: (bool, String)| (g.0, g.1@))
    }
}

impl Gradients {
    /// No definitions.
    pub fn new() -> (g: Self)
        ensures
            g@ == Seq::<GradientKey>::empty(),
    {
        let g = Gradients { list: Vec::new() };
        assert(g@ =~= Seq::<GradientKey>::empty());
        g
    }

    /// The number of the definition for a gradient fill, which is added if it is new.
    fn number(&mut self, fill: &Fill) -> (id: usize)
        ensures
            final(self)@ == if old(self)@.contains(gradient_key(*fill)) {
                old(self)@
            } else {
                old(self)@.push(gradient_key(*fill))
            },
            is_definition(final(self)@, gradient_key(*fill), id as int),
    {
        let (radial, inner): (bool, String) = grad_inner(fill);
        let ghost key = gradient_key(*fill);
        let ghost before = self@;
        let n: usize = self.list.len();
        let mut i: usize = 0;
        while i < n
            invariant
                n == self.list@.len(),
                self@ == before,
                before == old(self)@,
                key == gradient_key(*fill),
                key == (radial, inner@),
                i <= n,
                forall|j: int| 0 <= j < i ==> #[trigger] self@[j] != key,
            decreases n - i,
        {
            let entry: &(bool, String) = &self.list[i];
            if entry.0 == radial && entry.1 == inner {
                proof {
                    assert(self@[i as int] == key);
                    assert(before.contains(key));
                    assert(is_definition(self@, key, i as int));
                }
                return i;
            }
            assert(self@[i as int] != key);
            i = i + 1;
        }
        self.list.push((radial, inner));
        proof {
            assert(self@ =~= before.push(key));
            assert(is_definition(self@, key, n as int));
        }
        n
    }

    /// The elements of all definitions.
    fn write_defs(&self) -> (s: String)
        ensures
            s@ == defs_text(self@, self@.len() as int),
    {
        let mut s: String = String::new();
        let mut i: usize = 0;
        while i < self.list.len()
            invariant
                i <= self.list@.len(),
                self@.len() == self.list@.len(),
                s@ == defs_text(self@, i as int),
            decreases self.list@.len() - i,
        {
            let ghost before = s@;
            let entry: &(bool, String) = &self.list[i];
            let tag: &str = if entry.0 {
                "radialGradient"
            } else {
                "linearGradient"
            };
            s.append("<");
            s.append(tag);
            s.append(" id=\"g");
            push_decimal(&mut s, i as u128);
            s.append("\" ");
            s.append(entry.1.as_str());
            s.append("</");
            s.append(tag);
            s.append(">");
            proof {
                assert(self@[i as int] == (entry.0, entry.1@));
                assert(tag@ == gradient_tag(entry.0));
                assert(s@ =~= before + "<"@ + gradient_tag(entry.0) + " id=\"g"@ + decimal(i as nat)
                    + "\" "@ + entry.1@ + "</"@ + gradient_tag(entry.0) + ">"@);
            }
            i = i + 1;
        }
        s
    }
}

/// The path data gathered for one flat colour.
struct Bucket {
    number: u32,
    color: [u8; 3],
    data: String,
}

/// One bucket, in ascending order of colour, for each flat colour of the first `n` regions but
/// the one to skip.
spec fn gathered(buckets: Seq<Bucket>, regions: Seq<Region>, skip: Option<u32>, n: int) -> bool {
    &&& forall|i: int|
        0 <= i < buckets.len() ==> {
            let b = #[trigger] buckets[i];
            &&& b.number == color_number(b.color)
            &&& skip != Some(b.number)
            &&& b.data@ == color_text(regions, b.number, n)
        }
    &&& forall|i: int, j: int|
        0 <= i < j < buckets.len() ==> (#[trigger] buckets[i]).number < (
        #[trigger] buckets[j]).number
    &&& forall|c: u32|
        skip != Some(c) && (#[trigger] color_text(regions, c, n)).len() > 0 ==> has_bucket(
            buckets,
            c,
        )
}

spec fn has_bucket(buckets: Seq<Bucket>, c: u32) -> bool {
    exists|i: int| 0 <= i < buckets.len() && (#[trigger] buckets[i]).number == c
}

/// Adds the path data of region `n` to the bucket of its colour.
fn gather_solid(
    buckets: &mut Vec<Bucket>,
    regions: &[Region],
    n: usize,
    color: [u8; 3],
    Ghost(skip): Ghost<Option<u32>>,
)
    requires
        n < regions@.len(),
        regions@[n as int].fill == Fill::Solid(color),
        skip != Some(color_number(color)),
        gathered(old(buckets)@, regions@, skip, n as int),
    ensures
        gathered(final(buckets)@, regions@, skip, n + 1),
{
    let c: u32 = number_of(color);
    let ghost before = buckets@;
    let mut pos: usize = 0;
    while pos < buckets.len() && buckets[pos].number < c
        invariant
            buckets@ == before,
            pos <= buckets@.len(),
            forall|j: int| 0 <= j < pos ==> (#[trigger] before[j]).number < c,
        decreases buckets@.len() - pos,
    {
        pos = pos + 1;
    }
    let mut bucket: Bucket = if pos < buckets.len() && buckets[pos].number == c {
        buckets.remove(pos)
    } else {
        proof {
            assert(!has_bucket(before, c)) by {
                if has_bucket(before, c) {
                    let i = choose|i: int|
                        0 <= i < before.len() && (#[trigger] before[i]).number == c;
                    if i > pos {
                        assert(before[pos as int].number < before[i].number);
                    }
                }
            }
            assert(color_text(regions@, c, n as int).len() == 0);
            assert(color_text(regions@, c, n as int) =~= Seq::<char>::empty());
        }
        Bucket { number: c, color, data: String::new() }
    };
    let ghost rest = buckets@;
    assert(bucket.data@ == color_text(regions@, c, n as int));
    write_subpaths(&mut bucket.data, &regions[n].subpaths);
    let ghost added = bucket;
    buckets.insert(pos, bucket);
    proof {
        let after = buckets@;
        assert(after == rest.insert(pos as int, added));
        assert(is_solid(regions@[n as int], c));
        assert(added.data@ == color_text(regions@, c, n + 1));
        assert(after[pos as int] == added);
        assert forall|i: int| 0 <= i < after.len() implies ({
            let b = #[trigger] after[i];
            &&& b.number == color_number(b.color)
            &&& skip != Some(b.number)
            &&& b.data@ == color_text(regions@, b.number, n + 1)
        }) && (i < pos ==> after[i].number < c) && (i > pos ==> after[i].number > c) by {
            if i < pos {
                assert(after[i] == before[i]);
            } else if i > pos {
                assert(after[i] == rest[i - 1]);
                if rest.len() == before.len() {
                    assert(after[i] == before[i - 1]);
                    if i - 1 > pos {
                        assert(before[pos as int].number < before[i - 1].number);
                    }
                } else {
                    assert(after[i] == before[i]);
                    assert(before[pos as int].number < before[i].number);
                }
            }
        }
        assert forall|i: int, j: int| 0 <= i < j < after.len() implies (
        #[trigger] after[i]).number < (#[trigger] after[j]).number by {
            let shift: int = if rest.len() == before.len() {
                1
            } else {
                0
            };
            if i < pos && j < pos {
                assert(after[i] == before[i] && after[j] == before[j]);
            } else if i > pos {
                assert(after[i] == before[i - shift] && after[j] == before[j - shift]);
            }
        }
        assert forall|k: u32|
            skip != Some(k) && (#[trigger] color_text(regions@, k, n + 1)).len()
                > 0 implies has_bucket(after, k) by {
            if k == c {
                assert(after[pos as int].number == c);
            } else {
                assert(color_text(regions@, k, n + 1) == color_text(regions@, k, n as int));
                let i = choose|i: int| 0 <= i < before.len() && (#[trigger] before[i]).number == k;
                if i < pos {
                    assert(after[i] == before[i]);
                } else if rest.len() == before.len() {
                    assert(after[i + 1] == before[i]);
                } else {
                    assert(after[i] == before[i]);
                }
            }
        }
    }
}

proof fn lemma_solid_gap(regions: Seq<Region>, skip: Option<u32>, a: int, b: int)
    requires
        0 <= a <= b <= 0x100_0000,
        forall|c: u32|
            a <= c < b && skip != Some(c) ==> (#[trigger] color_text(
                regions,
                c,
                regions.len() as int,
            )).len() == 0,
    ensures
        solid_paths(regions, skip, b) == solid_paths(regions, skip, a),
    decreases b - a,
{
    if a < b {
        lemma_solid_gap(regions, skip, a, b - 1);
        let c = (b - 1) as u32;
        assert(skip != Some(c) ==> color_text(regions, c, regions.len() as int).len() == 0);
    }
}

/// Writes one path element for each bucket with path data.
fn write_solids(
    buckets: &Vec<Bucket>,
    Ghost(regions): Ghost<Seq<Region>>,
    Ghost(skip): Ghost<Option<u32>>,
) -> (body: String)
    requires
        gathered(buckets@, regions, skip, regions.len() as int),
    ensures
        body@ == solid_paths(regions, skip, 0x100_0000),
{
    let ghost n = regions.len() as int;
    let mut body: String = String::new();
    let mut i: usize = 0;
    let ghost mut done: int = 0;
    while i < buckets.len()
        invariant
            gathered(buckets@, regions, skip, n),
            n == regions.len(),
            i <= buckets@.len(),
            0 <= done <= 0x100_0000,
            done == if i == 0 {
                0
            } else {
                buckets@[i - 1].number + 1
            },
            body@ == solid_paths(regions, skip, done),
        decreases buckets@.len() - i,
    {
        let b: &Bucket = &buckets[i];
        let number: u32 = number_of(b.color);
        proof {
            assert(number == b.number);
            lemma_between(buckets@, regions, skip, i as int, done, number as int);
            lemma_solid_gap(regions, skip, done, number as int);
            done = number + 1;
            assert(color_text(regions, number, n) == b.data@);
        }
        let ghost before = body@;
        if !b.data.as_str().is_empty() {
            body.append("<path d=\"");
            body.append(b.data.as_str());
            body.append("\" fill=\"");
            body.append(hex(b.color).as_str());
            body.append("\" fill-rule=\"nonzero\"/>\n");
        }
        assert(body@ =~= solid_paths(regions, skip, done));
        i = i + 1;
    }
    proof {
        lemma_between(buckets@, regions, skip, i as int, done, 0x100_0000);
        lemma_solid_gap(regions, skip, done, 0x100_0000);
    }
    body
}

/// No colour between two neighbouring buckets has path data.
proof fn lemma_between(
    buckets: Seq<Bucket>,
    regions: Seq<Region>,
    skip: Option<u32>,
    i: int,
    a: int,
    b: int,
)
    requires
        gathered(buckets, regions, skip, regions.len() as int),
        0 <= i <= buckets.len(),
        a == if i == 0 {
            0
        } else {
            buckets[i - 1].number + 1
        },
        i < buckets.len() ==> b == buckets[i].number,
    ensures
        i < buckets.len() ==> a <= b,
        forall|c: u32|
            a <= c < b && skip != Some(c) ==> (#[trigger] color_text(
                regions,
                c,
                regions.len() as int,
            )).len() == 0,
{
    assert forall|c: u32| a <= c < b && skip != Some(c) implies (#[trigger] color_text(
        regions,
        c,
        regions.len() as int,
    )).len() == 0 by {
        if color_text(regions, c, regions.len() as int).len() > 0 {
            let k = choose|k: int| 0 <= k < buckets.len() && (#[trigger] buckets[k]).number == c;
            if k < i - 1 {
                assert(buckets[k].number < buckets[i - 1].number);
            }
            if k > i {
                assert(buckets[i].number < buckets[k].number);
            }
        }
    }
    if 0 < i < buckets.len() {
        assert(buckets[i - 1].number < buckets[i].number);
    }
}

proof fn lemma_definition_unique(keys: Seq<GradientKey>, key: GradientKey, i: int, j: int)
    requires
        is_definition(keys, key, i),
        is_definition(keys, key, j),
    ensures
        i == j,
{
    if i < j {
        assert(keys[i] != key);
    } else if j < i {
        assert(keys[j] != key);
    }
}

pub proof fn lemma_definition_exists(keys: Seq<GradientKey>, key: GradientKey, n: int) -> (i: int)
    requires
        0 <= n < keys.len(),
        keys[n] == key,
    ensures
        is_definition(keys, key, i),
        i == definition_of(keys, key),
    decreases n,
{
    let i: int = if exists|j: int| 0 <= j < n && #[trigger] keys[j] == key {
        let j = choose|j: int| 0 <= j < n && #[trigger] keys[j] == key;
        lemma_definition_exists(keys, key, j)
    } else {
        assert(is_definition(keys, key, n));
        n
    };
    lemma_definition_unique(keys, key, i, definition_of(keys, key));
    i
}

/// A definition keeps its number when another is added.
proof fn lemma_definition_stays(keys: Seq<GradientKey>, key: GradientKey, added: GradientKey)
    requires
        keys.contains(key),
    ensures
        definition_of(keys.push(added), key) == definition_of(keys, key),
        keys.push(added).contains(key),
{
    let n = choose|n: int| 0 <= n < keys.len() && keys[n] == key;
    let i = lemma_definition_exists(keys, key, n);
    let more = keys.push(added);
    assert(more[i] == key);
    assert forall|j: int| 0 <= j < i implies #[trigger] more[j] != key by {
        assert(more[j] == keys[j]);
    }
    assert(is_definition(more, key, i));
    lemma_definition_unique(more, key, i, definition_of(more, key));
}

/// Every gradient that paints something is defined.
spec fn all_defined(regions: Seq<Region>, keys: Seq<GradientKey>, n: int) -> bool {
    forall|i: int|
        0 <= i < n && !((#[trigger] regions[i]).fill is Solid) && region_text(regions[i]).len() > 0
            ==> keys.contains(gradient_key(regions[i].fill))
}

proof fn lemma_gradient_paths_stay(
    regions: Seq<Region>,
    keys: Seq<GradientKey>,
    added: GradientKey,
    n: int,
)
    requires
        all_defined(regions, keys, n),
    ensures
        gradient_paths(regions, keys.push(added), n) == gradient_paths(regions, keys, n),
        all_defined(regions, keys.push(added), n),
    decreases n,
{
    if n > 0 {
        lemma_gradient_paths_stay(regions, keys, added, n - 1);
        let r = regions[n - 1];
        if !(r.fill is Solid) && region_text(r).len() > 0 {
            lemma_definition_stays(keys, gradient_key(r.fill), added);
        }
    }
}

/// A region that is not gathered leaves the buckets as they are.
proof fn lemma_gathered_skip(
    buckets: Seq<Bucket>,
    regions: Seq<Region>,
    skip: Option<u32>,
    n: int,
)
    requires
        0 <= n < regions.len(),
        gathered(buckets, regions, skip, n),
        regions[n].fill matches Fill::Solid(c) ==> skip == Some(color_number(c)),
    ensures
        gathered(buckets, regions, skip, n + 1),
{
    assert forall|c: u32| skip != Some(c) implies #[trigger] color_text(regions, c, n + 1)
        == color_text(regions, c, n) by {
        assert(!is_solid(regions[n], c));
    }
    assert forall|i: int| 0 <= i < buckets.len() implies ({
        let b = #[trigger] buckets[i];
        &&& b.number == color_number(b.color)
        &&& skip != Some(b.number)
        &&& b.data@ == color_text(regions, b.number, n + 1)
    }) by {
        assert(color_text(regions, buckets[i].number, n + 1) == color_text(
            regions,
            buckets[i].number,
            n,
        ));
    }
}

/// The state of rendering after the first `n` regions.
spec fn rendered(
    buckets: Seq<Bucket>,
    grad_body: Seq<char>,
    grads: Seq<GradientKey>,
    regions: Seq<Region>,
    skip: Option<u32>,
    keys: Seq<GradientKey>,
    n: int,
) -> bool {
    &&& gathered(buckets, regions, skip, n)
    &&& grads == gradients_after(regions, keys, n)
    &&& all_defined(regions, grads, n)
    &&& grad_body == gradient_paths(regions, grads, n)
}

proof fn lemma_gradient_step(
    regions: Seq<Region>,
    keys: Seq<GradientKey>,
    before: Seq<GradientKey>,
    after: Seq<GradientKey>,
    i: int,
    id: int,
)
    requires
        0 <= i < regions.len(),
        !(regions[i].fill is Solid),
        region_text(regions[i]).len() > 0,
        before == gradients_after(regions, keys, i),
        all_defined(regions, before, i),
        after == if before.contains(gradient_key(regions[i].fill)) {
            before
        } else {
            before.push(gradient_key(regions[i].fill))
        },
        is_definition(after, gradient_key(regions[i].fill), id),
    ensures
        after == gradients_after(regions, keys, i + 1),
        all_defined(regions, after, i + 1),
        gradient_paths(regions, after, i) == gradient_paths(regions, before, i),
        definition_of(after, gradient_key(regions[i].fill)) == id,
{
    let key = gradient_key(regions[i].fill);
    if !before.contains(key) {
        lemma_gradient_paths_stay(regions, before, key, i);
        assert(after[before.len() as int] == key);
    }
    assert(after.contains(key));
    lemma_definition_unique(after, key, id, definition_of(after, key));
}

/// Appends a path element that is painted with a gradient definition.
fn write_gradient_path(out: &mut String, d: &String, id: usize)
    ensures
        final(out)@ == old(out)@ + gradient_path(d@, id as int),
{
    let ghost before = out@;
    out.append("<path d=\"");
    out.append(d.as_str());
    out.append("\" fill=\"url(#g");
    push_decimal(out, id as u128);
    out.append(")\" fill-rule=\"nonzero\"/>\n");
    assert(out@ =~= before + gradient_path(d@, id as int));
}

/// Adds the path element of gradient region `i`, if it paints something.
fn render_gradient(
    regions: &[Region],
    i: usize,
    grad_body: &mut String,
    grads: &mut Gradients,
    Ghost(keys): Ghost<Seq<GradientKey>>,
)
    requires
        i < regions@.len(),
        !(regions@[i as int].fill is Solid),
        old(grads)@ == gradients_after(regions@, keys, i as int),
        all_defined(regions@, old(grads)@, i as int),
        old(grad_body)@ == gradient_paths(regions@, old(grads)@, i as int),
    ensures
        final(grads)@ == gradients_after(regions@, keys, i + 1),
        all_defined(regions@, final(grads)@, i + 1),
        final(grad_body)@ == gradient_paths(regions@, final(grads)@, i + 1),
{
    let r: &Region = &regions[i];
    let mut d: String = String::new();
    write_subpaths(&mut d, &r.subpaths);
    assert(d@ =~= region_text(*r));
    if !d.as_str().is_empty() {
        let ghost before = grads@;
        let id: usize = grads.number(&r.fill);
        proof {
            lemma_gradient_step(regions@, keys, before, grads@, i as int, id as int);
        }
        write_gradient_path(grad_body, &d, id);
    }
}

/// Adds the path data of flat region `i` to its bucket, unless its colour is to be skipped.
fn render_solid(
    regions: &[Region],
    i: usize,
    color: [u8; 3],
    skip_solid: Option<[u8; 3]>,
    buckets: &mut Vec<Bucket>,
)
    requires
        i < regions@.len(),
        regions@[i as int].fill == Fill::Solid(color),
        gathered(old(buckets)@, regions@, skip_number(skip_solid), i as int),
    ensures
        gathered(final(buckets)@, regions@, skip_number(skip_solid), i + 1),
{
    let skipped: bool = match skip_solid {
        Some(s) => number_of(s) == number_of(color),
        None => false,
    };
    if skipped {
        proof {
            lemma_gathered_skip(buckets@, regions@, skip_number(skip_solid), i as int);
        }
    } else {
        gather_solid(buckets, regions, i, color, Ghost(skip_number(skip_solid)));
    }
}

/// Render a set of regions into `<path>` elements. Solid regions are merged by
/// color into one path each (lossless — the tracer's regions tile, so z-order
/// is irrelevant); a solid region matching `skip_solid` is dropped (it's already
/// painted by a background rect). Gradient regions reference a definition of
/// `grads`; identical gradients are defined once and shared. Returns the
/// path-element body; `grads` is extended as a side effect.
pub fn render_region_paths(
    regions: &[Region],
    skip_solid: Option<[u8; 3]>,
    grads: &mut Gradients,
) -> (body: String)
    ensures
        body@ == body_text(regions@, skip_number(skip_solid), old(grads)@),
        final(grads)@ == gradients_after(regions@, old(grads)@, regions@.len() as int),
{
    let ghost keys = grads@;
    let ghost skip = skip_number(skip_solid);
    let mut buckets: Vec<Bucket> = Vec::new();
    let mut grad_body: String = String::new();
    let n: usize = regions.len();
    let mut i: usize = 0;
    while i < n
        invariant
            n == regions@.len(),
            skip == skip_number(skip_solid),
            i <= n,
            rendered(buckets@, grad_body@, grads@, regions@, skip, keys, i as int),
        decreases n - i,
    {
        match &regions[i].fill {
            Fill::Solid(c) => {
                render_solid(regions, i, *c, skip_solid, &mut buckets);
                assert(rendered(buckets@, grad_body@, grads@, regions@, skip, keys, i + 1));
            },
            _ => {
                proof {
                    lemma_gathered_skip(buckets@, regions@, skip, i as int);
                }
                render_gradient(regions, i, &mut grad_body, grads, Ghost(keys));
                assert(rendered(buckets@, grad_body@, grads@, regions@, skip, keys, i + 1));
            },
        }
        i = i + 1;
    }
    let mut body: String = write_solids(&buckets, Ghost(regions@), Ghost(skip));
    body.append(grad_body.as_str());
    body
}

/// The opening `<svg>` tag.
pub open spec fn svg_open(width: usize, height: usize) -> Seq<char> {
    "<svg xmlns=\"http://www.w3.org/2000/svg\" width=\""@ + decimal(width as nat)
        + "\" height=\""@ + decimal(height as nat) + "\" viewBox=\"0 0 "@ + decimal(width as nat)
        + " "@ + decimal(height as nat) + "\">\n"@
}

/// The background rectangle, if there is one.
pub open spec fn rect_text(width: usize, height: usize, background: Option<[u8; 3]>) -> Seq<char> {
    match background {
        None => Seq::empty(),
        Some(c) => "<rect width=\""@ + decimal(width as nat) + "\" height=\""@ + decimal(
            height as nat,
        ) + "\" fill=\""@ + color_hex(c) + "\"/>\n"@,
    }
}

/// The `<defs>` element, if there are definitions.
pub open spec fn defs_element(keys: Seq<GradientKey>) -> Seq<char> {
    let defs = defs_text(keys, keys.len() as int);
    if defs.len() == 0 {
        Seq::empty()
    } else {
        "<defs>"@ + defs + "</defs>\n"@
    }
}

/// The document for a list of regions.
pub open spec fn svg_text(
    width: usize,
    height: usize,
    background: Option<[u8; 3]>,
    regions: Seq<Region>,
) -> Seq<char> {
    let keys = Seq::<GradientKey>::empty();
    "<?xml version=\"1.0\" encoding=\"UTF-8\"?>\n"@
        + "<!-- Generator: svgit owned pipeline -->\n"@ + svg_open(width, height) + rect_text(
        width,
        height,
        background,
    ) + defs_element(gradients_after(regions, keys, regions.len() as int)) + body_text(
        regions,
        skip_number(background),
        keys,
    ) + "</svg>\n"@
}

fn write_svg_open(s: &mut String, width: usize, height: usize)
    ensures
        final(s)@ == old(s)@ + svg_open(width, height),
{
    let ghost before = s@;
    s.append("<svg xmlns=\"http://www.w3.org/2000/svg\" width=\"");
    push_decimal(s, width as u128);
    s.append("\" height=\"");
    push_decimal(s, height as u128);
    s.append("\" viewBox=\"0 0 ");
    push_decimal(s, width as u128);
    s.append(" ");
    push_decimal(s, height as u128);
    s.append("\">\n");
    assert(s@ =~= before + svg_open(width, height));
}

fn write_defs_element(s: &mut String, grads: &Gradients)
    ensures
        final(s)@ == old(s)@ + defs_element(grads@),
{
    let ghost before = s@;
    let defs: String = grads.write_defs();
    if !defs.as_str().is_empty() {
        s.append("<defs>");
        s.append(defs.as_str());
        s.append("</defs>\n");
    }
    assert(s@ =~= before + defs_element(grads@));
}

/// Build a full SVG document from regions, optionally laying the largest region
/// down as a background rectangle.
pub fn to_svg(width: usize, height: usize, background: Option<[u8; 3]>, regions: &[Region]) -> (s:
    String)
    ensures
        s@ == svg_text(width, height, background, regions@),
{
    let mut s: String = String::from_str("<?xml version=\"1.0\" encoding=\"UTF-8\"?>\n");
    s.append("<!-- Generator: svgit owned pipeline -->\n");
    write_svg_open(&mut s, width, height);
    let ghost head = s@;
    if let Some(bg) = background {
        s.append("<rect width=\"");
        push_decimal(&mut s, width as u128);
        s.append("\" height=\"");
        push_decimal(&mut s, height as u128);
        s.append("\" fill=\"");
        s.append(hex(bg).as_str());
        s.append("\"/>\n");
    }
    assert(s@ =~= head + rect_text(width, height, background));
    let mut grads: Gradients = Gradients::new();
    let body: String = render_region_paths(regions, background, &mut grads);
    write_defs_element(&mut s, &grads);
    s.append(body.as_str());
    s.append("</svg>\n");
    s
}

/// The gradient definitions after the first `n` layers.
pub open spec fn layer_gradients(layers: Seq<(String, Vec<Region>)>, n: int) -> Seq<GradientKey>
    decreases n,
{
    if n <= 0 {
        Seq::empty()
    } else {
        let regions = layers[n - 1].1@;
        gradients_after(regions, layer_gradients(layers, n - 1), regions.len() as int)
    }
}

/// The group of one layer.
pub open spec fn group_text(label: Seq<char>, body: Seq<char>) -> Seq<char> {
    "<g data-object=\""@ + escaped(label) + "\">\n"@ + body + "</g>\n"@
}

/// The groups of the first `n` layers; a layer that paints nothing gets none.
pub open spec fn groups_text(layers: Seq<(String, Vec<Region>)>, n: int) -> Seq<char>
    decreases n,
{
    if n <= 0 {
        Seq::empty()
    } else {
        let before = groups_text(layers, n - 1);
        let body = body_text(layers[n - 1].1@, None, layer_gradients(layers, n - 1));
        if body.len() == 0 {
            before
        } else {
            before + group_text(layers[n - 1].0@, body)
        }
    }
}

/// The document for a list of layers.
pub open spec fn layered_text(
    width: usize,
    height: usize,
    layers: Seq<(String, Vec<Region>)>,
) -> Seq<char> {
    let n = layers.len() as int;
    "<?xml version=\"1.0\" encoding=\"UTF-8\"?>\n"@
        + "<!-- Generator: svgit owned pipeline (layered) -->\n"@ + svg_open(width, height)
        + defs_element(layer_gradients(layers, n)) + groups_text(layers, n) + "</svg>\n"@
}

/// Appends the group of one layer.
fn write_group(groups: &mut String, label: &String, body: &String)
    ensures
        final(groups)@ == old(groups)@ + group_text(label@, body@),
{
    let ghost before = groups@;
    groups.append("<g data-object=\"");
    groups.append(attr_escape(label.as_str()).as_str());
    groups.append("\">\n");
    groups.append(body.as_str());
    groups.append("</g>\n");
    assert(groups@ =~= before + group_text(label@, body@));
}

/// The groups of all layers.
fn render_layers(layers: &[(String, Vec<Region>)], grads: &mut Gradients) -> (groups: String)
    requires
        old(grads)@ == Seq::<GradientKey>::empty(),
    ensures
        groups@ == groups_text(layers@, layers@.len() as int),
        final(grads)@ == layer_gradients(layers@, layers@.len() as int),
{
    let mut groups: String = String::new();
    let mut i: usize = 0;
    while i < layers.len()
        invariant
            i <= layers@.len(),
            grads@ == layer_gradients(layers@, i as int),
            groups@ == groups_text(layers@, i as int),
        decreases layers@.len() - i,
    {
        let layer: &(String, Vec<Region>) = &layers[i];
        let body: String = render_region_paths(layer.1.as_slice(), None, grads);
        if !body.as_str().is_empty() {
            write_group(&mut groups, &layer.0, &body);
        }
        i = i + 1;
    }
    groups
}

/// Build a full SVG document where each layer becomes a `<g data-object="...">`
/// group, emitted bottom-first. Within a layer, same-color subpaths merge into
/// one `<path>` exactly as [`to_svg`] does — so an object made of several
/// quantized colors stays a single group of color paths.
pub fn to_svg_layered(width: usize, height: usize, layers: &[(String, Vec<Region>)]) -> (s: String)
    ensures
        s@ == layered_text(width, height, layers@),
{
    let mut s: String = String::from_str("<?xml version=\"1.0\" encoding=\"UTF-8\"?>\n");
    s.append("<!-- Generator: svgit owned pipeline (layered) -->\n");
    write_svg_open(&mut s, width, height);
    let mut grads: Gradients = Gradients::new();
    let groups: String = render_layers(layers, &mut grads);
    write_defs_element(&mut s, &grads);
    s.append(groups.as_str());
    s.append("</svg>\n");
    s
}

} // verus!
