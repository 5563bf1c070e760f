//! The output tensors of a segmentation model: which is which, and how they are laid out.
//!
//! An export may emit several tensors (decoded detections, raw head feature maps,
//! a redundant coefficient tensor, and the mask prototypes). They are told apart
//! by shape: the prototypes are the rank-4 tensor with the largest spatial area;
//! the detections are the rank-3 tensor whose channel dimension equals
//! 4 (box) + 1 (score) + prototype channels.

use vstd::prelude::*;

verus! {

/// Upper bound on any single declared tensor dimension. Output shapes come from
/// the model at runtime; this rejects negative/absurd dims before they reach the
/// index math or allocations. Real exports are far under this (anchors ~21k,
/// prototype side ~256).
pub const MAX_DIM: i64 = 1_000_000;

/// Where the prototypes and the detections are among the outputs, and how big they are.
#[derive(Debug, Clone, Copy, PartialEq, Eq, Structural)]
pub struct Layout {
    /// The output that holds the prototypes, `[1, proto_c, ph, pw]`.
    pub proto: usize,
    pub proto_c: usize,
    pub ph: usize,
    pub pw: usize,
    /// The output that holds the detections.
    pub det: usize,
    pub anchors: usize,
    /// Whether the detections are `[1, channels, anchors]` rather than
    /// `[1, anchors, channels]`.
    pub channel_major: bool,
}

/// Why the outputs cannot be used.
#[derive(Debug, Clone, Copy, PartialEq, Eq, Structural)]
pub enum LayoutError {
    /// No output has rank 4.
    NoPrototypes,
    /// A dimension is not positive or too large.
    Dimension(i64),
    /// The prototype area does not fit in memory.
    PrototypeArea,
    /// The number of prototype elements does not fit in memory.
    PrototypeCount,
    /// This output does not have as many elements as its prototype shape says.
    Prototype(usize),
    /// No output of rank 3 has this many channels.
    NoDetections(usize),
    /// The number of detection elements does not fit in memory.
    DetectionCount,
    /// This output has fewer elements than this many channels and anchors take.
    Detection(usize, usize, usize),
}

/// The number of channels of a detection.
pub open spec fn channels(layout: Layout) -> int {
    layout.proto_c + 5
}

/// `v`, or the nearest number that 64 bits can hold.
pub open spec fn saturated(v: int) -> int {
    if v > i64::MAX {
        i64::MAX as int
    } else if v < i64::MIN {
        i64::MIN as int
    } else {
        v
    }
}

/// The spatial area of a shape of rank 4.
pub open spec fn area_of(shape: Seq<i64>) -> int {
    saturated(shape[2] * shape[3])
}

/// Output `i` has the largest spatial area among those of rank 4, of equal ones the last.
pub open spec fn is_prototype(shapes: Seq<Seq<i64>>, i: int) -> bool {
    &&& 0 <= i < shapes.len()
    &&& shapes[i].len() == 4
    &&& forall|j: int|
        0 <= j < shapes.len() && (#[trigger] shapes[j]).len() == 4 ==> area_of(shapes[j])
            <= area_of(shapes[i])
    &&& forall|j: int|
        i < j < shapes.len() && (#[trigger] shapes[j]).len() == 4 ==> area_of(shapes[j]) < area_of(
            shapes[i],
        )
}

/// Output `i` is of rank 3 and has `c` channels in one of the two layouts.
pub open spec fn has_channels(shapes: Seq<Seq<i64>>, c: int, i: int) -> bool {
    shapes[i].len() == 3 && (shapes[i][1] == c || shapes[i][2] == c)
}

/// Output `i` is the first of rank 3 with `c` channels.
pub open spec fn is_detection(shapes: Seq<Seq<i64>>, c: int, i: int) -> bool {
    &&& 0 <= i < shapes.len()
    &&& has_channels(shapes, c, i)
    &&& forall|j: int| 0 <= j < i ==> !#[trigger] has_channels(shapes, c, j)
}

/// A declared dimension must be a sane positive size.
pub open spec fn dim_ok(d: i64) -> bool {
    0 < d <= MAX_DIM
}

/// The layout of the prototypes, in an output of this shape and length.
pub open spec fn prototype_error(proto: int, s: Seq<i64>, len: int) -> Option<LayoutError> {
    if !dim_ok(s[1]) {
        Some(LayoutError::Dimension(s[1]))
    } else if !dim_ok(s[2]) {
        Some(LayoutError::Dimension(s[2]))
    } else if !dim_ok(s[3]) {
        Some(LayoutError::Dimension(s[3]))
    } else if s[2] * s[3] > usize::MAX {
        Some(LayoutError::PrototypeArea)
    } else if s[1] * (s[2] * s[3]) > usize::MAX {
        Some(LayoutError::PrototypeCount)
    } else if len != s[1] * (s[2] * s[3]) {
        Some(LayoutError::Prototype(proto as usize))
    } else {
        None
    }
}

/// What is wrong with the detections, in an output of this shape and length, if anything.
pub open spec fn detection_error(det: int, s: Seq<i64>, len: int, c: int) -> Option<LayoutError> {
    let a = if s[1] == c {
        s[2]
    } else {
        s[1]
    };
    if !dim_ok(a) {
        Some(LayoutError::Dimension(a))
    } else if c * a > usize::MAX {
        Some(LayoutError::DetectionCount)
    } else if len < c * a {
        Some(LayoutError::Detection(det as usize, c as usize, a as usize))
    } else {
        None
    }
}

/// The layout of outputs with these shapes and lengths, or what is wrong with them.
pub open spec fn layout_of(shapes: Seq<Seq<i64>>, lens: Seq<int>) -> Result<Layout, LayoutError> {
    if !exists|i: int| is_prototype(shapes, i) {
        Err(LayoutError::NoPrototypes)
    } else {
        let p = choose|i: int| is_prototype(shapes, i);
        match prototype_error(p, shapes[p], lens[p]) {
            Some(e) => Err(e),
            None => {
                let c = shapes[p][1] + 5;
                if !exists|i: int| is_detection(shapes, c, i) {
                    Err(LayoutError::NoDetections(c as usize))
                } else {
                    let d = choose|i: int| is_detection(shapes, c, i);
                    match detection_error(d, shapes[d], lens[d], c) {
                        Some(e) => Err(e),
                        None => Ok(
                            Layout {
                                proto: p as usize,
                                proto_c: shapes[p][1] as usize,
                                ph: shapes[p][2] as usize,
                                pw: shapes[p][3] as usize,
                                det: d as usize,
                                anchors: if shapes[d][1] == c {
                                    shapes[d][2] as usize
                                } else {
                                    shapes[d][1] as usize
                                },
                                channel_major: shapes[d][1] == c,
                            },
                        ),
                    }
                }
            },
        }
    }
}

/// The shapes of some outputs.
pub open spec fn shapes_of<R>(all: Seq<(Vec<i64>, Vec<R>)>) -> Seq<Seq<i64>> {
    all.map_values(|o: (Vec<i64>, Vec<R>)| o.0@)
}

/// The lengths of some outputs.
pub open spec fn lens_of<R>(all: Seq<(Vec<i64>, Vec<R>)>) -> Seq<int> {
    all.map_values(|o: (Vec<i64>, Vec<R>)| o.1@.len() as int)
}

/// A layout whose elements all lie within its outputs.
pub open spec fn layout_fits(layout: Layout, lens: Seq<int>) -> bool {
    &&& layout.proto < lens.len()
    &&& layout.det < lens.len()
    &&& 0 < layout.proto_c <= MAX_DIM
    &&& 0 < layout.ph <= MAX_DIM
    &&& 0 < layout.pw <= MAX_DIM
    &&& 0 < layout.anchors <= MAX_DIM
    &&& lens[layout.proto as int] == layout.proto_c * (layout.ph * layout.pw)
    &&& layout.ph * layout.pw <= usize::MAX
    &&& channels(layout) * layout.anchors <= lens[layout.det as int]
}

fn area(h: i64, w: i64) -> (a: i64)
    ensures
        a == saturated(h * w),
{
    proof {
        let m: int = 0x8000_0000_0000_0000;
        let mm: int = 0x4000_0000_0000_0000_0000_0000_0000_0000;
        assert(-mm <= h * w <= mm) by (nonlinear_arith)
            requires
                -m <= h <= m,
                -m <= w <= m,
                m == 0x8000_0000_0000_0000,
                mm == 0x4000_0000_0000_0000_0000_0000_0000_0000,
        ;
    }
    let v: i128 = h as i128 * w as i128;
    if v > i64::MAX as i128 {
        i64::MAX
    } else if v < i64::MIN as i128 {
        i64::MIN
    } else {
        v as i64
    }
}

fn find_prototype<R>(all: &[(Vec<i64>, Vec<R>)]) -> (p: Option<usize>)
    ensures
        match p {
            Some(i) => is_prototype(shapes_of(all@), i as int),
            None => forall|i: int| !is_prototype(shapes_of(all@), i),
        },
{
    let ghost shapes = shapes_of(all@);
    let mut best: Option<usize> = None;
    let mut best_area: i64 = 0;
    let mut i: usize = 0;
    while i < all.len()
        invariant
            shapes == shapes_of(all@),
            i <= all@.len(),
            match best {
                Some(b) => b < i && shapes[b as int].len() == 4 && best_area == area_of(
                    shapes[b as int],
                ) && (forall|j: int|
                    0 <= j < i && (#[trigger] shapes[j]).len() == 4 ==> area_of(shapes[j])
                        <= best_area) && (forall|j: int|
                    b < j < i && (#[trigger] shapes[j]).len() == 4 ==> area_of(shapes[j])
                        < best_area),
                None => forall|j: int| 0 <= j < i ==> (#[trigger] shapes[j]).len() != 4,
            },
        decreases all@.len() - i,
    {
        let shape: &Vec<i64> = &all[i].0;
        assert(shapes[i as int] == shape@);
        if shape.len() == 4 {
            let a: i64 = area(shape[2], shape[3]);
            let take: bool = match best {
                Some(_) => a >= best_area,
                None => true,
            };
            if take {
                best = Some(i);
                best_area = a;
            }
        }
        i = i + 1;
    }
    proof {
        if best is None {
            assert forall|i: int| !is_prototype(shapes, i) by {}
        }
    }
    best
}

fn find_detection<R>(all: &[(Vec<i64>, Vec<R>)], c: i64) -> (d: Option<usize>)
    ensures
        match d {
            Some(i) => is_detection(shapes_of(all@), c as int, i as int),
            None => forall|i: int| !is_detection(shapes_of(all@), c as int, i),
        },
{
    let ghost shapes = shapes_of(all@);
    let mut i: usize = 0;
    while i < all.len()
        invariant
            shapes == shapes_of(all@),
            i <= all@.len(),
            forall|j: int| 0 <= j < i ==> !#[trigger] has_channels(shapes, c as int, j),
        decreases all@.len() - i,
    {
        let shape: &Vec<i64> = &all[i].0;
        assert(shapes[i as int] == shape@);
        if shape.len() == 3 && (shape[1] == c || shape[2] == c) {
            assert(is_detection(shapes, c as int, i as int));
            return Some(i);
        }
        i = i + 1;
    }
    None
}

/// A declared dimension must be a sane positive size.
fn dim(d: i64) -> (r: Result<usize, LayoutError>)
    ensures
        match r {
            Ok(n) => dim_ok(d) && n == d,
            Err(e) => !dim_ok(d) && e == LayoutError::Dimension(d),
        },
{
    if d > 0 && d <= MAX_DIM {
        Ok(d as usize)
    } else {
        Err(LayoutError::Dimension(d))
    }
}

/// The layout of a model's outputs.
pub fn read_layout<R>(all: &[(Vec<i64>, Vec<R>)]) -> (r: Result<Layout, LayoutError>)
    ensures
        r == layout_of(shapes_of(all@), lens_of(all@)),
        r matches Ok(layout) ==> layout_fits(layout, lens_of(all@)),
{
    let ghost shapes = shapes_of(all@);
    let ghost lens = lens_of(all@);
    let p: usize = match find_prototype(all) {
        Some(p) => p,
        None => return Err(LayoutError::NoPrototypes),
    };
    proof {
        let q = choose|i: int| is_prototype(shapes, i);
        assert(is_prototype(shapes, q));
        if q < p {
            assert(area_of(shapes[p as int]) < area_of(shapes[q]));
            assert(area_of(shapes[q]) <= area_of(shapes[p as int]));
        } else if p < q {
            assert(area_of(shapes[q]) < area_of(shapes[p as int]));
            assert(area_of(shapes[p as int]) <= area_of(shapes[q]));
        }
        assert(shapes[p as int] == all@[p as int].0@);
        assert(lens[p as int] == all@[p as int].1@.len());
    }
    let pshape: &Vec<i64> = &all[p].0;
    let proto_c: usize = match dim(pshape[1]) {
        Ok(n) => n,
        Err(e) => return Err(e),
    };
    let ph: usize = match dim(pshape[2]) {
        Ok(n) => n,
        Err(e) => return Err(e),
    };
    let pw: usize = match dim(pshape[3]) {
        Ok(n) => n,
        Err(e) => return Err(e),
    };
    let proto_hw: usize = match ph.checked_mul(pw) {
        Some(n) => n,
        None => return Err(LayoutError::PrototypeArea),
    };
    let count: usize = match proto_c.checked_mul(proto_hw) {
        Some(n) => n,
        None => return Err(LayoutError::PrototypeCount),
    };
    if all[p].1.len() != count {
        return Err(LayoutError::Prototype(p));
    }
    // 4 box + 1 score + proto_c mask coefficients.
    let c: i64 = pshape[1] + 5;
    let d: usize = match find_detection(all, c) {
        Some(d) => d,
        None => return Err(LayoutError::NoDetections(proto_c + 5)),
    };
    proof {
        let q = choose|i: int| is_detection(shapes, c as int, i);
        assert(is_detection(shapes, c as int, q));
        if q < d {
            assert(!has_channels(shapes, c as int, q));
        } else if d < q {
            assert(!has_channels(shapes, c as int, d as int));
        }
        assert(shapes[d as int] == all@[d as int].0@);
        assert(lens[d as int] == all@[d as int].1@.len());
    }
    let dshape: &Vec<i64> = &all[d].0;
    let channel_major: bool = dshape[1] == c;
    let anchors: usize = match dim(
        if channel_major {
            dshape[2]
        } else {
            dshape[1]
        },
    ) {
        Ok(n) => n,
        Err(e) => return Err(e),
    };
    let expected_c: usize = proto_c + 5;
    let need: usize = match expected_c.checked_mul(anchors) {
        Some(n) => n,
        None => return Err(LayoutError::DetectionCount),
    };
    // Every element lands below this in either layout.
    if all[d].1.len() < need {
        return Err(LayoutError::Detection(d, expected_c, anchors));
    }
    Ok(Layout { proto: p, proto_c, ph, pw, det: d, anchors, channel_major })
}

/// Where element `ch` of detection `a` lies.
pub open spec fn position(layout: Layout, ch: int, a: int) -> int {
    if layout.channel_major {
        ch * layout.anchors + a
    } else {
        a * channels(layout) + ch
    }
}

/// Every element of every detection lies within the detections.
pub proof fn lemma_position(layout: Layout, lens: Seq<int>, ch: int, a: int)
    requires
        layout_fits(layout, lens),
        0 <= ch < channels(layout),
        0 <= a < layout.anchors,
    ensures
        0 <= position(layout, ch, a) < lens[layout.det as int],
        0 <= ch * layout.anchors,
        0 <= a * channels(layout),
{
    let (n, c) = (layout.anchors as int, channels(layout));
    assert(0 <= ch * n && ch * n + a < c * n && 0 <= a * c && a * c + ch < c * n)
        by (nonlinear_arith)
        requires
            0 <= ch < c,
            0 <= a < n,
    ;
}

/// Element `ch` of detection `a`.
pub(crate) fn element<R: Copy>(
    layout: Layout,
    data: &Vec<R>,
    ch: usize,
    a: usize,
    Ghost(lens): Ghost<Seq<int>>,
) -> (x: R)
    requires
        layout_fits(layout, lens),
        lens[layout.det as int] == data@.len(),
        ch < channels(layout),
        a < layout.anchors,
    ensures
        x == data@[position(layout, ch as int, a as int)],
{
    let len: usize = data.len();
    proof {
        lemma_position(layout, lens, ch as int, a as int);
    }
    if layout.channel_major {
        data[ch * layout.anchors + a]
    } else {
        data[a * (layout.proto_c + 5) + ch]
    }
}

} // verus!
