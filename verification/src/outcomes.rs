//! What comes of a model's reply, from end to end.

use vstd::prelude::*;

use crate::bgremove::{
    cutoff, is_cutout, law_compositing_only_lowers_alpha, law_thresholds_cut_clean, matte_of,
    BgError, Model,
};
use crate::denoise::{is_padded, is_restoration, DenoiseError};
use crate::detect::kept_by_nms;
use crate::grid::lemma_pixel_index;
use crate::number::{below, product_of, trunc_count_of, unit_byte_of, whole_of, Number};
use crate::objects::{law_areas_count_set_pixels, law_kept_detections_become_objects, set_pixels};
use crate::objseg::{
    canvas_of, confident, instance_of, instance_views, is_placement, is_segmentation,
    law_objects_are_sound, Instance, InstanceView, Placement, SegConfig, SegError,
};
use crate::outputs::{layout_of, lens_of, shapes_of};
use crate::planes::{law_denoised_planes_become_pixels, law_upscaled_planes_become_pixels};
use crate::raster::{alphas_of, colors_of};
use crate::resample::{can_resample, resampled};
use crate::superres::{is_upscale, SrError, SrImage};

verus! {

/// Removing a background hands the model the image's colours at the model's size. It keeps the size and every colour, never makes a pixel more opaque, and
/// with a threshold above zero leaves each pixel's alpha as it was or takes it off. It succeeds
/// whenever the model replies with a number for each pixel of its input; a reply that is too
/// short or an error of the model is reported as what it is.
pub proof fn law_cutouts_only_lower_alpha<
    R: Number,
    E,
    F: FnOnce(Vec<R>) -> Result<(Vec<i64>, Vec<R>), E>,
>(
    rgba: Seq<u8>,
    width: int,
    height: int,
    model: Model,
    threshold: R,
    infer: F,
    small: Seq<u8>,
    input: Vec<R>,
    reply: Result<(Vec<i64>, Vec<R>), E>,
    full: Seq<u8>,
    out: Result<Vec<u8>, BgError<E>>,
    p: int,
)
    requires
        is_cutout(
            rgba,
            width,
            height,
            model,
            cutoff(threshold),
            infer,
            small,
            input,
            reply,
            full,
            out,
        ),
        0 <= p < width * height,
        4 * (width * height) <= rgba.len(),
    ensures
        resampled(
            3,
            colors_of(rgba, width * height),
            width,
            height,
            model.input_side(),
            model.input_side(),
            true,
            small,
        ),
        input@ == crate::bgremove::tensor_of::<R>(small, model),
        call_ensures(infer, (input,), reply),
        reply matches Err(e) ==> out == Err::<Vec<u8>, BgError<E>>(BgError::Model(e)),
        reply matches Ok(r) ==> if r.1@.len() < model.input_side() * model.input_side() {
            out == Err::<Vec<u8>, BgError<E>>(BgError::Shape(r.0))
        } else {
            &&& out is Ok
            &&& out->Ok_0@.len() == rgba.len()
            &&& out->Ok_0@[4 * p] == rgba[4 * p]
            &&& out->Ok_0@[4 * p + 1] == rgba[4 * p + 1]
            &&& out->Ok_0@[4 * p + 2] == rgba[4 * p + 2]
            &&& out->Ok_0@[4 * p + 3] <= rgba[4 * p + 3]
            &&& below(whole_of::<R>(0), threshold) ==> out->Ok_0@[4 * p + 3] == 0
                || out->Ok_0@[4 * p + 3] == rgba[4 * p + 3]
            &&& resampled(
                1,
                matte_of(r.1@.take(model.input_side() * model.input_side())),
                model.input_side(),
                model.input_side(),
                width,
                height,
                true,
                full,
            )
            &&& !below(whole_of::<R>(0), threshold) ==> out->Ok_0@[4 * p + 3] == full[p] * rgba[4 * p
                + 3] / 255
        },
{
    let n = width * height;
    if let Ok(r) = reply {
        if r.1@.len() >= model.input_side() * model.input_side() {
            let cut = cutoff(threshold);
            assert((4 * p) % 4 == 0 && (4 * p + 1) % 4 == 1 && (4 * p + 2) % 4 == 2);
            law_compositing_only_lowers_alpha(rgba, full, cut, n, 4 * p);
            law_compositing_only_lowers_alpha(rgba, full, cut, n, 4 * p + 1);
            law_compositing_only_lowers_alpha(rgba, full, cut, n, 4 * p + 2);
            law_compositing_only_lowers_alpha(rgba, full, cut, n, 4 * p + 3);
            law_thresholds_cut_clean(rgba, full, threshold, n, p);
        }
    }
}

/// Denoising hands the model the image padded on to the next multiples. It keeps the size and every
/// alpha value, and gives each channel of each pixel what the
/// model gave for it; an error of the model is reported as one.
pub proof fn law_restorations_show_the_reply<
    R: Number,
    E,
    F: FnOnce(Vec<R>, usize, usize) -> Result<(Vec<i64>, Vec<R>), E>,
>(
    rgba: Seq<u8>,
    width: int,
    height: int,
    infer: F,
    pw: usize,
    ph: usize,
    input: Vec<R>,
    reply: Result<(Vec<i64>, Vec<R>), E>,
    out: Result<Vec<u8>, DenoiseError<E>>,
    c: int,
    x: int,
    y: int,
)
    requires
        is_restoration(rgba, width, height, infer, pw, ph, input, reply, out),
        0 <= c < 3,
        0 <= x < width,
        0 <= y < height,
        4 * (width * height) <= rgba.len(),
    ensures
        is_padded(width, pw as int),
        is_padded(height, ph as int),
        input@ == crate::denoise::tensor_of::<R>(rgba, width, height, pw as int, ph as int),
        call_ensures(infer, (input, pw, ph), reply),
        reply matches Err(e) ==> out == Err::<Vec<u8>, DenoiseError<E>>(DenoiseError::Model(e)),
        reply matches Ok(r) ==> {
            let (oh, ow) = (r.0@[2] as int, r.0@[3] as int);
            let p = y * width + x;
            if r.0@.len() == 4 && r.0@[1] == 3 && height <= oh && width <= ow && 3 * (oh * ow)
                <= r.1@.len() {
                &&& out is Ok
                &&& out->Ok_0@.len() == rgba.len()
                &&& out->Ok_0@[4 * p + c] == unit_byte_of(r.1@[c * (ow * oh) + (y * ow + x)])
                &&& out->Ok_0@[4 * p + 3] == rgba[4 * p + 3]
            } else {
                out is Err
            }
        },
{
    if let Ok(r) = reply {
        let (oh, ow) = (r.0@[2] as int, r.0@[3] as int);
        let p = y * width + x;
        lemma_pixel_index(width, height, x, y);
        if r.0@.len() == 4 && r.0@[1] == 3 && height <= oh && width <= ow && 3 * (oh * ow)
            <= r.1@.len() {
            law_denoised_planes_become_pixels(r.1@, ow, oh, width, height, c, x, y);
            assert((4 * p + c) / 4 == p && (4 * p + c) % 4 == c);
            assert((4 * p + 3) / 4 == p && (4 * p + 3) % 4 == 3);
        }
    }
}

/// Upscaling succeeds if the model replies with a colour image that can be addressed, whole and of
/// a size that the alpha channel can be brought to. It gives an image of that size, each channel of each pixel
/// what the model gave for it, and each alpha value that of the alpha channel resampled to that
/// size; an error of the model is reported as one.
pub proof fn law_upscales_show_the_reply<
    R: Number,
    E,
    F: FnOnce(Vec<R>) -> Result<(Vec<i64>, Vec<R>), E>,
>(
    rgba: Seq<u8>,
    width: int,
    height: int,
    infer: F,
    input: Vec<R>,
    reply: Result<(Vec<i64>, Vec<R>), E>,
    alpha: Seq<u8>,
    out: Result<SrImage, SrError<E>>,
    c: int,
    p: int,
)
    requires
        is_upscale(rgba, width, height, infer, input, reply, alpha, out),
        0 <= c < 3,
    ensures
        input@ == crate::superres::tensor_of::<R>(rgba, width * height),
        call_ensures(infer, (input,), reply),
        reply matches Err(e) ==> out == Err::<SrImage, SrError<E>>(SrError::Model(e)),
        reply matches Ok(r) ==> (r.0@.len() == 4 && r.0@[1] == 3 && r.0@[2] > 0 && r.0@[3] > 0 && r.0@[2]
            * r.0@[3] <= usize::MAX && 3 * (r.0@[2] * r.0@[3]) <= r.1@.len() && can_resample(
            width,
            height,
            r.0@[3] as int,
            r.0@[2] as int,
        ) <==> out is Ok),
        reply matches Ok(r) ==> out matches Ok(img) ==> {
            let n = img.width * img.height;
            &&& r.0@.len() == 4 && r.0@[1] == 3
            &&& img.width == r.0@[3] && img.height == r.0@[2]
            &&& img.rgba@.len() == 4 * n
            &&& resampled(
                1,
                alphas_of(rgba, width * height),
                width,
                height,
                img.width as int,
                img.height as int,
                true,
                alpha,
            )
            &&& 0 <= p < n ==> img.rgba@[4 * p + c] == unit_byte_of(r.1@[c * n + p])
            &&& 0 <= p < n ==> img.rgba@[4 * p + 3] == alpha[p]
        },
{
    if let Ok(r) = reply {
        if let Ok(img) = out {
            let n = img.width * img.height;
            if 0 <= p < n {
                law_upscaled_planes_become_pixels(r.1@, alpha, c, p);
            }
        }
    }
}

/// An object's box lies inside the image and holds its mask's set pixels, whose number is its area.
pub open spec fn is_object<R>(i: InstanceView<R>, w: int, h: int) -> bool {
    let (x1, y1, x2, y2) = i.1;
    &&& i.0.len() == w * h
    &&& x1 < x2 <= w
    &&& y1 < y2 <= h
    &&& forall|q: int|
        0 <= q < i.0.len() && #[trigger] i.0[q] != 0 ==> x1 <= q % w < x2 && y1 <= q / w < y2
    &&& i.3 == set_pixels(i.0, i.0.len() as int).len()
}

/// Segmenting hands the model the image on its canvas. Outputs that can be read give objects: no
/// more than asked for, the largest first, each with a box and an area that fit its mask, and one
/// for every detection that is kept and large enough. An error of the model, or in its outputs, is
/// reported as what it is.
pub proof fn law_segmentations_show_the_reply<
    R: Number,
    E,
    F: FnOnce(Vec<R>) -> Result<Vec<(Vec<i64>, Vec<R>)>, E>,
>(
    rgba: Seq<u8>,
    width: usize,
    height: usize,
    side: usize,
    cfg: &SegConfig<R>,
    infer: F,
    p: Placement<R>,
    small: Seq<u8>,
    input: Vec<R>,
    reply: Result<Vec<(Vec<i64>, Vec<R>)>, E>,
    out: Result<Vec<Instance<R>>, SegError<E>>,
    j: int,
)
    requires
        is_segmentation(rgba, width, height, side, cfg, infer, p, small, input, reply, out),
        0 < width <= u32::MAX,
        0 < height <= u32::MAX,
        width * height <= u32::MAX,
    ensures
        is_placement(width, height, side, p),
        resampled(
            3,
            colors_of(rgba, width * height),
            width as int,
            height as int,
            p.nw as int,
            p.nh as int,
            false,
            small,
        ),
        input@ == canvas_of(small, p, side as int),
        reply matches Err(e) ==> out == Err::<Vec<Instance<R>>, SegError<E>>(SegError::Model(e)),
        reply matches Ok(all) ==> match layout_of(shapes_of(all@), lens_of(all@)) {
            Err(e) => out == Err::<Vec<Instance<R>>, SegError<E>>(SegError::Layout(e)),
            Ok(layout) => {
                let (w, h) = (width as int, height as int);
                let dets = confident(
                    all@[layout.det as int].1@,
                    layout,
                    cfg.conf,
                    layout.anchors as int,
                );
                let keep = kept_by_nms(dets, cfg.iou, cfg.max_objects);
                let min_area = trunc_count_of(
                    product_of(cfg.min_area_frac, whole_of::<R>((w * h) as usize)),
                );
                &&& out is Ok
                &&& ({
                    let objects = instance_views(out->Ok_0@);
                    &&& objects.len() <= cfg.max_objects
                    &&& forall|i: int|
                        0 <= i < objects.len() ==> is_object(#[trigger] objects[i], w, h)
                            && objects[i].3 >= min_area && !below(objects[i].2, cfg.conf)
                    &&& forall|i: int, k: int|
                        0 <= i < k < objects.len() ==> (#[trigger] objects[i]).3 >= (
                        #[trigger] objects[k]).3
                    &&& 0 <= j < keep.len() ==> (instance_of(
                        dets[keep[j] as int],
                        all@[layout.proto as int].1@,
                        p,
                        layout,
                        side,
                        cfg.mask_threshold,
                        min_area,
                        w,
                        h,
                    ) matches Some(i) ==> objects.contains(i))
                })
            },
        },
{
    let (w, h) = (width as int, height as int);
    if let Ok(all) = reply {
        if let Ok(layout) = layout_of(shapes_of(all@), lens_of(all@)) {
            law_objects_are_sound(all@, layout, cfg, p, side, w, h);
            let objects = instance_views(out->Ok_0@);
            assert forall|i: int| 0 <= i < objects.len() implies is_object(
                #[trigger] objects[i],
                w,
                h,
            ) by {
                law_areas_count_set_pixels(objects[i].0);
            }
            let dets = confident(
                all@[layout.det as int].1@,
                layout,
                cfg.conf,
                layout.anchors as int,
            );
            let keep = kept_by_nms(dets, cfg.iou, cfg.max_objects);
            if 0 <= j < keep.len() {
                law_kept_detections_become_objects(all@, layout, cfg, p, side, w, h, j);
            }
        }
    }
}

} // verus!
