# svgit

A raster-to-vector pipeline, verified with Verus: color quantization, segmentation, boundary
extraction, simplification and SVG serialization, and the pre- and post-processing around four
ONNX models (background removal, denoising, super-resolution, object segmentation).

- `src/` is the verified library. Its stages are `quantize` (k-means in CIELAB, on `color` and
  `rng`), `segment` and `merge`, `contour`, `simplify`, `svg` and, over all of them, `trace`.
  `bgremove`, `denoise`, `superres` and `objseg` (with `detect` and `outputs`) turn rasters into
  model inputs and model outputs into rasters and masks; `resample` is the boundary to the `image`
  crate. `palette`, `loops`, `sides`, `orientation`, `holes`, `paint`, `document` and `repeat`
  hold laws that span several functions.
- Arithmetic on real numbers comes from an implementation of the traits in `number`; the library
  states what is computed with it, operation by operation. Models are run by a closure that the
  caller passes.
- `app/` supplies both: floating-point numbers and ONNX sessions.
- `tests/` runs the library on floating-point numbers.
