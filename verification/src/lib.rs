//! Raster-to-vector tracing with verified contracts.

pub mod arithmetic;
pub mod bgremove;
pub mod chords;
pub mod clusters;
pub mod color;
pub mod contour;
pub mod denoise;
pub mod detect;
pub mod document;
pub mod drawing;
pub mod elements;
pub mod exact;
pub mod formulas;
pub mod framing;
pub mod grid;
pub mod holes;
pub mod loops;
pub mod merge;
pub mod number;
pub mod objects;
pub mod objseg;
pub mod order;
pub mod orientation;
pub mod outcomes;
pub mod outputs;
pub mod paint;
pub mod palette;
pub mod paths;
pub mod planes;
pub mod quantize;
pub mod raster;
pub mod reading;
pub mod repeat;
pub mod resample;
pub mod rng;
pub mod sampling;
pub mod segment;
pub mod showing;
pub mod sides;
pub mod simplify;
pub mod superres;
pub mod svg;
pub mod text;
pub mod tones;
pub mod trace;
pub mod union_find;
