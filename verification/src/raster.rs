//! RGBA buffers: validation and channel shuffling.

use vstd::prelude::*;

verus! {

/// Why a buffer is not an RGBA image of the given size.
#[derive(Debug, Clone, Copy, PartialEq, Eq, Structural)]
pub enum RasterError {
    /// The number of pixels or of bytes does not fit in memory.
    Overflow,
    /// There are no pixels, or fewer bytes than the size calls for.
    Truncated,
}

/// What is wrong with a buffer of `len` bytes as an RGBA image, if anything.
pub open spec fn raster_error(len: int, width: int, height: int) -> Option<RasterError> {
    if 4 * (width * height) > usize::MAX {
        Some(RasterError::Overflow)
    } else if width * height == 0 || len < 4 * (width * height) {
        Some(RasterError::Truncated)
    } else {
        None
    }
}

/// The number of pixels of an RGBA image, once it has been found to be one.
pub fn pixel_count(len: usize, width: usize, height: usize) -> (r: Result<usize, RasterError>)
    ensures
        match r {
            Ok(n) => raster_error(len as int, width as int, height as int) is None && n == width
                * height && 0 < n && 4 * n <= len,
            Err(e) => raster_error(len as int, width as int, height as int) == Some(e),
        },
{
    proof {
        assert(0 <= width * height) by (nonlinear_arith);
    }
    match width.checked_mul(height) {
        None => Err(RasterError::Overflow),
        Some(n) => match n.checked_mul(4) {
            None => Err(RasterError::Overflow),
            Some(n4) => if n == 0 || len < n4 {
                Err(RasterError::Truncated)
            } else {
                Ok(n)
            },
        },
    }
}

/// The colour bytes of the first `n` pixels, without alpha.
pub open spec fn colors_of(rgba: Seq<u8>, n: int) -> Seq<u8> {
    Seq::new((3 * n) as nat, |k: int| rgba[4 * (k / 3) + k % 3])
}

/// The alpha bytes of the first `n` pixels.
pub open spec fn alphas_of(rgba: Seq<u8>, n: int) -> Seq<u8> {
    Seq::new(n as nat, |i: int| rgba[4 * i + 3])
}

/// Drops the alpha channel.
pub fn strip_alpha(rgba: &[u8], n: usize) -> (rgb: Vec<u8>)
    requires
        rgba@.len() >= 4 * n,
    ensures
        rgb@ == colors_of(rgba@, n as int),
{
    let len: usize = rgba.len();
    let mut rgb: Vec<u8> = Vec::new();
    let mut i: usize = 0;
    while i < n
        invariant
            len == rgba@.len(),
            len >= 4 * n,
            i <= n,
            rgb@ == colors_of(rgba@, i as int),
        decreases n - i,
    {
        let ghost before = rgb@;
        rgb.push(rgba[4 * i]);
        rgb.push(rgba[4 * i + 1]);
        rgb.push(rgba[4 * i + 2]);
        proof {
            let now = colors_of(rgba@, i + 1);
            assert forall|k: int| 0 <= k < 3 * i + 3 implies #[trigger] rgb@[k] == now[k] by {
                if k < 3 * i {
                    assert(rgb@[k] == before[k]);
                } else {
                    assert(k / 3 == i && k % 3 == k - 3 * i);
                }
            }
            assert(rgb@ =~= now);
        }
        i = i + 1;
    }
    rgb
}

/// The alpha channel alone.
pub fn alpha_plane(rgba: &[u8], n: usize) -> (a: Vec<u8>)
    requires
        rgba@.len() >= 4 * n,
    ensures
        a@ == alphas_of(rgba@, n as int),
{
    let len: usize = rgba.len();
    let mut a: Vec<u8> = Vec::new();
    let mut i: usize = 0;
    while i < n
        invariant
            len == rgba@.len(),
            len >= 4 * n,
            i <= n,
            a@ == alphas_of(rgba@, i as int),
        decreases n - i,
    {
        a.push(rgba[4 * i + 3]);
        assert(a@ =~= alphas_of(rgba@, i + 1));
        i = i + 1;
    }
    a
}

} // verus!
