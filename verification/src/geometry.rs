//! The geometry of a thumbnail: an image that lies within a square box keeps
//! its size; a larger one is scaled down to fit the box, its longer side
//! filling it, its shorter side in proportion.

use vstd::prelude::*;

verus! {

/// The side of the box that every thumbnail fits into, in pixels.
pub const BOX_SIDE: u32 = 150;

/// Whether an image of `width` by `height` pixels has pixels and lies
/// within the box.
pub open spec fn within_box(width: int, height: int) -> bool {
    0 < width <= BOX_SIDE && 0 < height <= BOX_SIDE
}

/// The bounds that the resampling of an image of `width` by `height` pixels
/// is given: the image's own size where it lies within the box, so that it
/// is not scaled at all, and the box for every other image.
pub open spec fn bounds_of(width: int, height: int) -> (int, int) {
    if within_box(width, height) {
        (width, height)
    } else {
        (BOX_SIDE as int, BOX_SIDE as int)
    }
}

/// The longer of two sides.
pub open spec fn longer(a: int, b: int) -> int {
    if a >= b {
        a
    } else {
        b
    }
}

/// Whether `w` by `h` pixels is a fitting size for the thumbnail of an
/// image of `width` by `height` pixels.
///
/// - The thumbnail of an image within the box has the image's size.
/// - Any other thumbnail has at least one pixel each way and lies within
///   the box. Where the image has pixels, the side of the thumbnail that
///   goes with the image's longer side fills the box, and the other side is
///   within less than one pixel of the image's proportion.
pub open spec fn well_fitted(width: int, height: int, w: int, h: int) -> bool {
    if within_box(width, height) {
        w == width && h == height
    } else {
        &&& 1 <= w <= BOX_SIDE
        &&& 1 <= h <= BOX_SIDE
        &&& 0 < width && 0 < height ==> {
            &&& width >= height ==> w == BOX_SIDE
            &&& height >= width ==> h == BOX_SIDE
            &&& -longer(width, height) < w * height - h * width < longer(width, height)
        }
    }
}

/// Aspect preservation. A fitting thumbnail of an image with pixels is never
/// larger than the image along its longer side: that side is the image's own
/// where the image lies within the box, and the side of the box otherwise.
/// It has pixels, lies within the box, and its sides are in the ratio of the
/// image's sides up to less than one pixel.
pub proof fn law_aspect_preserved(width: int, height: int, w: int, h: int)
    requires
        0 < width,
        0 < height,
        well_fitted(width, height, w, h),
    ensures
        longer(w, h) == if longer(width, height) <= BOX_SIDE {
            longer(width, height)
        } else {
            BOX_SIDE as int
        },
        1 <= w <= BOX_SIDE,
        1 <= h <= BOX_SIDE,
        within_box(width, height) ==> w == width && h == height,
        -longer(width, height) < w * height - h * width < longer(width, height),
{
    if within_box(width, height) {
        assert(w * height - h * width == 0) by (nonlinear_arith)
            requires
                w == width,
                h == height,
        ;
    }
}

/// Whether an image of `width` by `height` pixels has pixels and lies
/// within the box.
pub fn fits_box(width: u32, height: u32) -> (b: bool)
    ensures
        b == within_box(width as int, height as int),
{
    0 < width && width <= BOX_SIDE && 0 < height && height <= BOX_SIDE
}

/// The bounds that the resampling of an image of `width` by `height` pixels
/// is given.
pub fn bounds(width: u32, height: u32) -> (b: (u32, u32))
    ensures
        (b.0 as int, b.1 as int) == bounds_of(width as int, height as int),
        1 <= b.0 <= BOX_SIDE,
        1 <= b.1 <= BOX_SIDE,
{
    if fits_box(width, height) {
        (width, height)
    } else {
        (BOX_SIDE, BOX_SIDE)
    }
}

/// Whether `w` by `h` pixels is a fitting size for the thumbnail of an
/// image of `width` by `height` pixels.
pub fn is_well_fitted(width: u32, height: u32, w: u32, h: u32) -> (b: bool)
    ensures
        b == well_fitted(width as int, height as int, w as int, h as int),
{
    if fits_box(width, height) {
        return w == width && h == height;
    }
    if w < 1 || w > BOX_SIDE || h < 1 || h > BOX_SIDE {
        return false;
    }
    if width == 0 || height == 0 {
        return true;
    }
    if width >= height && w != BOX_SIDE {
        return false;
    }
    if height >= width && h != BOX_SIDE {
        return false;
    }
    assert(w * height <= 150 * 0xffff_ffff && h * width <= 150 * 0xffff_ffff) by (nonlinear_arith)
        requires
            w <= 150,
            h <= 150,
            height <= 0xffff_ffff,
            width <= 0xffff_ffff,
    ;
    let across: u64 = w as u64 * height as u64;
    let along: u64 = h as u64 * width as u64;
    let limit: u64 = if width >= height {
        width as u64
    } else {
        height as u64
    };
    if across >= along {
        across - along < limit
    } else {
        along - across < limit
    }
}

} // verus!
