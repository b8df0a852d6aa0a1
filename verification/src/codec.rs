//! The pixel work of a thumbnail: a decoded image is resampled by the
//! `image` crate, within the bounds that the geometry module gives, and the
//! size that comes back is held against the geometry before the thumbnail
//! is let through.

use crate::geometry::{bounds, bounds_of, is_well_fitted, well_fitted, within_box, BOX_SIDE};
use image::imageops::FilterType;
use image::DynamicImage;
use vstd::prelude::*;

verus! {

/// A decoded image of the `image` crate. Its pixels stay hidden from the
/// proofs, which speak of its width and height only.
#[verifier::external_type_specification]
#[verifier::external_body]
pub struct ExDynamicImage(DynamicImage);

/// The resampling filters of the `image` crate: an enum without fields,
/// whose variants stay visible so that the filter can be named.
#[verifier::external_type_specification]
pub struct ExFilterType(FilterType);

/// The width of a decoded image in pixels: what `DynamicImage::width`
/// returns for it.
pub uninterp spec fn image_width(img: DynamicImage) -> u32;

/// The height of a decoded image in pixels: what `DynamicImage::height`
/// returns for it.
pub uninterp spec fn image_height(img: DynamicImage) -> u32;

/// The width and height to which `DynamicImage::resize` scales an image of
/// `width` by `height` pixels that is to fit within `nwidth` by `nheight`:
/// what `resize_dimensions` of the `image` crate computes from these four,
/// in floating point.
pub uninterp spec fn resize_target(width: u32, height: u32, nwidth: u32, nheight: u32) -> (
    u32,
    u32,
);

/// `DynamicImage::width` reads the width of the image's pixel buffer and
/// changes nothing.
pub assume_specification[ DynamicImage::width ](img: &DynamicImage) -> (w: u32)
    ensures
        w == image_width(*img),
;

/// `DynamicImage::height` reads the height of the image's pixel buffer and
/// changes nothing.
pub assume_specification[ DynamicImage::height ](img: &DynamicImage) -> (h: u32)
    ensures
        h == image_height(*img),
;

/// Whether the buffers that resampling `img` within `nwidth` by `nheight`
/// allocates can be addressed: one of four `f32` channels with the image's
/// width and at most the height of the bounds, and the result, which lies
/// within the bounds.
pub open spec fn resizable(img: DynamicImage, nwidth: u32, nheight: u32) -> bool {
    &&& 16 * image_width(img) * nheight <= isize::MAX
    &&& 16 * nwidth * nheight <= isize::MAX
}

/// `DynamicImage::resize` returns a copy of the image where the bounds are
/// the image's own size. Else it returns the image resampled to the size
/// that `resize_dimensions` computes from the image's size and the bounds,
/// for which `resize_target` stands.
///
/// It allocates its buffers with `ImageBuffer::new`, which panics where
/// their length does not fit. By its documentation `resize_dimensions` gives
/// a size that is contained within the bounds, so with bounds of at least
/// one pixel each way `resizable` leaves those lengths out.
pub assume_specification[ DynamicImage::resize ](
    img: &DynamicImage,
    nwidth: u32,
    nheight: u32,
    filter: FilterType,
) -> (out: DynamicImage)
    requires
        1 <= nwidth,
        1 <= nheight,
        resizable(*img, nwidth, nheight),
    ensures
        (nwidth, nheight) == (image_width(*img), image_height(*img)) ==> (
            image_width(out),
            image_height(out),
        ) == (nwidth, nheight),
        (nwidth, nheight) != (image_width(*img), image_height(*img)) ==> (
            image_width(out),
            image_height(out),
        ) == resize_target(image_width(*img), image_height(*img), nwidth, nheight),
;

/// The size of what the resampling of an image of `width` by `height`
/// pixels gives: the image's own size where the image lies within the box,
/// and what the `image` crate scales it to within the box otherwise.
pub open spec fn resampled_size(width: u32, height: u32) -> (u32, u32) {
    if within_box(width as int, height as int) {
        (width, height)
    } else {
        resize_target(width, height, BOX_SIDE, BOX_SIDE)
    }
}

/// Whether `img` is narrow enough to be resampled on this machine. On a
/// machine with 64-bit addresses every image is.
pub open spec fn renderable(img: DynamicImage) -> bool {
    2400 * image_width(img) <= isize::MAX
}

/// What the resampling of an image of `width` by `height` pixels is called
/// with: the bounds that the geometry gives, and the three-lobed Lanczos
/// filter.
pub fn resampling(width: u32, height: u32) -> (plan: (u32, u32, FilterType))
    ensures
        (plan.0 as int, plan.1 as int) == bounds_of(width as int, height as int),
        1 <= plan.0 <= BOX_SIDE,
        1 <= plan.1 <= BOX_SIDE,
        plan.2 == FilterType::Lanczos3,
{
    let (nwidth, nheight) = bounds(width, height);
    (nwidth, nheight, FilterType::Lanczos3)
}

/// The image resampled as `resampling` says: a copy where the image lies
/// within the box, and else the image scaled down by the `image` crate to
/// fit the box.
pub fn render_thumbnail(img: &DynamicImage) -> (thumb: DynamicImage)
    requires
        renderable(*img),
    ensures
        (image_width(thumb), image_height(thumb)) == resampled_size(
            image_width(*img),
            image_height(*img),
        ),
{
    let plan = resampling(img.width(), img.height());
    proof {
        let iw = image_width(*img);
        assert(16 * iw * plan.1 <= 2400 * iw && 16 * plan.0 * plan.1 <= 360000)
            by (nonlinear_arith)
            requires
                0 <= iw,
                0 <= plan.0 <= 150,
                0 <= plan.1 <= 150,
        ;
    }
    img.resize(plan.0, plan.1, plan.2)
}

/// Lets `thumb` through if its size is a fitting one for the thumbnail of an
/// image of `width` by `height` pixels.
pub fn accept_thumbnail(width: u32, height: u32, thumb: DynamicImage) -> (accepted: Option<
    DynamicImage,
>)
    ensures
        accepted is Some <==> well_fitted(
            width as int,
            height as int,
            image_width(thumb) as int,
            image_height(thumb) as int,
        ),
        accepted matches Some(t) ==> t == thumb,
{
    if is_well_fitted(width, height, thumb.width(), thumb.height()) {
        Some(thumb)
    } else {
        None
    }
}

/// The thumbnail of `img`: the image resampled, if it can be resampled on
/// this machine and what comes back is of a fitting size. An image within
/// the box gives a thumbnail of its own size.
pub fn try_render_thumbnail(img: &DynamicImage) -> (thumb: Option<DynamicImage>)
    ensures
        thumb is Some <==> renderable(*img) && well_fitted(
            image_width(*img) as int,
            image_height(*img) as int,
            resampled_size(image_width(*img), image_height(*img)).0 as int,
            resampled_size(image_width(*img), image_height(*img)).1 as int,
        ),
        thumb matches Some(t) ==> {
            &&& (image_width(t), image_height(t)) == resampled_size(
                image_width(*img),
                image_height(*img),
            )
            &&& well_fitted(
                image_width(*img) as int,
                image_height(*img) as int,
                image_width(t) as int,
                image_height(t) as int,
            )
        },
        within_box(image_width(*img) as int, image_height(*img) as int) && renderable(*img)
            ==> thumb is Some,
{
    if img.width() as u64 <= (isize::MAX as u64) / 2400 {
        accept_thumbnail(img.width(), img.height(), render_thumbnail(img))
    } else {
        None
    }
}

} // verus!
