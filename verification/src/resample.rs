//! Resampling by the `image` crate. The functions here hand a raster to the
//! crate and take the result back; their contracts are stated, not proved.

use vstd::prelude::*;
use crate::raster::RasterImage;
use crate::ratio::lemma_mul_u32;

verus! {

/// Largest width or height, in pixels, that is handed to the resampler. The
/// resampler computes pixel positions in single precision, which is exact
/// for whole numbers up to here.
pub const DIMENSION_LIMIT: u32 = 0x80_0000;

/// The bytes of an RGB raster of the given size resampled to a new size with
/// the triangle filter.
pub uninterp spec fn triangle_resized(bytes: Seq<u8>, width: u32, height: u32, new_width: u32, new_height: u32) -> Seq<u8>;

/// A raster of `width` by `height` pixels can be resampled to `new_width` by
/// `new_height`: it is not empty, no side exceeds the dimension limit, and
/// the resampler's working buffers fit in memory.
pub open spec fn resample_fits(width: u32, height: u32, new_width: u32, new_height: u32) -> bool {
    &&& 1 <= width <= DIMENSION_LIMIT
    &&& 1 <= height <= DIMENSION_LIMIT
    &&& new_width <= DIMENSION_LIMIT
    &&& new_height <= DIMENSION_LIMIT
    &&& 16 * (width as int * new_height as int) <= isize::MAX
    &&& 3 * (new_width as int * new_height as int) <= isize::MAX
}

/// Tests `resample_fits`.
pub fn can_resample(width: u32, height: u32, new_width: u32, new_height: u32) -> (ok: bool)
    ensures
        ok == resample_fits(width, height, new_width, new_height),
{
    proof {
        lemma_mul_u32(width, new_height);
        lemma_mul_u32(new_width, new_height);
    }
    width >= 1 && width <= DIMENSION_LIMIT && height >= 1 && height <= DIMENSION_LIMIT && new_width
        <= DIMENSION_LIMIT && new_height <= DIMENSION_LIMIT && 16 * (width as u128 * new_height as u128)
        <= isize::MAX as u128 && 3 * (new_width as u128 * new_height as u128) <= isize::MAX as u128
}

/// Calls `image::imageops::resize` with `FilterType::Triangle` on the
/// raster, viewed as an `ImageBuffer` of RGB pixels. The contract claims
/// that the result has the requested size, that its bytes depend on the
/// source raster and the requested size alone, and that a request for the
/// source's own size returns a copy of the source.
#[verifier::external_body]
pub(crate) fn resize_triangle(image: &RasterImage, new_width: u32, new_height: u32) -> (out: RasterImage)
    requires
        image.wf(),
        resample_fits(image.width, image.height, new_width, new_height),
    ensures
        out.wf(),
        out.width == new_width,
        out.height == new_height,
        out.bytes@ == triangle_resized(image.bytes@, image.width, image.height, new_width, new_height),
        new_width == image.width && new_height == image.height ==> out.bytes@ == image.bytes@,
{
    let source = image::ImageBuffer::<image::Rgb<u8>, &[u8]>::from_raw(
        image.width,
        image.height,
        image.bytes.as_slice(),
    ).unwrap();
    let resized = image::imageops::resize(&source, new_width, new_height, image::imageops::FilterType::Triangle);
    RasterImage { width: resized.width(), height: resized.height(), bytes: resized.into_raw() }
}

/// The raster of `new_width` by `new_height` pixels cut from the middle of
/// `image`.
pub open spec fn is_center_crop(out: RasterImage, image: RasterImage, new_width: u32, new_height: u32) -> bool {
    &&& out.wf()
    &&& out.width == new_width
    &&& out.height == new_height
    &&& forall|x: int, y: int|
        0 <= x < new_width && 0 <= y < new_height ==> #[trigger] out.pixel(x, y) == image.pixel(
            x + (image.width - new_width) / 2,
            y + (image.height - new_height) / 2,
        )
}

/// Calls `image::DynamicImage::resize_to_fill` with `FilterType::Triangle`
/// on the raster, wrapped as an RGB `DynamicImage`. The requested size keeps
/// one side of the source and does not exceed the other, so the crate scales
/// by exactly one and only crops; the contract claims that the result is the
/// requested rectangle cut from the middle of the source.
#[verifier::external_body]
pub(crate) fn fill_triangle(image: &RasterImage, new_width: u32, new_height: u32) -> (out: RasterImage)
    requires
        image.wf(),
        image.width >= 1,
        image.height >= 1,
        (new_width == image.width && new_height <= image.height) || (new_height == image.height
            && new_width <= image.width),
    ensures
        is_center_crop(out, *image, new_width, new_height),
{
    let source = image::RgbImage::from_raw(image.width, image.height, image.bytes.clone()).unwrap();
    let filled = image::DynamicImage::ImageRgb8(source).resize_to_fill(
        new_width,
        new_height,
        image::imageops::FilterType::Triangle,
    ).into_rgb8();
    RasterImage { width: filled.width(), height: filled.height(), bytes: filled.into_raw() }
}

} // verus!
