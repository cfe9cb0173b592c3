//! Sampling: small rasters of the base image and of every tile, used to
//! compare them, and the tiles resampled for drawing.

use vstd::prelude::*;
use crate::error::MosaicError;
use crate::rank::{base_sample_fits, tile_sample_fits};
use crate::raster::RasterImage;
use crate::ratio::{lemma_mul_u32, round_div, rounded_quotient, AspectRatio};
use crate::resample::{can_resample, resample_fits, resize_triangle, triangle_resized, DIMENSION_LIMIT};

verus! {

/// `sample` is `image` resampled to `width` by `height` pixels.
pub open spec fn is_resampled(sample: RasterImage, image: RasterImage, width: int, height: int) -> bool {
    &&& sample.wf()
    &&& sample.width == width
    &&& sample.height == height
    &&& sample.bytes@ == triangle_resized(image.bytes@, image.width, image.height, sample.width, sample.height)
}

/// A raster resampled to a new size with the triangle filter.
pub fn resample(image: &RasterImage, new_width: u32, new_height: u32) -> (out: RasterImage)
    requires
        image.wf(),
        resample_fits(image.width, image.height, new_width, new_height),
    ensures
        is_resampled(out, *image, new_width as int, new_height as int),
        new_width == image.width && new_height == image.height ==> out.bytes@ == image.bytes@,
{
    resize_triangle(image, new_width, new_height)
}

/// The base image resampled so that every cell of the grid is a block of
/// `sample_size` by `sample_size` pixels.
pub fn create_sample_image(base_image: &RasterImage, sample_size: u32, cards_wide: u32, cards_tall: u32) -> (sample: RasterImage)
    requires
        base_image.wf(),
        cards_wide as int * sample_size as int <= u32::MAX,
        cards_tall as int * sample_size as int <= u32::MAX,
        resample_fits(
            base_image.width,
            base_image.height,
            (cards_wide as int * sample_size as int) as u32,
            (cards_tall as int * sample_size as int) as u32,
        ),
    ensures
        is_resampled(
            sample,
            *base_image,
            cards_wide as int * sample_size as int,
            cards_tall as int * sample_size as int,
        ),
        base_sample_fits(sample, cards_wide as int, cards_tall as int, sample_size as int),
{
    proof {
        lemma_mul_u32(cards_wide, sample_size);
        lemma_mul_u32(cards_tall, sample_size);
    }
    resize_triangle(base_image, cards_wide * sample_size, cards_tall * sample_size)
}

/// Every tile resampled to `sample_size` by `sample_size` pixels.
pub fn create_card_samples(card_images: &Vec<RasterImage>, sample_size: u32) -> (samples: Vec<RasterImage>)
    requires
        forall|t: int|
            0 <= t < card_images@.len() ==> (#[trigger] card_images@[t]).wf() && resample_fits(
                card_images@[t].width,
                card_images@[t].height,
                sample_size,
                sample_size,
            ),
    ensures
        samples@.len() == card_images@.len(),
        forall|t: int|
            0 <= t < samples@.len() ==> is_resampled(
                #[trigger] samples@[t],
                card_images@[t],
                sample_size as int,
                sample_size as int,
            ),
        forall|t: int| 0 <= t < samples@.len() ==> tile_sample_fits(#[trigger] samples@[t], sample_size as int),
{
    let mut samples: Vec<RasterImage> = Vec::new();
    let mut t: usize = 0;
    while t < card_images.len()
        invariant
            t <= card_images@.len(),
            forall|k: int|
                0 <= k < card_images@.len() ==> (#[trigger] card_images@[k]).wf() && resample_fits(
                    card_images@[k].width,
                    card_images@[k].height,
                    sample_size,
                    sample_size,
                ),
            samples@.len() == t,
            forall|k: int|
                0 <= k < t ==> is_resampled(#[trigger] samples@[k], card_images@[k], sample_size as int, sample_size as int),
        decreases card_images@.len() - t,
    {
        let sample = resize_triangle(&card_images[t], sample_size, sample_size);
        let ghost before = samples@;
        samples.push(sample);
        assert forall|k: int| 0 <= k < t + 1 implies is_resampled(
            #[trigger] samples@[k],
            card_images@[k],
            sample_size as int,
            sample_size as int,
        ) by {
            if k < t {
                assert(samples@[k] == before[k]);
            }
        }
        t = t + 1;
    }
    samples
}

/// Width of a tile as drawn: twice the width of a cell, rounded.
pub open spec fn draw_width(cards_wide: int, image_width: int) -> int {
    round_div(2 * image_width, cards_wide)
}

/// Height of a tile as drawn: twice the height of a cell, rounded.
pub open spec fn draw_height(cards_wide: int, image_width: int, aspect: AspectRatio) -> int {
    round_div(2 * image_width * aspect.height, cards_wide * aspect.width)
}

/// How many of the first `n` tiles are used.
pub open spec fn used_before(used: Seq<bool>, n: int) -> int
    decreases n,
{
    if n <= 0 {
        0
    } else {
        used_before(used, n - 1) + if used[n - 1] {
            1int
        } else {
            0int
        }
    }
}

/// The tiles can be drawn at the size that the grid and the output width
/// ask for: each used tile can be resampled to it, and it is not empty.
pub open spec fn draw_size_fits(
    card_images: Seq<RasterImage>,
    used: Seq<bool>,
    cards_wide: int,
    image_width: int,
    aspect: AspectRatio,
) -> bool {
    &&& 1 <= draw_width(cards_wide, image_width) <= DIMENSION_LIMIT
    &&& 1 <= draw_height(cards_wide, image_width, aspect) <= DIMENSION_LIMIT
    &&& forall|t: int|
        0 <= t < card_images.len() && used[t] ==> resample_fits(
            (#[trigger] card_images[t]).width,
            card_images[t].height,
            draw_width(cards_wide, image_width) as u32,
            draw_height(cards_wide, image_width, aspect) as u32,
        )
}

/// The tiles to draw, each resampled to about twice the size of a cell on
/// the output raster, which leaves room for interpolation. Only the used
/// tiles are resampled; the second list gives, for each used tile, its place
/// among the resampled ones, and 0 for the others.
pub fn create_draw_cards(
    card_images: &Vec<RasterImage>,
    used_cards: &Vec<bool>,
    cards_wide: u32,
    image_width: u32,
    card_aspect: AspectRatio,
) -> (r: Result<(Vec<RasterImage>, Vec<usize>), MosaicError>)
    requires
        used_cards@.len() == card_images@.len(),
        forall|t: int| 0 <= t < card_images@.len() ==> (#[trigger] card_images@[t]).wf(),
    ensures
        match r {
            Ok((resized, indices)) => {
                &&& cards_wide > 0 && card_aspect.valid()
                &&& draw_size_fits(card_images@, used_cards@, cards_wide as int, image_width as int, card_aspect)
                &&& resized@.len() == used_before(used_cards@, card_images@.len() as int)
                &&& indices@.len() == card_images@.len()
                &&& forall|t: int|
                    0 <= t < card_images@.len() ==> #[trigger] indices@[t] == if used_cards@[t] {
                        used_before(used_cards@, t)
                    } else {
                        0
                    }
                &&& forall|t: int|
                    0 <= t < card_images@.len() && used_cards@[t] ==> indices@[t] < resized@.len() && is_resampled(
                        resized@[#[trigger] indices@[t] as int],
                        card_images@[t],
                        draw_width(cards_wide as int, image_width as int),
                        draw_height(cards_wide as int, image_width as int, card_aspect),
                    )
            },
            Err(MosaicError::DegenerateInput) => cards_wide == 0 || !card_aspect.valid(),
            Err(MosaicError::TooLarge) => cards_wide > 0 && card_aspect.valid() && !draw_size_fits(
                card_images@,
                used_cards@,
                cards_wide as int,
                image_width as int,
                card_aspect,
            ),
            Err(MosaicError::Ungridable) => false,
        },
{
    if cards_wide == 0 || !card_aspect.is_valid() {
        return Err(MosaicError::DegenerateInput);
    }
    proof {
        lemma_mul_u32(image_width, card_aspect.height);
        lemma_mul_u32(cards_wide, card_aspect.width);
        assert(cards_wide as int * card_aspect.width as int > 0) by (nonlinear_arith)
            requires
                cards_wide > 0,
                card_aspect.width > 0,
        ;
        assert(2 * image_width as int * card_aspect.height as int == 2 * (image_width as int
            * card_aspect.height as int)) by (nonlinear_arith);
    }
    let exact_width: u128 = rounded_quotient(2 * (image_width as u128), cards_wide as u128);
    let exact_height: u128 = rounded_quotient(
        2 * (image_width as u128 * card_aspect.height as u128),
        cards_wide as u128 * card_aspect.width as u128,
    );
    if exact_width < 1 || exact_width > DIMENSION_LIMIT as u128 || exact_height < 1 || exact_height
        > DIMENSION_LIMIT as u128 {
        return Err(MosaicError::TooLarge);
    }
    let card_width: u32 = exact_width as u32;
    let card_height: u32 = exact_height as u32;
    let ghost w = cards_wide as int;
    let ghost iw = image_width as int;
    let mut resized_cards: Vec<RasterImage> = Vec::new();
    let mut resized_card_indices: Vec<usize> = Vec::new();
    let mut full_index: usize = 0;
    while full_index < card_images.len()
        invariant
            full_index <= card_images@.len(),
            used_cards@.len() == card_images@.len(),
            forall|t: int| 0 <= t < card_images@.len() ==> (#[trigger] card_images@[t]).wf(),
            cards_wide > 0,
            card_aspect.valid(),
            w == cards_wide,
            iw == image_width,
            card_width == draw_width(w, iw),
            card_height == draw_height(w, iw, card_aspect),
            1 <= card_width <= DIMENSION_LIMIT,
            1 <= card_height <= DIMENSION_LIMIT,
            resized_cards@.len() == used_before(used_cards@, full_index as int),
            resized_cards@.len() <= full_index,
            resized_card_indices@.len() == full_index,
            forall|t: int|
                0 <= t < full_index && used_cards@[t] ==> resample_fits(
                    (#[trigger] card_images@[t]).width,
                    card_images@[t].height,
                    card_width,
                    card_height,
                ),
            forall|t: int|
                0 <= t < full_index ==> #[trigger] resized_card_indices@[t] == if used_cards@[t] {
                    used_before(used_cards@, t)
                } else {
                    0
                },
            forall|t: int|
                0 <= t < full_index && used_cards@[t] ==> resized_card_indices@[t] < resized_cards@.len()
                    && is_resampled(
                    resized_cards@[#[trigger] resized_card_indices@[t] as int],
                    card_images@[t],
                    card_width as int,
                    card_height as int,
                ),
        decreases card_images@.len() - full_index,
    {
        let ghost cards_before = resized_cards@;
        let ghost indices_before = resized_card_indices@;
        if used_cards[full_index] {
            let full_image = &card_images[full_index];
            if !can_resample(full_image.width, full_image.height, card_width, card_height) {
                assert(!resample_fits(
                    card_images@[full_index as int].width,
                    card_images@[full_index as int].height,
                    draw_width(w, iw) as u32,
                    draw_height(w, iw, card_aspect) as u32,
                ));
                return Err(MosaicError::TooLarge);
            }
            let resized_image = resize_triangle(full_image, card_width, card_height);
            resized_card_indices.push(resized_cards.len());
            resized_cards.push(resized_image);
        } else {
            resized_card_indices.push(0);
        }
        proof {
            assert forall|t: int| 0 <= t < full_index + 1 && used_cards@[t] implies resized_card_indices@[t]
                < resized_cards@.len() && is_resampled(
                resized_cards@[#[trigger] resized_card_indices@[t] as int],
                card_images@[t],
                card_width as int,
                card_height as int,
            ) by {
                if t < full_index {
                    assert(resized_card_indices@[t] == indices_before[t]);
                    assert(resized_cards@[indices_before[t] as int] == cards_before[indices_before[t] as int]);
                }
            }
        }
        full_index = full_index + 1;
    }
    Ok((resized_cards, resized_card_indices))
}

} // verus!
