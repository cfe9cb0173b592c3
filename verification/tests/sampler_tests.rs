use card_mosaic::error::MosaicError;
use card_mosaic::raster::RasterImage;
use card_mosaic::ratio::AspectRatio;
use card_mosaic::resample::can_resample;
use card_mosaic::sampler::{create_card_samples, create_draw_cards, create_sample_image, resample};

fn ratio(width: u32, height: u32) -> AspectRatio {
    AspectRatio { width, height }
}

fn gradient(width: u32, height: u32) -> RasterImage {
    let mut bytes: Vec<u8> = Vec::new();
    for y in 0..height {
        for x in 0..width {
            bytes.push((x * 255 / width.max(1)) as u8);
            bytes.push((y * 255 / height.max(1)) as u8);
            bytes.push(((x + y) % 256) as u8);
        }
    }
    RasterImage::from_raw(width, height, bytes).unwrap()
}

#[test]
fn resampling_gives_the_requested_size() {
    let image = gradient(8, 6);
    let out = resample(&image, 4, 3);
    assert_eq!((out.width, out.height), (4, 3));
    assert_eq!(out.bytes.len(), 36);
    let out = resample(&image, 16, 1);
    assert_eq!((out.width, out.height), (16, 1));
    assert_eq!(out.bytes.len(), 48);
    let out = resample(&image, 0, 5);
    assert_eq!((out.width, out.height), (0, 5));
    assert!(out.bytes.is_empty());
}

#[test]
fn resampling_to_the_same_size_copies_the_image() {
    let image = gradient(7, 5);
    let out = resample(&image, 7, 5);
    assert_eq!((out.width, out.height), (7, 5));
    assert_eq!(out.bytes, image.bytes);
}

#[test]
fn resampling_is_no_mere_copy() {
    // Two columns, black and white, shrunk to one pixel: their mean.
    let image = RasterImage::from_raw(2, 1, vec![0, 0, 0, 255, 255, 255]).unwrap();
    let out = resample(&image, 1, 1);
    assert_eq!(out.bytes.len(), 3);
    assert!(out.bytes.iter().all(|&b| b == 127 || b == 128));
}

#[test]
fn resampling_the_same_image_twice_gives_the_same_bytes() {
    let image = gradient(9, 4);
    assert_eq!(resample(&image, 5, 3).bytes, resample(&image, 5, 3).bytes);
    assert_eq!(resample(&image, 20, 20).bytes, resample(&image.clone(), 20, 20).bytes);
}

#[test]
fn resampling_a_flat_image_keeps_its_colour() {
    let image = RasterImage::solid(10, 10, (12, 200, 99));
    for (w, h) in [(1u32, 1u32), (5, 5), (9, 72), (25, 3)] {
        let out = resample(&image, w, h);
        assert_eq!((out.width, out.height), (w, h));
        for y in 0..h {
            for x in 0..w {
                assert_eq!(out.get(x, y), (12, 200, 99));
            }
        }
    }
}

#[test]
fn resampling_limits() {
    assert!(can_resample(1, 1, 1, 1));
    assert!(can_resample(2000, 1500, 720, 963));
    assert!(can_resample(10, 10, 0, 0));
    assert!(!can_resample(0, 10, 5, 5));
    assert!(!can_resample(10, 0, 5, 5));
    assert!(!can_resample(0x80_0001, 10, 5, 5));
    assert!(!can_resample(10, 10, 5, 0x80_0001));
    assert!(can_resample(0x80_0000, 1, 1, 1));
}

#[test]
fn sample_image_has_one_block_per_cell() {
    let base = gradient(40, 30);
    let sample = create_sample_image(&base, 9, 4, 3);
    assert_eq!((sample.width, sample.height), (36, 27));
    assert_eq!(sample.bytes.len(), 36 * 27 * 3);
    assert_eq!(sample.bytes, resample(&base, 36, 27).bytes);
}

#[test]
fn card_samples_are_square() {
    let tiles = vec![gradient(10, 20), RasterImage::solid(3, 3, (1, 2, 3)), gradient(7, 7)];
    let samples = create_card_samples(&tiles, 7);
    assert_eq!(samples.len(), 3);
    for (sample, tile) in samples.iter().zip(tiles.iter()) {
        assert_eq!((sample.width, sample.height), (7, 7));
        assert_eq!(sample.bytes, resample(tile, 7, 7).bytes);
    }
    assert_eq!(samples[2].bytes, tiles[2].bytes);
    assert!(create_card_samples(&vec![], 7).is_empty());
}

#[test]
fn draw_cards_are_twice_the_cell_size() {
    let tiles = vec![gradient(100, 60), gradient(64, 64), RasterImage::solid(5, 5, (9, 9, 9))];
    let (resized, indices) = create_draw_cards(&tiles, &vec![true, true, true], 80, 2000, ratio(16, 9)).unwrap();
    assert_eq!(indices, vec![0, 1, 2]);
    assert_eq!(resized.len(), 3);
    for (image, tile) in resized.iter().zip(tiles.iter()) {
        assert_eq!((image.width, image.height), (50, 28));
        assert_eq!(image.bytes, resample(tile, 50, 28).bytes);
    }
}

#[test]
fn draw_cards_skip_unused_tiles() {
    let tiles = vec![gradient(10, 6), gradient(6, 6), RasterImage::solid(5, 5, (9, 9, 9)), gradient(3, 9)];
    let used = vec![false, true, false, true];
    let (resized, indices) = create_draw_cards(&tiles, &used, 3, 10, ratio(4, 3)).unwrap();
    assert_eq!(indices, vec![0, 0, 0, 1]);
    assert_eq!(resized.len(), 2);
    assert_eq!((resized[0].width, resized[0].height), (7, 5));
    assert_eq!(resized[0].bytes, resample(&tiles[1], 7, 5).bytes);
    assert_eq!(resized[1].bytes, resample(&tiles[3], 7, 5).bytes);
    let (resized, indices) = create_draw_cards(&tiles, &vec![false; 4], 3, 10, ratio(4, 3)).unwrap();
    assert!(resized.is_empty());
    assert_eq!(indices, vec![0, 0, 0, 0]);
}

#[test]
fn draw_cards_reject_bad_sizes() {
    let tiles = vec![gradient(10, 6)];
    let used = vec![true];
    assert_eq!(create_draw_cards(&tiles, &used, 0, 10, ratio(4, 3)).err(), Some(MosaicError::DegenerateInput));
    assert_eq!(create_draw_cards(&tiles, &used, 3, 10, ratio(0, 3)).err(), Some(MosaicError::DegenerateInput));
    assert_eq!(create_draw_cards(&tiles, &used, 3, 10, ratio(4, 0)).err(), Some(MosaicError::DegenerateInput));
    // Cells a quarter of a pixel wide: tiles of no width.
    assert_eq!(create_draw_cards(&tiles, &used, 100, 10, ratio(4, 3)).err(), Some(MosaicError::TooLarge));
    // Tiles wider than the resampler takes.
    assert_eq!(create_draw_cards(&tiles, &used, 1, 0x40_0001, ratio(1, 1)).err(), Some(MosaicError::TooLarge));
    // An empty tile cannot be resampled.
    let empty = vec![RasterImage::from_raw(0, 0, vec![]).unwrap()];
    assert_eq!(create_draw_cards(&empty, &used, 3, 10, ratio(4, 3)).err(), Some(MosaicError::TooLarge));
    assert!(create_draw_cards(&empty, &vec![false], 3, 10, ratio(4, 3)).is_ok());
}
