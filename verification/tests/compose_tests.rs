use card_mosaic::compose::{bilinear, draw_cards, edge_at};
use card_mosaic::error::MosaicError;
use card_mosaic::grid::CardGrid;
use card_mosaic::raster::RasterImage;
use card_mosaic::ratio::AspectRatio;

fn ratio(width: u32, height: u32) -> AspectRatio {
    AspectRatio { width, height }
}

fn grid(cards_wide: u32, cards_tall: u32, tiles: Vec<u32>) -> CardGrid {
    CardGrid { grid: tiles, cards_wide, cards_tall }
}

#[test]
fn cell_boundaries_are_rounded_one_by_one() {
    let columns: Vec<u128> = (0..=3).map(|k| edge_at(k, 10, 3)).collect();
    assert_eq!(columns, vec![0, 3, 7, 10]);
    let rows: Vec<u128> = (0..=2).map(|k| edge_at(k, 30, 12)).collect();
    assert_eq!(rows, vec![0, 3, 5]);
    let columns: Vec<u128> = (0..=4).map(|k| edge_at(k, 7, 4)).collect();
    assert_eq!(columns, vec![0, 2, 4, 5, 7]);
}

#[test]
fn cells_tile_the_output_without_gaps_or_overlaps() {
    for image_width in [1u32, 7, 10, 64, 999, 2000] {
        for cards_wide in [1u32, 2, 3, 7, 80, 1000, 3000] {
            for (aw, ah) in [(1u32, 1u32), (4, 3), (16, 9), (2, 5)] {
                let cards_tall: u32 = 13;
                let row_scale = image_width as u64 * ah as u64;
                let row_divisor = cards_wide as u64 * aw as u64;
                let height = edge_at(cards_tall, row_scale, row_divisor);
                let mut covered = vec![0u32; image_width as usize];
                assert_eq!(edge_at(0, image_width as u64, cards_wide as u64), 0);
                assert_eq!(edge_at(cards_wide, image_width as u64, cards_wide as u64), image_width as u128);
                for x in 0..cards_wide {
                    let left = edge_at(x, image_width as u64, cards_wide as u64);
                    let right = edge_at(x + 1, image_width as u64, cards_wide as u64);
                    assert!(left <= right && right <= image_width as u128);
                    for px in left..right {
                        covered[px as usize] += 1;
                    }
                }
                assert!(covered.iter().all(|&c| c == 1));
                let mut rows_covered = vec![0u32; height as usize];
                assert_eq!(edge_at(0, row_scale, row_divisor), 0);
                for y in 0..cards_tall {
                    let top = edge_at(y, row_scale, row_divisor);
                    let bottom = edge_at(y + 1, row_scale, row_divisor);
                    assert!(top <= bottom && bottom <= height);
                    for py in top..bottom {
                        rows_covered[py as usize] += 1;
                    }
                }
                assert!(rows_covered.iter().all(|&c| c == 1));
            }
        }
    }
}

#[test]
fn bilinear_weights_the_four_neighbours() {
    let tile: Vec<u8> = vec![10, 20, 30, 50, 60, 70, 90, 100, 110, 130, 140, 150];
    // On a pixel: that pixel.
    assert_eq!(bilinear(&tile, 2, 2, 0, 1, 0, 1), (10, 20, 30));
    assert_eq!(bilinear(&tile, 2, 2, 1, 1, 0, 1), (50, 60, 70));
    assert_eq!(bilinear(&tile, 2, 2, 0, 1, 1, 1), (90, 100, 110));
    // Halfway between two pixels of a row.
    assert_eq!(bilinear(&tile, 2, 2, 1, 2, 0, 1), (30, 40, 50));
    // In the middle of all four.
    assert_eq!(bilinear(&tile, 2, 2, 1, 2, 1, 2), (70, 80, 90));
    // Past the last pixel the neighbours are clamped to it.
    assert_eq!(bilinear(&tile, 2, 2, 3, 2, 3, 2), (130, 140, 150));
    // A third along x, two thirds along y.
    assert_eq!(bilinear(&tile, 2, 2, 1, 3, 2, 3), (77, 87, 97));
}

#[test]
fn bilinear_rounds_to_the_nearest_value() {
    let tile: Vec<u8> = vec![0, 1, 2, 1, 2, 3];
    // Halfway between 0 and 1 is 0.5, which rounds up.
    assert_eq!(bilinear(&tile, 2, 1, 1, 2, 0, 1), (1, 2, 3));
    assert_eq!(bilinear(&tile, 2, 1, 1, 4, 0, 1), (0, 1, 2));
    assert_eq!(bilinear(&tile, 2, 1, 3, 4, 0, 1), (1, 2, 3));
    let white: Vec<u8> = vec![255; 12];
    assert_eq!(bilinear(&white, 2, 2, 5, 7, 3, 11), (255, 255, 255));
}

#[test]
fn drawing_stretches_a_tile_over_its_cell() {
    let tile = RasterImage::from_raw(2, 2, vec![0, 0, 0, 100, 110, 120, 200, 210, 220, 255, 250, 245]).unwrap();
    let out = draw_cards(&grid(1, 1, vec![0]), vec![tile], vec![0], ratio(1, 1), 4).unwrap();
    assert_eq!((out.width, out.height), (4, 4));
    let expected: Vec<u8> = vec![
        0, 0, 0, 50, 55, 60, 100, 110, 120, 100, 110, 120, 100, 105, 110, 139, 143, 146, 178, 180, 183, 178, 180,
        183, 200, 210, 220, 228, 230, 233, 255, 250, 245, 255, 250, 245, 200, 210, 220, 228, 230, 233, 255, 250,
        245, 255, 250, 245,
    ];
    assert_eq!(out.bytes, expected);
}

#[test]
fn drawing_follows_the_aspect_ratio() {
    let tile = RasterImage::from_raw(3, 1, vec![0, 0, 0, 90, 90, 90, 255, 255, 255]).unwrap();
    let out = draw_cards(&grid(1, 1, vec![0]), vec![tile], vec![0], ratio(3, 1), 7).unwrap();
    assert_eq!((out.width, out.height), (7, 2));
    let row: Vec<u8> =
        vec![0, 0, 0, 39, 39, 39, 77, 77, 77, 137, 137, 137, 208, 208, 208, 255, 255, 255, 255, 255, 255];
    let mut expected = row.clone();
    expected.extend(row);
    assert_eq!(out.bytes, expected);
}

#[test]
fn drawing_puts_every_tile_in_its_cells() {
    let red = RasterImage::solid(1, 1, (255, 0, 0));
    let blue = RasterImage::solid(5, 4, (0, 0, 255));
    // Tile 0 is red, tile 1 is blue; they are stored in swapped order.
    let cells = grid(3, 2, vec![1, 0, 0, 1, 1, 0]);
    let out = draw_cards(&cells, vec![blue, red], vec![1, 0], ratio(4, 3), 10).unwrap();
    assert_eq!((out.width, out.height), (10, 5));
    let column_edges: [u32; 4] = [0, 3, 7, 10];
    let row_edges: [u32; 3] = [0, 3, 5];
    for y in 0..2usize {
        for x in 0..3usize {
            let color = if cells.grid[y * 3 + x] == 0 { (255, 0, 0) } else { (0, 0, 255) };
            for py in row_edges[y]..row_edges[y + 1] {
                for px in column_edges[x]..column_edges[x + 1] {
                    assert_eq!(out.get(px, py), color);
                }
            }
        }
    }
}

#[test]
fn drawing_more_cells_than_pixels_leaves_some_cells_empty() {
    let red = RasterImage::solid(1, 1, (255, 0, 0));
    let blue = RasterImage::solid(1, 1, (0, 0, 255));
    let out = draw_cards(&grid(4, 1, vec![0, 1, 0, 1]), vec![red, blue], vec![0, 1], ratio(1, 2), 2).unwrap();
    // Column boundaries 0, 1, 1, 2, 2: cells 0 and 2 get one pixel column.
    assert_eq!((out.width, out.height), (2, 1));
    assert_eq!(out.bytes, vec![255, 0, 0, 255, 0, 0]);
}

#[test]
fn drawing_rejects_degenerate_input() {
    let tile = RasterImage::solid(1, 1, (1, 2, 3));
    let r = draw_cards(&grid(0, 0, vec![]), vec![tile.clone()], vec![0], ratio(1, 1), 4);
    assert_eq!(r.err(), Some(MosaicError::DegenerateInput));
    let r = draw_cards(&grid(1, 1, vec![0]), vec![tile.clone()], vec![0], ratio(0, 1), 4);
    assert_eq!(r.err(), Some(MosaicError::DegenerateInput));
    let r = draw_cards(&grid(1, 1, vec![0]), vec![tile.clone()], vec![0], ratio(1, 0), 4);
    assert_eq!(r.err(), Some(MosaicError::DegenerateInput));
    let r = draw_cards(&grid(1, 1, vec![0]), vec![tile], vec![0], ratio(1, 1), 0);
    assert_eq!(r.err(), Some(MosaicError::DegenerateInput));
}

#[test]
fn drawing_rejects_a_raster_too_tall_to_address() {
    let tile = RasterImage::solid(1, 1, (1, 2, 3));
    let r = draw_cards(&grid(1, 1, vec![0]), vec![tile], vec![0], ratio(1, u32::MAX), u32::MAX);
    assert_eq!(r.err(), Some(MosaicError::TooLarge));
}
