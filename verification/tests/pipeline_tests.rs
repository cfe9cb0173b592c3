use card_mosaic::compose::draw_cards;
use card_mosaic::error::MosaicError;
use card_mosaic::grid::{create_grid, CardGrid};
use card_mosaic::pipeline::{
    assign_from_samples, populate_grid, populate_grid_new, select_best_card, select_from_samples,
};
use card_mosaic::rank::card_dif;
use card_mosaic::raster::RasterImage;
use card_mosaic::ratio::AspectRatio;
use card_mosaic::sampler::create_draw_cards;

const RED: (u8, u8, u8) = (255, 0, 0);
const GREEN: (u8, u8, u8) = (0, 255, 0);
const BLUE: (u8, u8, u8) = (0, 0, 255);
const WHITE: (u8, u8, u8) = (255, 255, 255);

fn quadrants(cell: u32, colors: [(u8, u8, u8); 4]) -> RasterImage {
    let mut bytes: Vec<u8> = Vec::new();
    for y in 0..2 * cell {
        for x in 0..2 * cell {
            let c = colors[(2 * (y / cell) + x / cell) as usize];
            bytes.push(c.0);
            bytes.push(c.1);
            bytes.push(c.2);
        }
    }
    RasterImage::from_raw(2 * cell, 2 * cell, bytes).unwrap()
}

fn solid_tiles() -> Vec<RasterImage> {
    vec![
        RasterImage::solid(10, 10, RED),
        RasterImage::solid(10, 10, GREEN),
        RasterImage::solid(10, 10, BLUE),
        RasterImage::solid(10, 10, WHITE),
    ]
}

fn blank(cards_wide: u32, cards_tall: u32) -> CardGrid {
    CardGrid { grid: vec![0; (cards_wide * cards_tall) as usize], cards_wide, cards_tall }
}

#[test]
fn four_solid_tiles_land_on_their_own_colours() {
    let tiles = solid_tiles();
    // Cells from left to right, top to bottom: blue, white, red, green.
    let base = quadrants(10, [BLUE, WHITE, RED, GREEN]);
    let mut grid = blank(2, 2);
    let placement = populate_grid_new(&base, &tiles, &mut grid, 10).unwrap();
    assert_eq!(grid.grid, vec![2, 3, 0, 1]);
    assert_eq!((grid.cards_wide, grid.cards_tall), (2, 2));
    // The base has the tiles' own histogram, so matching changes nothing.
    assert_eq!(placement.brightness_map[85], 85);
    assert_eq!(placement.brightness_map[255], 255);
    assert_eq!(placement.matched_sample.bytes, base.bytes);
    // Every cell matches its tile without any residue.
    for y in 0..2u32 {
        for x in 0..2u32 {
            let tile = &tiles[grid.grid[(2 * y + x) as usize] as usize];
            assert_eq!(card_dif(&placement.matched_sample.bytes, 20, &tile.bytes, 10, 10 * x, 10 * y, 10), 0);
        }
    }
    // Cells 1, 2 and 3 cost nothing; cell 0 carries the focus cost.
    assert_eq!(placement.order, vec![1, 2, 3, 0]);
}

#[test]
fn four_solid_tiles_land_on_their_own_colours_through_resampling() {
    let tiles = solid_tiles();
    let base = quadrants(16, [WHITE, GREEN, BLUE, RED]);
    let mut grid = blank(2, 2);
    populate_grid_new(&base, &tiles, &mut grid, 4).unwrap();
    assert_eq!(grid.grid, vec![3, 1, 2, 0]);
}

#[test]
fn brightness_matching_merges_colours_that_share_a_bucket() {
    // (1, 0, 0) has brightness bucket 0 like black and is matched to black,
    // so the cell of that colour is as near to the black tile as the black
    // cell is, and, lying off the corner, is bound first.
    let tiles = vec![
        RasterImage::solid(10, 10, (1, 0, 0)),
        RasterImage::solid(10, 10, (0, 0, 0)),
        RasterImage::solid(10, 10, WHITE),
        RasterImage::solid(10, 10, GREEN),
    ];
    let base = quadrants(10, [(0, 0, 0), (1, 0, 0), WHITE, GREEN]);
    let mut grid = blank(2, 2);
    let placement = populate_grid_new(&base, &tiles, &mut grid, 10).unwrap();
    assert_eq!(placement.matched_sample.get(10, 0), (0, 0, 0));
    assert_eq!(placement.order, vec![1, 2, 3, 0]);
    assert_eq!(grid.grid, vec![0, 1, 2, 3]);
}

#[test]
fn the_whole_mosaic_from_grid_to_raster() {
    let tiles = solid_tiles();
    let base = quadrants(10, [GREEN, RED, WHITE, BLUE]);
    let aspect = AspectRatio { width: 1, height: 1 };
    let mut grid = create_grid(2, aspect, base.width, base.height).unwrap();
    assert_eq!((grid.cards_wide, grid.cards_tall), (2, 2));
    populate_grid_new(&base, &tiles, &mut grid, 10).unwrap();
    assert_eq!(grid.grid, vec![1, 0, 3, 2]);
    let (draw_tiles, indices) = create_draw_cards(&tiles, &vec![true; 4], 2, 8, aspect).unwrap();
    let out = draw_cards(&grid, draw_tiles, indices, aspect, 8).unwrap();
    assert_eq!((out.width, out.height), (8, 8));
    for y in 0..8u32 {
        for x in 0..8u32 {
            let expected = [GREEN, RED, WHITE, BLUE][(2 * (y / 4) + x / 4) as usize];
            assert_eq!(out.get(x, y), expected);
        }
    }
}

#[test]
fn tiles_repeat_only_when_cells_outnumber_them() {
    let tiles = vec![RasterImage::solid(4, 4, RED), RasterImage::solid(4, 4, BLUE)];
    let base = quadrants(4, [RED, BLUE, BLUE, BLUE]);
    let mut grid = blank(2, 2);
    let placement = populate_grid_new(&base, &tiles, &mut grid, 4).unwrap();
    assert_eq!(grid.grid, vec![0, 1, 1, 1]);
    assert_eq!(placement.order.len(), 4);
    let first_two: Vec<u32> = placement.order[..2].iter().map(|&c| grid.grid[c]).collect();
    assert!(first_two == vec![0, 1] || first_two == vec![1, 0]);
}

#[test]
fn assignment_from_samples_matches_brightness_before_ranking() {
    // One-pixel samples. The base is dark, the tiles are bright: after
    // matching, the darker base pixel goes with the darker tile.
    let base = RasterImage::from_raw(2, 1, vec![10, 10, 10, 40, 40, 40]).unwrap();
    let tiles = vec![RasterImage::solid(1, 1, (200, 200, 200)), RasterImage::solid(1, 1, (100, 100, 100))];
    let mut grid = blank(2, 1);
    let placement = assign_from_samples(&base, &tiles, &mut grid, 1).unwrap();
    assert_eq!(placement.brightness_map[10], 100);
    assert_eq!(placement.brightness_map[40], 200);
    assert_eq!(placement.matched_sample.bytes, vec![100, 100, 100, 200, 200, 200]);
    assert_eq!(grid.grid, vec![1, 0]);
    // Cell 1 lies on the centre line and costs nothing; cell 0 costs 255.
    assert_eq!(placement.order, vec![1, 0]);
}

#[test]
fn assignment_rejects_degenerate_input() {
    let base = RasterImage::solid(4, 4, RED);
    let tiles = solid_tiles();
    let mut grid = blank(2, 2);
    assert_eq!(populate_grid_new(&base, &vec![], &mut grid, 2).err(), Some(MosaicError::DegenerateInput));
    assert_eq!(populate_grid_new(&base, &tiles, &mut grid, 0).err(), Some(MosaicError::DegenerateInput));
    let mut no_cells = blank(0, 0);
    assert_eq!(populate_grid_new(&base, &tiles, &mut no_cells, 2).err(), Some(MosaicError::DegenerateInput));
    let empty = RasterImage::from_raw(0, 3, vec![]).unwrap();
    assert_eq!(populate_grid_new(&empty, &tiles, &mut grid, 2).err(), Some(MosaicError::DegenerateInput));
    let with_empty = vec![RasterImage::solid(2, 2, RED), RasterImage::from_raw(5, 0, vec![]).unwrap()];
    assert_eq!(populate_grid_new(&base, &with_empty, &mut grid, 2).err(), Some(MosaicError::DegenerateInput));
    assert_eq!(grid.grid, vec![0, 0, 0, 0]);
    let sample = RasterImage::from_raw(0, 0, vec![]).unwrap();
    assert_eq!(assign_from_samples(&sample, &vec![], &mut no_cells, 3).err(), Some(MosaicError::DegenerateInput));
}

#[test]
fn assignment_rejects_sizes_beyond_its_limits() {
    let base = RasterImage::solid(4, 4, RED);
    let tiles = solid_tiles();
    let mut grid = blank(2, 2);
    // Samples wider than the resampler takes.
    assert_eq!(populate_grid_new(&base, &tiles, &mut grid, 5_000_000).err(), Some(MosaicError::TooLarge));
    // Costs that do not fit in 32 bits.
    assert_eq!(populate_grid_new(&base, &tiles, &mut grid, 2053).err(), Some(MosaicError::TooLarge));
    assert_eq!(populate_grid(&base, &tiles, &mut vec![false; 4], &mut grid, 2370).err(), Some(MosaicError::TooLarge));
    assert_eq!(grid.grid, vec![0, 0, 0, 0]);
}

#[test]
fn nearest_tile_is_the_first_of_the_closest() {
    let base = RasterImage::from_raw(2, 1, vec![10, 10, 10, 40, 40, 40]).unwrap();
    let tiles = vec![
        RasterImage::solid(1, 1, (45, 40, 40)),
        RasterImage::solid(1, 1, (12, 10, 10)),
        RasterImage::solid(1, 1, (10, 10, 12)),
        RasterImage::solid(1, 1, (40, 40, 40)),
    ];
    assert_eq!(select_best_card(&base, &tiles, 1, 0, 0), Ok(1));
    assert_eq!(select_best_card(&base, &tiles, 1, 1, 0), Ok(3));
}

#[test]
fn nearest_tile_of_no_tiles_is_an_error() {
    let base = RasterImage::from_raw(2, 1, vec![10, 10, 10, 40, 40, 40]).unwrap();
    assert_eq!(select_best_card(&base, &vec![], 1, 0, 0), Err(MosaicError::DegenerateInput));
    assert_eq!(select_best_card(&base, &vec![], 1, 1, 0), Err(MosaicError::DegenerateInput));
}

#[test]
fn nearest_selection_marks_the_tiles_it_uses() {
    let base = RasterImage::from_raw(2, 2, vec![10, 10, 10, 40, 40, 40, 11, 11, 11, 41, 41, 41]).unwrap();
    let tiles = vec![
        RasterImage::solid(1, 1, (200, 200, 200)),
        RasterImage::solid(1, 1, (12, 10, 10)),
        RasterImage::solid(1, 1, (40, 40, 40)),
    ];
    let mut used = vec![true, false, false];
    let mut grid = blank(2, 2);
    select_from_samples(&base, &tiles, &mut used, &mut grid, 1);
    assert_eq!(grid.grid, vec![1, 2, 1, 2]);
    assert_eq!(used, vec![true, true, true]);
    let mut used = vec![false, false, false];
    select_from_samples(&base, &tiles, &mut used, &mut grid, 1);
    assert_eq!(used, vec![false, true, true]);
}

#[test]
fn nearest_pipeline_binds_each_cell_to_the_closest_tile() {
    let tiles = solid_tiles();
    let base = quadrants(10, [BLUE, BLUE, RED, GREEN]);
    let mut grid = blank(2, 2);
    let mut used = vec![false; 4];
    populate_grid(&base, &tiles, &mut used, &mut grid, 5).unwrap();
    assert_eq!(grid.grid, vec![2, 2, 0, 1]);
    assert_eq!(used, vec![true, true, true, false]);
    let mut used = vec![false; 4];
    assert_eq!(populate_grid(&base, &vec![], &mut used, &mut grid, 5).err(), Some(MosaicError::DegenerateInput));
}
