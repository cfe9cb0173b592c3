//! The whole assignment: from a base image and a pool of tiles to a grid in
//! which every cell is bound to a tile.

use vstd::prelude::*;
use vstd::arithmetic::div_mod::lemma_fundamental_div_mod;
use vstd::arithmetic::div_mod::lemma_multiply_divide_lt;
use crate::assign::{
    cheapest_first,
    greedy_selection,
    in_stretch,
    lemma_ranking_holds_all,
    selection_done,
    tile_count,
    unique_steps,
    valid_order,
};
use crate::brightness::{
    brightness_count,
    count_brightness,
    counts_image,
    counts_pool,
    create_brightness_counts,
    create_brightness_map,
    is_brightness_map,
    is_matched,
    lemma_brightness_count_monotonic,
    lemma_pool_count_bound,
    match_brightness,
    pool_count,
    BUCKETS,
};
use crate::error::MosaicError;
use crate::grid::CardGrid;
use crate::rank::{
    base_sample_fits,
    block_distance,
    card_dif,
    cell_costs,
    is_ranking,
    rank_all_cards,
    tile_sample_fits,
    ColumnEntry,
};
use crate::raster::RasterImage;
use crate::ratio::lemma_mul_u32;
use crate::resample::{can_resample, resample_fits};
use crate::sampler::{create_card_samples, create_sample_image, is_resampled};

verus! {

/// What an assignment leaves besides the grid itself.
#[derive(Debug)]
pub struct Placement {
    /// The base sample after brightness matching, as it was scored.
    pub matched_sample: RasterImage,
    /// The map that matched the base sample's brightness to the tiles'.
    pub brightness_map: Vec<u32>,
    /// The cells in the order in which they were bound.
    pub order: Vec<usize>,
}

/// The costs and counts of scoring fit the 32-bit integers that carry them.
pub open spec fn scoring_fits(tiles: int, cards_wide: int, cards_tall: int, sample_size: int) -> bool {
    &&& tiles <= u32::MAX
    &&& 1020 * (sample_size * sample_size) <= u32::MAX
    &&& (cards_wide * cards_tall) * (sample_size * sample_size) <= u32::MAX
    &&& tiles * (sample_size * sample_size) <= u32::MAX
}

/// Tests `scoring_fits` for sizes that are not zero.
fn can_score(tiles: usize, cards_wide: u32, cards_tall: u32, sample_size: u32) -> (ok: bool)
    requires
        cards_wide >= 1,
        cards_tall >= 1,
        sample_size >= 1,
        tiles >= 1,
    ensures
        ok == scoring_fits(tiles as int, cards_wide as int, cards_tall as int, sample_size as int),
        ok ==> cards_wide as int * cards_tall as int <= u32::MAX,
{
    proof {
        lemma_mul_u32(cards_wide, cards_tall);
        lemma_mul_u32(sample_size, sample_size);
    }
    let area: u64 = sample_size as u64 * sample_size as u64;
    let cells: u64 = cards_wide as u64 * cards_tall as u64;
    if tiles as u128 > u32::MAX as u128 || area > u32::MAX as u64 / 1020 || cells > u32::MAX as u64 {
        proof {
            if cells > u32::MAX {
                assert(sample_size * sample_size >= 1) by (nonlinear_arith)
                    requires
                        sample_size >= 1,
                ;
                assert((cards_wide * cards_tall) * (sample_size * sample_size) > u32::MAX) by (nonlinear_arith)
                    requires
                        cards_wide * cards_tall > u32::MAX,
                        sample_size * sample_size >= 1,
                ;
            }
        }
        return false;
    }
    proof {
        assert(0 <= cells * area <= 0xffff_ffff * 0xffff_ffff) by (nonlinear_arith)
            requires
                0 <= cells <= 0xffff_ffff,
                0 <= area <= 0xffff_ffff,
        ;
        assert(0 <= tiles * area <= 0xffff_ffff * 0xffff_ffff) by (nonlinear_arith)
            requires
                0 <= tiles <= 0xffff_ffff,
                0 <= area <= 0xffff_ffff,
        ;
    }
    cells * area <= u32::MAX as u64 && (tiles as u64) * area <= u32::MAX as u64
}

/// `cols` holds, for every cell of the grid in row-major order, the ranking
/// of all tile samples by what they cost in that cell of the base sample.
pub open spec fn ranks_cells(
    cols: Seq<Vec<ColumnEntry>>,
    base: RasterImage,
    cards: Seq<RasterImage>,
    cards_wide: int,
    cards_tall: int,
    sample_size: int,
) -> bool {
    &&& cols.len() == cards_wide * cards_tall
    &&& forall|x: int, y: int|
        0 <= x < cards_wide && 0 <= y < cards_tall ==> is_ranking(
            (#[trigger] cols[y * cards_wide + x])@,
            cell_costs(base, cards, x, y, cards_wide, cards_tall, sample_size),
        )
}

/// The steps that lead from the samples to the grid: the two histograms,
/// the map between them, the matched base sample, the rankings of the tiles
/// in every cell, and the greedy selection over those rankings.
pub open spec fn placement_steps(
    grid: CardGrid,
    grid0: CardGrid,
    sample_image: RasterImage,
    sample_cards: Seq<RasterImage>,
    sample_size: int,
    placement: Placement,
    from: Seq<u32>,
    to: Seq<u32>,
    cols: Seq<Vec<ColumnEntry>>,
) -> bool {
    let cells = grid0.cell_count();
    let tiles = sample_cards.len() as int;
    &&& counts_image(from, sample_image)
    &&& counts_pool(to, sample_cards)
    &&& is_brightness_map(placement.brightness_map@, from, to)
    &&& is_matched(placement.matched_sample, sample_image, placement.brightness_map@)
    &&& ranks_cells(
        cols,
        placement.matched_sample,
        sample_cards,
        grid0.cards_wide as int,
        grid0.cards_tall as int,
        sample_size,
    )
    &&& placement.order@.len() == cells
    &&& valid_order(placement.order@, cells)
    &&& selection_done(grid.grid@, grid0.grid@, cols, placement.order@, unique_steps(tiles, cells), tiles)
    &&& cheapest_first(grid.grid@, cols, placement.order@, unique_steps(tiles, cells))
}

/// The grid is what the samples lead to: the base sample is matched in
/// brightness to the tile samples, every tile is ranked in every cell by its
/// cost against the matched sample, and the cells are bound cheapest first,
/// each tile at most once until all are placed.
pub open spec fn placed_from_samples(
    grid: CardGrid,
    grid0: CardGrid,
    sample_image: RasterImage,
    sample_cards: Seq<RasterImage>,
    sample_size: int,
    placement: Placement,
) -> bool {
    &&& grid.cards_wide == grid0.cards_wide
    &&& grid.cards_tall == grid0.cards_tall
    &&& grid.assigned(sample_cards.len() as int)
    &&& exists|from: Seq<u32>, to: Seq<u32>, cols: Seq<Vec<ColumnEntry>>| #[trigger]
        placement_steps(grid, grid0, sample_image, sample_cards, sample_size, placement, from, to, cols)
}

/// Binds a tile to every cell of the grid from the base sample and the tile
/// samples: matches the base sample's brightness to the tiles', ranks every
/// tile in every cell and selects greedily.
pub fn assign_from_samples(
    sample_image: &RasterImage,
    sample_cards: &Vec<RasterImage>,
    card_grid: &mut CardGrid,
    sample_size: u32,
) -> (r: Result<Placement, MosaicError>)
    requires
        old(card_grid).wf(),
        base_sample_fits(
            *sample_image,
            old(card_grid).cards_wide as int,
            old(card_grid).cards_tall as int,
            sample_size as int,
        ),
        forall|t: int| 0 <= t < sample_cards@.len() ==> tile_sample_fits(#[trigger] sample_cards@[t], sample_size as int),
    ensures
        match r {
            Ok(placement) => {
                &&& sample_cards@.len() > 0 && old(card_grid).cell_count() > 0 && sample_size > 0
                &&& scoring_fits(
                    sample_cards@.len() as int,
                    old(card_grid).cards_wide as int,
                    old(card_grid).cards_tall as int,
                    sample_size as int,
                )
                &&& placed_from_samples(
                    *final(card_grid),
                    *old(card_grid),
                    *sample_image,
                    sample_cards@,
                    sample_size as int,
                    placement,
                )
            },
            Err(MosaicError::DegenerateInput) => {
                &&& sample_cards@.len() == 0 || old(card_grid).cell_count() == 0 || sample_size == 0
                &&& *final(card_grid) == *old(card_grid)
            },
            Err(MosaicError::TooLarge) => {
                &&& sample_cards@.len() > 0 && old(card_grid).cell_count() > 0 && sample_size > 0
                &&& !scoring_fits(
                    sample_cards@.len() as int,
                    old(card_grid).cards_wide as int,
                    old(card_grid).cards_tall as int,
                    sample_size as int,
                )
                &&& *final(card_grid) == *old(card_grid)
            },
            Err(MosaicError::Ungridable) => false,
        },
{
    let cards_wide: u32 = card_grid.cards_wide;
    let cards_tall: u32 = card_grid.cards_tall;
    let ghost w = cards_wide as int;
    let ghost h = cards_tall as int;
    let ghost s = sample_size as int;
    let ghost grid0 = *card_grid;
    let ghost cards = sample_cards@;
    if sample_cards.len() == 0 || cards_wide == 0 || cards_tall == 0 || sample_size == 0 {
        assert(w * h == 0 <==> (w == 0 || h == 0)) by (nonlinear_arith)
            requires
                0 <= w,
                0 <= h,
        ;
        return Err(MosaicError::DegenerateInput);
    }
    assert(w * h > 0) by (nonlinear_arith)
        requires
            w > 0,
            h > 0,
    ;
    if !can_score(sample_cards.len(), cards_wide, cards_tall, sample_size) {
        return Err(MosaicError::TooLarge);
    }
    let ghost tiles = cards.len() as int;
    proof {
        assert(sample_image.pixel_count() == (w * h) * (s * s)) by (nonlinear_arith)
            requires
                sample_image.pixel_count() == (w * s) * (h * s),
        ;
    }
    let mut base_brightness_counts = create_brightness_counts();
    let mut card_brightness_counts = create_brightness_counts();
    proof {
        assert forall|b: int| 0 <= b < BUCKETS implies base_brightness_counts@[b] + brightness_count(
            sample_image.bytes@,
            sample_image.pixel_count(),
            b,
        ) <= u32::MAX by {
            lemma_brightness_count_monotonic(
                sample_image.bytes@,
                sample_image.pixel_count(),
                sample_image.pixel_count(),
                b,
            );
        }
    }
    count_brightness(sample_image, &mut base_brightness_counts);
    let mut t: usize = 0;
    while t < sample_cards.len()
        invariant
            t <= sample_cards@.len(),
            cards == sample_cards@,
            tiles == cards.len(),
            s == sample_size,
            forall|k: int| 0 <= k < cards.len() ==> tile_sample_fits(#[trigger] cards[k], s),
            tiles * (s * s) <= u32::MAX,
            card_brightness_counts@.len() == BUCKETS,
            forall|b: int| 0 <= b < BUCKETS ==> #[trigger] card_brightness_counts@[b] == pool_count(cards, t as int, b),
        decreases sample_cards@.len() - t,
    {
        proof {
            assert forall|b: int| 0 <= b < BUCKETS implies card_brightness_counts@[b] + brightness_count(
                cards[t as int].bytes@,
                cards[t as int].pixel_count(),
                b,
            ) <= u32::MAX by {
                assert forall|k: int| 0 <= k < t + 1 implies 0 <= (#[trigger] cards[k]).pixel_count() <= s * s by {
                    assert(tile_sample_fits(cards[k], s));
                    assert(s * s >= 0) by (nonlinear_arith);
                }
                lemma_pool_count_bound(cards, t + 1, b, s * s);
                assert((t + 1) * (s * s) <= tiles * (s * s)) by (nonlinear_arith)
                    requires
                        t + 1 <= tiles,
                        s * s >= 0,
                ;
            }
        }
        count_brightness(&sample_cards[t], &mut card_brightness_counts);
        t = t + 1;
    }
    let brightness_map = create_brightness_map(&base_brightness_counts, &card_brightness_counts);
    let matched = match_brightness(sample_image, &brightness_map);
    let mut columns = rank_all_cards(&matched, sample_cards, cards_wide, cards_tall, sample_size);
    let ghost cols = columns@;
    proof {
        assert forall|c: int| 0 <= c < cols.len() implies crate::assign::holds_all_tiles((#[trigger] cols[c])@, tiles) by {
            let x = c % w;
            let y = c / w;
            lemma_fundamental_div_mod(c, w);
            assert(c < w * h);
            lemma_multiply_divide_lt(c, w, h);
            assert(0 <= x < w) by (nonlinear_arith)
                requires
                    x == c % w,
                    w > 0,
            ;
            assert(0 <= y) by (nonlinear_arith)
                requires
                    y == c / w,
                    c >= 0,
                    w > 0,
            ;
            assert(c == y * w + x) by (nonlinear_arith)
                requires
                    c == w * (c / w) + c % w,
                    x == c % w,
                    y == c / w,
            ;
            assert(is_ranking(cols[y * w + x]@, cell_costs(matched, cards, x, y, w, h, s)));
            lemma_ranking_holds_all(cols[c]@, cell_costs(matched, cards, x, y, w, h, s));
        }
        assert(tile_count(cols) == tiles) by {
            assert(crate::assign::holds_all_tiles(cols[0]@, tiles));
        }
    }
    let order = greedy_selection(&mut card_grid.grid, &mut columns);
    let placement = Placement { matched_sample: matched, brightness_map, order };
    proof {
        let grid = *card_grid;
        assert(placement_steps(
            grid,
            grid0,
            *sample_image,
            cards,
            s,
            placement,
            base_brightness_counts@,
            card_brightness_counts@,
            cols,
        ));
        assert forall|i: int| 0 <= i < grid.grid@.len() implies grid.grid@[i] < tiles by {
            assert(in_stretch(placement.order@, 0, placement.order@.len() as int, i));
            let n = choose|n: int| 0 <= n < placement.order@.len() && #[trigger] placement.order@[n] == i;
            assert(grid.grid@[placement.order@[n] as int] < tiles);
        }
    }
    Ok(placement)
}

/// The image holds no pixel.
pub open spec fn is_empty_image(image: RasterImage) -> bool {
    image.width == 0 || image.height == 0
}

/// There is nothing to build a mosaic from: no tile, no cell, no sample
/// pixel, or an image without pixels.
pub open spec fn nothing_to_place(
    base_image: RasterImage,
    card_images: Seq<RasterImage>,
    cards_wide: u32,
    cards_tall: u32,
    sample_size: u32,
) -> bool {
    ||| card_images.len() == 0
    ||| cards_wide == 0
    ||| cards_tall == 0
    ||| sample_size == 0
    ||| is_empty_image(base_image)
    ||| exists|t: int| 0 <= t < card_images.len() && is_empty_image(#[trigger] card_images[t])
}

/// The base image and every tile can be resampled to their sample sizes.
pub open spec fn sampling_fits(
    base_image: RasterImage,
    card_images: Seq<RasterImage>,
    cards_wide: u32,
    cards_tall: u32,
    sample_size: u32,
) -> bool {
    &&& cards_wide as int * sample_size as int <= u32::MAX
    &&& cards_tall as int * sample_size as int <= u32::MAX
    &&& resample_fits(
        base_image.width,
        base_image.height,
        (cards_wide as int * sample_size as int) as u32,
        (cards_tall as int * sample_size as int) as u32,
    )
    &&& forall|t: int|
        0 <= t < card_images.len() ==> resample_fits(
            (#[trigger] card_images[t]).width,
            card_images[t].height,
            sample_size,
            sample_size,
        )
}

/// Tests whether the images can be sampled: `Ok` if so, else the reason.
fn check_sampling(
    base_image: &RasterImage,
    card_images: &Vec<RasterImage>,
    cards_wide: u32,
    cards_tall: u32,
    sample_size: u32,
) -> (r: Result<(), MosaicError>)
    ensures
        match r {
            Ok(_) => !nothing_to_place(*base_image, card_images@, cards_wide, cards_tall, sample_size)
                && sampling_fits(*base_image, card_images@, cards_wide, cards_tall, sample_size),
            Err(MosaicError::DegenerateInput) => nothing_to_place(
                *base_image,
                card_images@,
                cards_wide,
                cards_tall,
                sample_size,
            ),
            Err(MosaicError::TooLarge) => !nothing_to_place(
                *base_image,
                card_images@,
                cards_wide,
                cards_tall,
                sample_size,
            ) && !sampling_fits(*base_image, card_images@, cards_wide, cards_tall, sample_size),
            Err(MosaicError::Ungridable) => false,
        },
{
    if card_images.len() == 0 || cards_wide == 0 || cards_tall == 0 || sample_size == 0 || base_image.width
        == 0 || base_image.height == 0 {
        return Err(MosaicError::DegenerateInput);
    }
    let mut all_fit: bool = true;
    let mut t: usize = 0;
    while t < card_images.len()
        invariant
            t <= card_images@.len(),
            forall|k: int| 0 <= k < t ==> !is_empty_image(#[trigger] card_images@[k]),
            all_fit == forall|k: int|
                0 <= k < t ==> resample_fits(
                    (#[trigger] card_images@[k]).width,
                    card_images@[k].height,
                    sample_size,
                    sample_size,
                ),
        decreases card_images@.len() - t,
    {
        let card = &card_images[t];
        if card.width == 0 || card.height == 0 {
            assert(is_empty_image(card_images@[t as int]));
            return Err(MosaicError::DegenerateInput);
        }
        if !can_resample(card.width, card.height, sample_size, sample_size) {
            assert(!resample_fits(
                card_images@[t as int].width,
                card_images@[t as int].height,
                sample_size,
                sample_size,
            ));
            all_fit = false;
        }
        t = t + 1;
    }
    proof {
        lemma_mul_u32(cards_wide, sample_size);
        lemma_mul_u32(cards_tall, sample_size);
    }
    let sample_width: u64 = cards_wide as u64 * sample_size as u64;
    let sample_height: u64 = cards_tall as u64 * sample_size as u64;
    if !all_fit || sample_width > u32::MAX as u64 || sample_height > u32::MAX as u64 {
        return Err(MosaicError::TooLarge);
    }
    if !can_resample(base_image.width, base_image.height, sample_width as u32, sample_height as u32) {
        return Err(MosaicError::TooLarge);
    }
    Ok(())
}

/// The grid is what the images lead to: the base image and the tiles are
/// resampled to samples, and the samples lead to the grid.
pub open spec fn placed_from_images(
    grid: CardGrid,
    grid0: CardGrid,
    base_image: RasterImage,
    card_images: Seq<RasterImage>,
    sample_size: int,
    placement: Placement,
) -> bool {
    exists|sample_image: RasterImage, sample_cards: Seq<RasterImage>| #[trigger]
        sampled_and_placed(grid, grid0, base_image, card_images, sample_size, placement, sample_image, sample_cards)
}

/// See `placed_from_images`; `sample_image` and `sample_cards` are the
/// samples.
pub open spec fn sampled_and_placed(
    grid: CardGrid,
    grid0: CardGrid,
    base_image: RasterImage,
    card_images: Seq<RasterImage>,
    sample_size: int,
    placement: Placement,
    sample_image: RasterImage,
    sample_cards: Seq<RasterImage>,
) -> bool {
    &&& is_resampled(sample_image, base_image, grid0.cards_wide * sample_size, grid0.cards_tall * sample_size)
    &&& sample_cards.len() == card_images.len()
    &&& forall|t: int|
        0 <= t < sample_cards.len() ==> is_resampled(#[trigger] sample_cards[t], card_images[t], sample_size, sample_size)
    &&& placed_from_samples(grid, grid0, sample_image, sample_cards, sample_size, placement)
}

/// Binds a tile to every cell of the grid: samples the base image and the
/// tiles, matches the base sample's brightness to the tiles', ranks every
/// tile in every cell and selects greedily.
pub fn populate_grid_new(
    base_image: &RasterImage,
    card_images: &Vec<RasterImage>,
    card_grid: &mut CardGrid,
    sample_size: u32,
) -> (r: Result<Placement, MosaicError>)
    requires
        old(card_grid).wf(),
        base_image.wf(),
        forall|t: int| 0 <= t < card_images@.len() ==> (#[trigger] card_images@[t]).wf(),
    ensures
        match r {
            Ok(placement) => {
                &&& !nothing_to_place(
                    *base_image,
                    card_images@,
                    old(card_grid).cards_wide,
                    old(card_grid).cards_tall,
                    sample_size,
                )
                &&& sampling_fits(
                    *base_image,
                    card_images@,
                    old(card_grid).cards_wide,
                    old(card_grid).cards_tall,
                    sample_size,
                )
                &&& scoring_fits(
                    card_images@.len() as int,
                    old(card_grid).cards_wide as int,
                    old(card_grid).cards_tall as int,
                    sample_size as int,
                )
                &&& placed_from_images(
                    *final(card_grid),
                    *old(card_grid),
                    *base_image,
                    card_images@,
                    sample_size as int,
                    placement,
                )
            },
            Err(MosaicError::DegenerateInput) => {
                &&& nothing_to_place(
                    *base_image,
                    card_images@,
                    old(card_grid).cards_wide,
                    old(card_grid).cards_tall,
                    sample_size,
                )
                &&& *final(card_grid) == *old(card_grid)
            },
            Err(MosaicError::TooLarge) => {
                &&& !nothing_to_place(
                    *base_image,
                    card_images@,
                    old(card_grid).cards_wide,
                    old(card_grid).cards_tall,
                    sample_size,
                )
                &&& !sampling_fits(
                    *base_image,
                    card_images@,
                    old(card_grid).cards_wide,
                    old(card_grid).cards_tall,
                    sample_size,
                ) || !scoring_fits(
                    card_images@.len() as int,
                    old(card_grid).cards_wide as int,
                    old(card_grid).cards_tall as int,
                    sample_size as int,
                )
                &&& *final(card_grid) == *old(card_grid)
            },
            Err(MosaicError::Ungridable) => false,
        },
{
    let ghost grid0 = *card_grid;
    let checked = check_sampling(base_image, card_images, card_grid.cards_wide, card_grid.cards_tall, sample_size);
    match checked {
        Err(e) => {
            return Err(e);
        },
        Ok(_) => {},
    }
    if !can_score(card_images.len(), card_grid.cards_wide, card_grid.cards_tall, sample_size) {
        return Err(MosaicError::TooLarge);
    }
    let sample_image = create_sample_image(base_image, sample_size, card_grid.cards_wide, card_grid.cards_tall);
    let sample_cards = create_card_samples(card_images, sample_size);
    let r = assign_from_samples(&sample_image, &sample_cards, card_grid, sample_size);
    proof {
        assert(grid0.cell_count() > 0) by (nonlinear_arith)
            requires
                grid0.cell_count() == grid0.cards_wide as int * grid0.cards_tall as int,
                grid0.cards_wide > 0,
                grid0.cards_tall > 0,
        ;
        if r is Ok {
            assert(sampled_and_placed(
                *card_grid,
                grid0,
                *base_image,
                card_images@,
                sample_size as int,
                r->Ok_0,
                sample_image,
                sample_cards@,
            ));
        }
    }
    r
}

/// Pixel distance between a tile sample and cell `(x, y)` of the base
/// sample.
pub open spec fn tile_distance(base: RasterImage, card: RasterImage, x: int, y: int, sample_size: int) -> int {
    block_distance(
        base.bytes@,
        base.width as int,
        card.bytes@,
        card.width as int,
        x * sample_size,
        y * sample_size,
        sample_size,
        sample_size * sample_size,
    )
}

/// Tile `best` is nearest to cell `(x, y)`: no tile is nearer, and every
/// tile before it is farther.
pub open spec fn is_nearest_tile(
    best: int,
    base: RasterImage,
    cards: Seq<RasterImage>,
    x: int,
    y: int,
    sample_size: int,
) -> bool {
    &&& 0 <= best < cards.len()
    &&& forall|t: int|
        0 <= t < cards.len() ==> tile_distance(base, cards[best], x, y, sample_size) <= tile_distance(
            base,
            #[trigger] cards[t],
            x,
            y,
            sample_size,
        )
    &&& forall|t: int|
        0 <= t < best ==> tile_distance(base, cards[best], x, y, sample_size) < tile_distance(
            base,
            #[trigger] cards[t],
            x,
            y,
            sample_size,
        )
}

/// The tile sample nearest to cell `(grid_x, grid_y)` of the base sample, the
/// first such tile on a tie. Without tiles there is none to select.
pub fn select_best_card(
    sample_image: &RasterImage,
    card_images: &Vec<RasterImage>,
    sample_size: u32,
    grid_x: u32,
    grid_y: u32,
) -> (r: Result<u32, MosaicError>)
    requires
        sample_image.wf(),
        (grid_x + 1) * sample_size <= sample_image.width,
        (grid_y + 1) * sample_size <= sample_image.height,
        forall|t: int| 0 <= t < card_images@.len() ==> tile_sample_fits(#[trigger] card_images@[t], sample_size as int),
        card_images@.len() <= u32::MAX,
        765 * (sample_size as int * sample_size as int) < u32::MAX,
    ensures
        match r {
            Ok(best) => card_images@.len() > 0 && is_nearest_tile(
                best as int,
                *sample_image,
                card_images@,
                grid_x as int,
                grid_y as int,
                sample_size as int,
            ),
            Err(e) => e == MosaicError::DegenerateInput && card_images@.len() == 0,
        },
{
    if card_images.len() == 0 {
        return Err(MosaicError::DegenerateInput);
    }
    Ok(nearest_card(sample_image, card_images, sample_size, grid_x, grid_y))
}

/// The tile sample nearest to a cell, the first such tile on a tie.
fn nearest_card(
    sample_image: &RasterImage,
    card_images: &Vec<RasterImage>,
    sample_size: u32,
    grid_x: u32,
    grid_y: u32,
) -> (best: u32)
    requires
        sample_image.wf(),
        (grid_x + 1) * sample_size <= sample_image.width,
        (grid_y + 1) * sample_size <= sample_image.height,
        card_images@.len() > 0,
        forall|t: int| 0 <= t < card_images@.len() ==> tile_sample_fits(#[trigger] card_images@[t], sample_size as int),
        card_images@.len() <= u32::MAX,
        765 * (sample_size as int * sample_size as int) < u32::MAX,
    ensures
        is_nearest_tile(
            best as int,
            *sample_image,
            card_images@,
            grid_x as int,
            grid_y as int,
            sample_size as int,
        ),
{
    let ghost s = sample_size as int;
    let ghost x = grid_x as int;
    let ghost y = grid_y as int;
    proof {
        assert(x * s + s <= sample_image.width && y * s + s <= sample_image.height && 0 <= x * s && 0 <= y * s)
            by (nonlinear_arith)
            requires
                (x + 1) * s <= sample_image.width,
                (y + 1) * s <= sample_image.height,
                0 <= x,
                0 <= y,
                0 <= s,
        ;
        assert(sample_image.width as int * (y * s + s) <= sample_image.width as int * sample_image.height as int)
            by (nonlinear_arith)
            requires
                y * s + s <= sample_image.height,
                0 <= sample_image.width,
        ;
    }
    let mut least_dif: u32 = u32::MAX;
    let mut best_card: u32 = 0;
    let mut card_index: usize = 0;
    while card_index < card_images.len()
        invariant
            card_index <= card_images@.len(),
            card_images@.len() <= u32::MAX,
            s == sample_size,
            x == grid_x,
            y == grid_y,
            sample_image.wf(),
            x * s + s <= sample_image.width,
            y * s + s <= sample_image.height,
            0 <= x * s,
            0 <= y * s,
            sample_image.width as int * (y * s + s) <= sample_image.width as int * sample_image.height as int,
            forall|t: int| 0 <= t < card_images@.len() ==> tile_sample_fits(#[trigger] card_images@[t], s),
            765 * (s * s) < u32::MAX,
            card_index == 0 ==> best_card == 0 && least_dif == u32::MAX,
            card_index > 0 ==> best_card < card_index && least_dif == tile_distance(
                *sample_image,
                card_images@[best_card as int],
                x,
                y,
                s,
            ),
            forall|t: int|
                0 <= t < card_index ==> least_dif <= tile_distance(*sample_image, #[trigger] card_images@[t], x, y, s),
            forall|t: int|
                0 <= t < best_card ==> least_dif < tile_distance(*sample_image, #[trigger] card_images@[t], x, y, s),
        decreases card_images@.len() - card_index,
    {
        let card_image = &card_images[card_index];
        assert(tile_sample_fits(card_images@[card_index as int], s));
        let current_dif: u32 = card_dif(
            sample_image.bytes.as_slice(),
            sample_image.width,
            card_image.bytes.as_slice(),
            card_image.width,
            grid_x * sample_size,
            grid_y * sample_size,
            sample_size,
        );
        if current_dif < least_dif {
            least_dif = current_dif;
            best_card = card_index as u32;
        }
        card_index = card_index + 1;
    }
    best_card
}

/// Every cell of the grid is bound to the tile nearest to it, and `used`
/// marks, besides the tiles it marked before, exactly the tiles bound to
/// some cell.
pub open spec fn nearest_selected(
    grid: CardGrid,
    used: Seq<bool>,
    used0: Seq<bool>,
    sample_image: RasterImage,
    card_samples: Seq<RasterImage>,
    sample_size: int,
) -> bool {
    &&& grid.wf()
    &&& used.len() == used0.len()
    &&& forall|x: int, y: int|
        0 <= x < grid.cards_wide && 0 <= y < grid.cards_tall ==> is_nearest_tile(
            #[trigger] grid.grid@[y * grid.cards_wide + x] as int,
            sample_image,
            card_samples,
            x,
            y,
            sample_size,
        )
    &&& forall|t: int|
        0 <= t < used.len() ==> (#[trigger] used[t] <==> (used0[t] || exists|c: int|
            0 <= c < grid.grid@.len() && #[trigger] grid.grid@[c] == t))
}

/// Binds every cell of the grid to the tile sample nearest to it, and marks
/// the tiles bound as used.
pub fn select_from_samples(
    sample_image: &RasterImage,
    card_samples: &Vec<RasterImage>,
    used_cards: &mut Vec<bool>,
    card_grid: &mut CardGrid,
    sample_size: u32,
)
    requires
        old(card_grid).wf(),
        card_samples@.len() > 0,
        old(used_cards)@.len() == card_samples@.len(),
        base_sample_fits(
            *sample_image,
            old(card_grid).cards_wide as int,
            old(card_grid).cards_tall as int,
            sample_size as int,
        ),
        forall|t: int| 0 <= t < card_samples@.len() ==> tile_sample_fits(#[trigger] card_samples@[t], sample_size as int),
        card_samples@.len() <= u32::MAX,
        765 * (sample_size as int * sample_size as int) < u32::MAX,
    ensures
        final(card_grid).cards_wide == old(card_grid).cards_wide,
        final(card_grid).cards_tall == old(card_grid).cards_tall,
        nearest_selected(
            *final(card_grid),
            final(used_cards)@,
            old(used_cards)@,
            *sample_image,
            card_samples@,
            sample_size as int,
        ),
{
    let cards_wide: u32 = card_grid.cards_wide;
    let cards_tall: u32 = card_grid.cards_tall;
    let ghost w = cards_wide as int;
    let ghost h = cards_tall as int;
    let ghost s = sample_size as int;
    let ghost used0 = used_cards@;
    let ghost cards = card_samples@;
    let cells: usize = card_grid.grid.len();
    let mut cell: usize = 0;
    let mut y: u32 = 0;
    while y < cards_tall
        invariant
            y <= cards_tall,
            cell == y * w,
            w == cards_wide,
            h == cards_tall,
            s == sample_size,
            cards == card_samples@,
            card_grid.cards_wide == cards_wide,
            card_grid.cards_tall == cards_tall,
            card_grid.wf(),
            cells == w * h,
            cards.len() > 0,
            used_cards@.len() == cards.len(),
            used0.len() == cards.len(),
            base_sample_fits(*sample_image, w, h, s),
            forall|t: int| 0 <= t < cards.len() ==> tile_sample_fits(#[trigger] cards[t], s),
            cards.len() <= u32::MAX,
            765 * (s * s) < u32::MAX,
            forall|x2: int, y2: int|
                0 <= x2 < w && 0 <= y2 < y ==> is_nearest_tile(
                    #[trigger] card_grid.grid@[y2 * w + x2] as int,
                    *sample_image,
                    cards,
                    x2,
                    y2,
                    s,
                ),
            forall|t: int|
                0 <= t < cards.len() ==> (#[trigger] used_cards@[t] <==> (used0[t] || exists|c: int|
                    0 <= c < cell && #[trigger] card_grid.grid@[c] == t)),
        decreases cards_tall - y,
    {
        let mut x: u32 = 0;
        while x < cards_wide
            invariant
                x <= cards_wide,
                y < cards_tall,
                cell == y * w + x,
                w == cards_wide,
                h == cards_tall,
                s == sample_size,
                cards == card_samples@,
                card_grid.cards_wide == cards_wide,
                card_grid.cards_tall == cards_tall,
                card_grid.wf(),
                cells == w * h,
                cards.len() > 0,
                used_cards@.len() == cards.len(),
                used0.len() == cards.len(),
                base_sample_fits(*sample_image, w, h, s),
                forall|t: int| 0 <= t < cards.len() ==> tile_sample_fits(#[trigger] cards[t], s),
                cards.len() <= u32::MAX,
                765 * (s * s) < u32::MAX,
                forall|x2: int, y2: int|
                    0 <= x2 < w && (0 <= y2 < y || (y2 == y && x2 < x)) ==> is_nearest_tile(
                        #[trigger] card_grid.grid@[y2 * w + x2] as int,
                        *sample_image,
                        cards,
                        x2,
                        y2,
                        s,
                    ),
                forall|t: int|
                    0 <= t < cards.len() ==> (#[trigger] used_cards@[t] <==> (used0[t] || exists|c: int|
                        0 <= c < cell && #[trigger] card_grid.grid@[c] == t)),
            decreases cards_wide - x,
        {
            proof {
                assert((x + 1) * s <= w * s && (y + 1) * s <= h * s) by (nonlinear_arith)
                    requires
                        0 <= x < w,
                        0 <= y < h,
                        0 <= s,
                ;
                assert(y * w + x < w * h) by (nonlinear_arith)
                    requires
                        0 <= x < w,
                        0 <= y < h,
                ;
            }
            let selected_card: u32 = nearest_card(sample_image, card_samples, sample_size, x, y);
            let ghost grid_before = card_grid.grid@;
            let ghost used_before = used_cards@;
            card_grid.grid.set(cell, selected_card);
            used_cards.set(selected_card as usize, true);
            proof {
                assert forall|x2: int, y2: int| 0 <= x2 < w && (0 <= y2 < y || (y2 == y && x2 < x + 1)) implies is_nearest_tile(
                    #[trigger] card_grid.grid@[y2 * w + x2] as int,
                    *sample_image,
                    cards,
                    x2,
                    y2,
                    s,
                ) by {
                    if y2 == y && x2 == x {
                    } else {
                        assert(0 <= y2 * w + x2 < y * w + x) by (nonlinear_arith)
                            requires
                                0 <= x2 < w,
                                0 <= y2 < y || (y2 == y && x2 < x),
                                0 <= x,
                        ;
                        assert(card_grid.grid@[y2 * w + x2] == grid_before[y2 * w + x2]);
                    }
                }
                assert forall|t: int| 0 <= t < cards.len() implies (#[trigger] used_cards@[t] <==> (used0[t]
                    || exists|c: int| 0 <= c < cell + 1 && #[trigger] card_grid.grid@[c] == t)) by {
                    if t == selected_card {
                        assert(card_grid.grid@[cell as int] == t);
                    } else {
                        assert(used_cards@[t] == used_before[t]);
                        if exists|c: int| 0 <= c < cell && #[trigger] grid_before[c] == t {
                            let c = choose|c: int| 0 <= c < cell && #[trigger] grid_before[c] == t;
                            assert(card_grid.grid@[c] == t);
                        }
                        if exists|c: int| 0 <= c < cell + 1 && #[trigger] card_grid.grid@[c] == t {
                            let c = choose|c: int| 0 <= c < cell + 1 && #[trigger] card_grid.grid@[c] == t;
                            assert(c != cell);
                            assert(grid_before[c] == t);
                        }
                    }
                }
            }
            cell = cell + 1;
            x = x + 1;
        }
        assert(y * w + w == (y + 1) * w) by (nonlinear_arith);
        y = y + 1;
    }
    assert(h * w == w * h) by (nonlinear_arith);
}

/// The grid is what nearest-tile selection on the samples of the images
/// leads to.
pub open spec fn nearest_from_images(
    grid: CardGrid,
    used: Seq<bool>,
    grid0: CardGrid,
    used0: Seq<bool>,
    base_image: RasterImage,
    card_images: Seq<RasterImage>,
    sample_size: int,
) -> bool {
    exists|sample_image: RasterImage, sample_cards: Seq<RasterImage>|
        {
            &&& #[trigger] is_resampled(
                sample_image,
                base_image,
                grid0.cards_wide * sample_size,
                grid0.cards_tall * sample_size,
            )
            &&& sample_cards.len() == card_images.len()
            &&& forall|t: int|
                0 <= t < sample_cards.len() ==> is_resampled(
                    #[trigger] sample_cards[t],
                    card_images[t],
                    sample_size,
                    sample_size,
                )
            &&& #[trigger] nearest_selected(grid, used, used0, sample_image, sample_cards, sample_size)
        }
}

/// Binds every cell of the grid to the tile that is nearest to it, ignoring
/// brightness and whether a tile is used elsewhere, and marks the tiles
/// bound as used.
pub fn populate_grid(
    base_image: &RasterImage,
    card_images: &Vec<RasterImage>,
    used_cards: &mut Vec<bool>,
    card_grid: &mut CardGrid,
    sample_size: u32,
) -> (r: Result<(), MosaicError>)
    requires
        old(card_grid).wf(),
        base_image.wf(),
        forall|t: int| 0 <= t < card_images@.len() ==> (#[trigger] card_images@[t]).wf(),
        old(used_cards)@.len() == card_images@.len(),
    ensures
        final(card_grid).cards_wide == old(card_grid).cards_wide,
        final(card_grid).cards_tall == old(card_grid).cards_tall,
        match r {
            Ok(_) => {
                &&& !nothing_to_place(
                    *base_image,
                    card_images@,
                    old(card_grid).cards_wide,
                    old(card_grid).cards_tall,
                    sample_size,
                )
                &&& sampling_fits(
                    *base_image,
                    card_images@,
                    old(card_grid).cards_wide,
                    old(card_grid).cards_tall,
                    sample_size,
                )
                &&& card_images@.len() <= u32::MAX && 765 * (sample_size as int * sample_size as int) < u32::MAX
                &&& nearest_from_images(
                    *final(card_grid),
                    final(used_cards)@,
                    *old(card_grid),
                    old(used_cards)@,
                    *base_image,
                    card_images@,
                    sample_size as int,
                )
            },
            Err(MosaicError::DegenerateInput) => {
                &&& nothing_to_place(
                    *base_image,
                    card_images@,
                    old(card_grid).cards_wide,
                    old(card_grid).cards_tall,
                    sample_size,
                )
                &&& *final(card_grid) == *old(card_grid)
                &&& final(used_cards)@ == old(used_cards)@
            },
            Err(MosaicError::TooLarge) => {
                &&& !nothing_to_place(
                    *base_image,
                    card_images@,
                    old(card_grid).cards_wide,
                    old(card_grid).cards_tall,
                    sample_size,
                )
                &&& !sampling_fits(
                    *base_image,
                    card_images@,
                    old(card_grid).cards_wide,
                    old(card_grid).cards_tall,
                    sample_size,
                ) || card_images@.len() > u32::MAX || 765 * (sample_size as int * sample_size as int) >= u32::MAX
                &&& *final(card_grid) == *old(card_grid)
                &&& final(used_cards)@ == old(used_cards)@
            },
            Err(MosaicError::Ungridable) => false,
        },
{
    let ghost grid0 = *card_grid;
    let ghost used0 = used_cards@;
    let checked = check_sampling(base_image, card_images, card_grid.cards_wide, card_grid.cards_tall, sample_size);
    match checked {
        Err(e) => {
            return Err(e);
        },
        Ok(_) => {},
    }
    proof {
        lemma_mul_u32(sample_size, sample_size);
    }
    if card_images.len() as u128 > u32::MAX as u128 || 765 * (sample_size as u128 * sample_size as u128)
        >= u32::MAX as u128 {
        return Err(MosaicError::TooLarge);
    }
    let card_samples = create_card_samples(card_images, sample_size);
    let sample_image = create_sample_image(base_image, sample_size, card_grid.cards_wide, card_grid.cards_tall);
    select_from_samples(&sample_image, &card_samples, used_cards, card_grid, sample_size);
    proof {
        assert(is_resampled(
            sample_image,
            *base_image,
            grid0.cards_wide * sample_size,
            grid0.cards_tall * sample_size,
        ));
        assert(nearest_selected(*card_grid, used_cards@, used0, sample_image, card_samples@, sample_size as int));
    }
    Ok(())
}

} // verus!
