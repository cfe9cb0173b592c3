//! Compositing: renders the assigned grid at output resolution, sampling
//! each cell's tile by bilinear interpolation at exact rational positions.

use vstd::prelude::*;
use vstd::arithmetic::div_mod::lemma_fundamental_div_mod;
use vstd::arithmetic::div_mod::lemma_multiply_divide_lt;
use crate::error::MosaicError;
use crate::grid::CardGrid;
use crate::raster::{lemma_pixel_index_in_range, pixel_at, pixel_of, rgb_ints, RasterImage, Rgb};
use crate::ratio::{
    lemma_mul_u32,
    lemma_round_div_exact,
    lemma_round_div_is_nearest,
    lemma_round_div_monotonic,
    round_div,
    rounded_quotient,
    AspectRatio,
};

verus! {

/// Where cell boundary number `k` falls, in pixels, when each cell spans
/// `scale / divisor` pixels: the exact position rounded to the nearest pixel.
/// Every boundary is rounded on its own, so rounding error never adds up.
pub open spec fn edge(k: int, scale: int, divisor: int) -> int {
    round_div(k * scale, divisor)
}

/// Pixel coordinate `p` lies in cell number `k` along one axis.
pub open spec fn in_cell(p: int, k: int, scale: int, divisor: int) -> bool {
    edge(k, scale, divisor) <= p < edge(k + 1, scale, divisor)
}

/// Pixels per cell along the vertical axis, as the fraction
/// `row_scale / row_divisor`: the cell width divided by the aspect ratio.
pub open spec fn row_scale(image_width: int, aspect: AspectRatio) -> int {
    image_width * aspect.height
}

/// See `row_scale`.
pub open spec fn row_divisor(cards_wide: int, aspect: AspectRatio) -> int {
    cards_wide * aspect.width
}

/// Height in pixels of the raster rendered for a grid.
pub open spec fn output_height(cards_wide: int, cards_tall: int, aspect: AspectRatio, image_width: int) -> int {
    edge(cards_tall, row_scale(image_width, aspect), row_divisor(cards_wide, aspect))
}

/// Boundaries never move backwards.
pub proof fn lemma_edge_monotonic(j: int, k: int, scale: int, divisor: int)
    requires
        0 <= j <= k,
        0 <= scale,
        0 < divisor,
    ensures
        0 <= edge(j, scale, divisor) <= edge(k, scale, divisor),
{
    assert(0 <= j * scale <= k * scale) by (nonlinear_arith)
        requires
            0 <= j <= k,
            0 <= scale,
    ;
    lemma_round_div_monotonic(j * scale, k * scale, divisor);
    lemma_round_div_is_nearest(j * scale, divisor);
}

/// The first boundary is pixel 0, and boundary number `divisor` is pixel
/// `scale` for a scale and divisor that count whole cells and pixels.
pub proof fn lemma_edge_ends(scale: int, divisor: int)
    requires
        0 <= scale,
        0 < divisor,
    ensures
        edge(0, scale, divisor) == 0,
        edge(divisor, scale, divisor) == scale,
{
    assert(0 * scale == 0);
    lemma_round_div_exact(0, divisor);
    assert(0 * divisor == 0);
    lemma_round_div_exact(scale, divisor);
    assert(divisor * scale == scale * divisor) by (nonlinear_arith);
}

/// A pixel lies in at most one cell along an axis.
pub proof fn lemma_cell_unique(p: int, j: int, k: int, scale: int, divisor: int)
    requires
        0 <= j,
        0 <= k,
        0 <= scale,
        0 < divisor,
        in_cell(p, j, scale, divisor),
        in_cell(p, k, scale, divisor),
    ensures
        j == k,
{
    if j < k {
        lemma_edge_monotonic(j + 1, k, scale, divisor);
    } else if k < j {
        lemma_edge_monotonic(k + 1, j, scale, divisor);
    }
}

/// Every pixel before boundary `count` lies in one of the first `count`
/// cells.
pub proof fn lemma_cell_exists(p: int, count: int, scale: int, divisor: int) -> (k: int)
    requires
        0 <= count,
        0 <= scale,
        0 < divisor,
        0 <= p < edge(count, scale, divisor),
    ensures
        0 <= k < count,
        in_cell(p, k, scale, divisor),
    decreases count,
{
    if count == 0 {
        assert(0 * scale == 0);
        lemma_round_div_exact(0, divisor);
        assert(0 * divisor == 0);
        0
    } else if edge(count - 1, scale, divisor) <= p {
        count - 1
    } else {
        lemma_edge_monotonic(0, count - 1, scale, divisor);
        lemma_cell_exists(p, count - 1, scale, divisor)
    }
}

/// The scale and divisor of the vertical axis are as sound as those of the
/// horizontal one.
pub proof fn lemma_row_axis(cards_wide: int, aspect: AspectRatio, image_width: int)
    requires
        0 < cards_wide,
        0 <= image_width,
        aspect.valid(),
    ensures
        0 <= row_scale(image_width, aspect),
        0 < row_divisor(cards_wide, aspect),
{
    assert(0 <= image_width * aspect.height && 0 < cards_wide * aspect.width) by (nonlinear_arith)
        requires
            0 <= image_width,
            0 < cards_wide,
            aspect.width > 0,
            aspect.height > 0,
    ;
}

/// The cells' pixel rectangles tile the output raster without gaps or
/// overlaps: every output pixel lies in exactly one cell, the one returned.
pub proof fn lemma_cells_tile_output(
    cards_wide: int,
    cards_tall: int,
    aspect: AspectRatio,
    image_width: int,
    px: int,
    py: int,
) -> (cell: (int, int))
    requires
        0 < cards_wide,
        0 <= cards_tall,
        aspect.valid(),
        0 <= px < image_width,
        0 <= py < output_height(cards_wide, cards_tall, aspect, image_width),
    ensures
        0 <= cell.0 < cards_wide,
        0 <= cell.1 < cards_tall,
        in_cell(px, cell.0, image_width, cards_wide),
        in_cell(py, cell.1, row_scale(image_width, aspect), row_divisor(cards_wide, aspect)),
        forall|x: int, y: int|
            0 <= x && 0 <= y && #[trigger] in_cell(px, x, image_width, cards_wide) && #[trigger] in_cell(
                py,
                y,
                row_scale(image_width, aspect),
                row_divisor(cards_wide, aspect),
            ) ==> x == cell.0 && y == cell.1,
{
    let rs = row_scale(image_width, aspect);
    let rd = row_divisor(cards_wide, aspect);
    lemma_row_axis(cards_wide, aspect, image_width);
    lemma_edge_ends(image_width, cards_wide);
    let x0 = lemma_cell_exists(px, cards_wide, image_width, cards_wide);
    let y0 = lemma_cell_exists(py, cards_tall, rs, rd);
    assert forall|x: int, y: int|
        0 <= x && 0 <= y && #[trigger] in_cell(px, x, image_width, cards_wide) && #[trigger] in_cell(
            py,
            y,
            rs,
            rd,
        ) implies x == x0 && y == y0 by {
        lemma_cell_unique(px, x, x0, image_width, cards_wide);
        lemma_cell_unique(py, y, y0, rs, rd);
    }
    (x0, y0)
}

/// No cell reaches outside the output raster: its pixel rectangle starts at
/// or after the origin and ends at or before the right and bottom borders.
pub proof fn lemma_cell_inside_output(
    cards_wide: int,
    cards_tall: int,
    aspect: AspectRatio,
    image_width: int,
    x: int,
    y: int,
)
    requires
        0 <= x < cards_wide,
        0 <= y < cards_tall,
        0 <= image_width,
        aspect.valid(),
    ensures
        0 <= edge(x, image_width, cards_wide) <= edge(x + 1, image_width, cards_wide) <= image_width,
        0 <= edge(y, row_scale(image_width, aspect), row_divisor(cards_wide, aspect)) <= edge(
            y + 1,
            row_scale(image_width, aspect),
            row_divisor(cards_wide, aspect),
        ) <= output_height(cards_wide, cards_tall, aspect, image_width),
{
    let rs = row_scale(image_width, aspect);
    let rd = row_divisor(cards_wide, aspect);
    lemma_row_axis(cards_wide, aspect, image_width);
    lemma_edge_ends(image_width, cards_wide);
    lemma_edge_monotonic(x, x + 1, image_width, cards_wide);
    lemma_edge_monotonic(x + 1, cards_wide, image_width, cards_wide);
    lemma_edge_monotonic(y, y + 1, rs, rd);
    lemma_edge_monotonic(y + 1, cards_tall, rs, rd);
}

/// One channel of the pixel at column `x`, row `y`.
pub open spec fn channel_at(bytes: Seq<u8>, width: int, x: int, y: int, channel: int) -> int {
    bytes[3 * (width * y + x) + channel] as int
}

/// One channel of a raster sampled at the fractional position
/// `(num_x / den_x, num_y / den_y)`: the four pixels around the position,
/// weighted by how near each is, the right and lower neighbours clamped to
/// the last column and row, the sum rounded to the nearest integer.
pub open spec fn bilinear_channel(
    bytes: Seq<u8>,
    width: int,
    height: int,
    num_x: int,
    den_x: int,
    num_y: int,
    den_y: int,
    channel: int,
) -> int {
    let x0 = num_x / den_x;
    let fx = num_x % den_x;
    let x1 = if x0 + 1 < width {
        x0 + 1
    } else {
        width - 1
    };
    let y0 = num_y / den_y;
    let fy = num_y % den_y;
    let y1 = if y0 + 1 < height {
        y0 + 1
    } else {
        height - 1
    };
    round_div(
        channel_at(bytes, width, x0, y0, channel) * ((den_x - fx) * (den_y - fy)) + channel_at(
            bytes,
            width,
            x1,
            y0,
            channel,
        ) * (fx * (den_y - fy)) + channel_at(bytes, width, x0, y1, channel) * ((den_x - fx) * fy)
            + channel_at(bytes, width, x1, y1, channel) * (fx * fy),
        den_x * den_y,
    )
}

/// The three channels of `bilinear_channel`.
pub open spec fn bilinear_pixel(
    bytes: Seq<u8>,
    width: int,
    height: int,
    num_x: int,
    den_x: int,
    num_y: int,
    den_y: int,
) -> (int, int, int) {
    (
        bilinear_channel(bytes, width, height, num_x, den_x, num_y, den_y, 0),
        bilinear_channel(bytes, width, height, num_x, den_x, num_y, den_y, 1),
        bilinear_channel(bytes, width, height, num_x, den_x, num_y, den_y, 2),
    )
}

/// Weighted mean of four channel values, rounded to the nearest integer.
fn blend(c00: u8, c10: u8, c01: u8, c11: u8, w00: u128, w10: u128, w01: u128, w11: u128) -> (v: u8)
    requires
        1 <= w00 + w10 + w01 + w11 <= 0x1_0000_0000_0000_0000,
    ensures
        v == round_div(c00 * w00 + c10 * w10 + c01 * w01 + c11 * w11, w00 + w10 + w01 + w11),
{
    let total: u128 = w00 + w10 + w01 + w11;
    proof {
        assert(0 <= c00 * w00 <= 255 * w00) by (nonlinear_arith)
            requires
                0 <= c00 <= 255,
                0 <= w00,
        ;
        assert(0 <= c10 * w10 <= 255 * w10) by (nonlinear_arith)
            requires
                0 <= c10 <= 255,
                0 <= w10,
        ;
        assert(0 <= c01 * w01 <= 255 * w01) by (nonlinear_arith)
            requires
                0 <= c01 <= 255,
                0 <= w01,
        ;
        assert(0 <= c11 * w11 <= 255 * w11) by (nonlinear_arith)
            requires
                0 <= c11 <= 255,
                0 <= w11,
        ;
    }
    let sum: u128 = c00 as u128 * w00 + c10 as u128 * w10 + c01 as u128 * w01 + c11 as u128 * w11;
    let v: u128 = rounded_quotient(sum, total);
    proof {
        lemma_round_div_monotonic(sum as int, 255 * total as int, total as int);
        lemma_round_div_exact(255, total as int);
    }
    v as u8
}

/// Samples a raster at the fractional position `(num_x / den_x, num_y /
/// den_y)` by bilinear interpolation with edge clamping.
pub fn bilinear(bytes: &[u8], width: u32, height: u32, num_x: u64, den_x: u32, num_y: u64, den_y: u32) -> (p: Rgb)
    requires
        bytes@.len() == 3 * (width as int * height as int),
        den_x >= 1,
        den_y >= 1,
        num_x < width as int * den_x as int,
        num_y < height as int * den_y as int,
    ensures
        (p.0 as int, p.1 as int, p.2 as int) == bilinear_pixel(
            bytes@,
            width as int,
            height as int,
            num_x as int,
            den_x as int,
            num_y as int,
            den_y as int,
        ),
{
    proof {
        lemma_fundamental_div_mod(num_x as int, den_x as int);
        lemma_fundamental_div_mod(num_y as int, den_y as int);
        assert((num_x as int) < den_x as int * width as int) by (nonlinear_arith)
            requires
                num_x < width as int * den_x as int,
        ;
        assert((num_y as int) < den_y as int * height as int) by (nonlinear_arith)
            requires
                num_y < height as int * den_y as int,
        ;
        lemma_multiply_divide_lt(num_x as int, den_x as int, width as int);
        lemma_multiply_divide_lt(num_y as int, den_y as int, height as int);
    }
    let x0: u32 = (num_x / den_x as u64) as u32;
    let fx: u32 = (num_x % den_x as u64) as u32;
    let x1: u32 = if x0 < width - 1 {
        x0 + 1
    } else {
        width - 1
    };
    let y0: u32 = (num_y / den_y as u64) as u32;
    let fy: u32 = (num_y % den_y as u64) as u32;
    let y1: u32 = if y0 < height - 1 {
        y0 + 1
    } else {
        height - 1
    };
    let ax: u32 = den_x - fx;
    let ay: u32 = den_y - fy;
    proof {
        lemma_mul_u32(ax, ay);
        lemma_mul_u32(fx, ay);
        lemma_mul_u32(ax, fy);
        lemma_mul_u32(fx, fy);
        lemma_mul_u32(den_x, den_y);
        assert(ax as int * ay as int + fx as int * ay as int + ax as int * fy as int + fx as int
            * fy as int == den_x as int * den_y as int) by (nonlinear_arith)
            requires
                ax as int == den_x as int - fx as int,
                ay as int == den_y as int - fy as int,
        ;
        assert(den_x as int * den_y as int >= 1) by (nonlinear_arith)
            requires
                den_x >= 1,
                den_y >= 1,
        ;
        lemma_pixel_index_in_range(width as int, height as int, x0 as int, y0 as int);
        lemma_pixel_index_in_range(width as int, height as int, x1 as int, y0 as int);
        lemma_pixel_index_in_range(width as int, height as int, x0 as int, y1 as int);
        lemma_pixel_index_in_range(width as int, height as int, x1 as int, y1 as int);
    }
    let w00: u128 = ax as u128 * ay as u128;
    let w10: u128 = fx as u128 * ay as u128;
    let w01: u128 = ax as u128 * fy as u128;
    let w11: u128 = fx as u128 * fy as u128;
    let p00: Rgb = pixel_at(bytes, width, x0, y0);
    let p10: Rgb = pixel_at(bytes, width, x1, y0);
    let p01: Rgb = pixel_at(bytes, width, x0, y1);
    let p11: Rgb = pixel_at(bytes, width, x1, y1);
    (
        blend(p00.0, p10.0, p01.0, p11.0, w00, w10, w01, w11),
        blend(p00.1, p10.1, p01.1, p11.1, w00, w10, w01, w11),
        blend(p00.2, p10.2, p01.2, p11.2, w00, w10, w01, w11),
    )
}

/// The tile bound to cell `(x, y)`: the grid names a tile, `indices` gives
/// that tile's place among the drawable images.
pub open spec fn cell_tile(grid: CardGrid, images: Seq<RasterImage>, indices: Seq<usize>, x: int, y: int) -> RasterImage {
    images[indices[grid.grid@[grid.cards_wide as int * y + x] as int] as int]
}

/// The colour of output pixel `(px, py)` of a cell spanning columns `left`
/// to `right` and rows `top` to `bottom`: the tile sampled at the pixel's
/// relative position within the cell, scaled to the tile's own size.
pub open spec fn cell_pixel(tile: RasterImage, left: int, right: int, top: int, bottom: int, px: int, py: int) -> (int, int, int) {
    bilinear_pixel(
        tile.bytes@,
        tile.width as int,
        tile.height as int,
        (px - left) * tile.width,
        right - left,
        (py - top) * tile.height,
        bottom - top,
    )
}

/// Every tile that the grid refers to exists and holds at least one pixel.
pub open spec fn tiles_drawable(grid: CardGrid, images: Seq<RasterImage>, indices: Seq<usize>) -> bool {
    forall|i: int|
        0 <= i < grid.grid@.len() ==> {
            &&& (#[trigger] grid.grid@[i]) < indices.len()
            &&& indices[grid.grid@[i] as int] < images.len()
            &&& images[indices[grid.grid@[i] as int] as int].wf()
            &&& images[indices[grid.grid@[i] as int] as int].width >= 1
            &&& images[indices[grid.grid@[i] as int] as int].height >= 1
        }
}

/// All output pixels that precede `(limit_x, limit_y)` in raster order hold
/// the colour that their cell's tile gives them.
pub open spec fn rendered_before(
    out: Seq<u8>,
    grid: CardGrid,
    images: Seq<RasterImage>,
    indices: Seq<usize>,
    aspect: AspectRatio,
    image_width: int,
    limit_x: int,
    limit_y: int,
) -> bool {
    let cw = grid.cards_wide as int;
    let rs = row_scale(image_width, aspect);
    let rd = row_divisor(cw, aspect);
    forall|x: int, y: int, px: int, py: int|
        0 <= x < cw && 0 <= y < grid.cards_tall && #[trigger] in_cell(px, x, image_width, cw)
            && #[trigger] in_cell(py, y, rs, rd) && (py < limit_y || (py == limit_y && px < limit_x))
            ==> rgb_ints(pixel_of(out, image_width * py + px)) == cell_pixel(
            cell_tile(grid, images, indices, x, y),
            edge(x, image_width, cw),
            edge(x + 1, image_width, cw),
            edge(y, rs, rd),
            edge(y + 1, rs, rd),
            px,
            py,
        )
}

/// The whole output holds the colours that the cells' tiles give it.
pub open spec fn rendered(
    out: Seq<u8>,
    grid: CardGrid,
    images: Seq<RasterImage>,
    indices: Seq<usize>,
    aspect: AspectRatio,
    image_width: int,
) -> bool {
    rendered_before(
        out,
        grid,
        images,
        indices,
        aspect,
        image_width,
        0,
        output_height(grid.cards_wide as int, grid.cards_tall as int, aspect, image_width),
    )
}

/// Appending the right colour for the next pixel in raster order extends
/// what has been rendered by that pixel.
proof fn lemma_render_step(
    before: Seq<u8>,
    after: Seq<u8>,
    grid: CardGrid,
    images: Seq<RasterImage>,
    indices: Seq<usize>,
    aspect: AspectRatio,
    image_width: int,
    x: int,
    y: int,
    px: int,
    py: int,
)
    requires
        aspect.valid(),
        0 <= image_width,
        0 <= x < grid.cards_wide,
        0 <= y < grid.cards_tall,
        in_cell(px, x, image_width, grid.cards_wide as int),
        in_cell(py, y, row_scale(image_width, aspect), row_divisor(grid.cards_wide as int, aspect)),
        rendered_before(before, grid, images, indices, aspect, image_width, px, py),
        before.len() == 3 * (image_width * py + px),
        after.len() == before.len() + 3,
        forall|i: int| 0 <= i < before.len() ==> after[i] == before[i],
        rgb_ints(pixel_of(after, image_width * py + px)) == cell_pixel(
            cell_tile(grid, images, indices, x, y),
            edge(x, image_width, grid.cards_wide as int),
            edge(x + 1, image_width, grid.cards_wide as int),
            edge(y, row_scale(image_width, aspect), row_divisor(grid.cards_wide as int, aspect)),
            edge(y + 1, row_scale(image_width, aspect), row_divisor(grid.cards_wide as int, aspect)),
            px,
            py,
        ),
    ensures
        rendered_before(after, grid, images, indices, aspect, image_width, px + 1, py),
{
    let cw = grid.cards_wide as int;
    let ct = grid.cards_tall as int;
    let rs = row_scale(image_width, aspect);
    let rd = row_divisor(cw, aspect);
    lemma_cell_inside_output(cw, ct, aspect, image_width, x, y);
    lemma_row_axis(cw, aspect, image_width);
    assert forall|x2: int, y2: int, px2: int, py2: int|
        0 <= x2 < cw && 0 <= y2 < ct && #[trigger] in_cell(px2, x2, image_width, cw) && #[trigger] in_cell(
            py2,
            y2,
            rs,
            rd,
        ) && (py2 < py || (py2 == py && px2 < px + 1)) implies rgb_ints(
        pixel_of(after, image_width * py2 + px2),
    ) == cell_pixel(
        cell_tile(grid, images, indices, x2, y2),
        edge(x2, image_width, cw),
        edge(x2 + 1, image_width, cw),
        edge(y2, rs, rd),
        edge(y2 + 1, rs, rd),
        px2,
        py2,
    ) by {
        lemma_cell_inside_output(cw, ct, aspect, image_width, x2, y2);
        if py2 == py && px2 == px {
            lemma_cell_unique(px, x, x2, image_width, cw);
            lemma_cell_unique(py, y, y2, rs, rd);
        } else {
            assert(0 <= image_width * py2 + px2 < image_width * py + px) by (nonlinear_arith)
                requires
                    0 <= px2 < image_width,
                    0 <= py2,
                    0 <= px,
                    py2 < py || (py2 == py && px2 < px),
            ;
            assert(pixel_of(after, image_width * py2 + px2) == pixel_of(before, image_width * py2 + px2));
        }
    }
}

/// Once a row is complete, everything before the start of the next row has
/// been rendered.
proof fn lemma_render_row_done(
    out: Seq<u8>,
    grid: CardGrid,
    images: Seq<RasterImage>,
    indices: Seq<usize>,
    aspect: AspectRatio,
    image_width: int,
    py: int,
)
    requires
        aspect.valid(),
        0 <= image_width,
        rendered_before(out, grid, images, indices, aspect, image_width, image_width, py),
    ensures
        rendered_before(out, grid, images, indices, aspect, image_width, 0, py + 1),
{
    let cw = grid.cards_wide as int;
    let ct = grid.cards_tall as int;
    let rs = row_scale(image_width, aspect);
    let rd = row_divisor(cw, aspect);
    assert forall|x2: int, y2: int, px2: int, py2: int|
        0 <= x2 < cw && 0 <= y2 < ct && #[trigger] in_cell(px2, x2, image_width, cw) && #[trigger] in_cell(
            py2,
            y2,
            rs,
            rd,
        ) && (py2 < py + 1 || (py2 == py + 1 && px2 < 0)) implies rgb_ints(
        pixel_of(out, image_width * py2 + px2),
    ) == cell_pixel(
        cell_tile(grid, images, indices, x2, y2),
        edge(x2, image_width, cw),
        edge(x2 + 1, image_width, cw),
        edge(y2, rs, rd),
        edge(y2 + 1, rs, rd),
        px2,
        py2,
    ) by {
        lemma_cell_inside_output(cw, ct, aspect, image_width, x2, y2);
    }
}

/// Boundary number `k` of an axis, computed exactly.
pub fn edge_at(k: u32, scale: u64, divisor: u64) -> (e: u128)
    requires
        divisor > 0,
    ensures
        e == edge(k as int, scale as int, divisor as int),
{
    assert(0 <= k as int * scale as int <= 0xffff_ffff * 0xffff_ffff_ffff_ffff) by (nonlinear_arith)
        requires
            0 <= k <= 0xffff_ffff,
            0 <= scale <= 0xffff_ffff_ffff_ffff,
    ;
    rounded_quotient(k as u128 * scale as u128, divisor as u128)
}

/// Renders the mosaic: an `image_width` pixels wide raster in which every
/// cell of the grid shows its tile, stretched over the cell's pixel
/// rectangle by bilinear sampling.
#[verifier::loop_isolation(false)]
pub fn draw_cards(
    card_grid: &CardGrid,
    card_draw_images: Vec<RasterImage>,
    card_draw_indices: Vec<usize>,
    card_aspect: AspectRatio,
    image_width: u32,
) -> (r: Result<RasterImage, MosaicError>)
    requires
        card_grid.wf(),
        tiles_drawable(*card_grid, card_draw_images@, card_draw_indices@),
    ensures
        match r {
            Ok(out) => {
                &&& card_grid.cards_wide > 0 && card_grid.cards_tall > 0 && image_width > 0
                    && card_aspect.valid()
                &&& out.wf()
                &&& out.width == image_width
                &&& out.height == output_height(
                    card_grid.cards_wide as int,
                    card_grid.cards_tall as int,
                    card_aspect,
                    image_width as int,
                )
                &&& rendered(
                    out.bytes@,
                    *card_grid,
                    card_draw_images@,
                    card_draw_indices@,
                    card_aspect,
                    image_width as int,
                )
            },
            Err(MosaicError::DegenerateInput) => card_grid.cards_wide == 0 || card_grid.cards_tall == 0
                || image_width == 0 || !card_aspect.valid(),
            Err(MosaicError::TooLarge) => {
                &&& card_grid.cards_wide > 0 && card_grid.cards_tall > 0 && image_width > 0
                    && card_aspect.valid()
                &&& 3 * (image_width * output_height(
                    card_grid.cards_wide as int,
                    card_grid.cards_tall as int,
                    card_aspect,
                    image_width as int,
                )) > usize::MAX || output_height(
                    card_grid.cards_wide as int,
                    card_grid.cards_tall as int,
                    card_aspect,
                    image_width as int,
                ) > u32::MAX
            },
            Err(MosaicError::Ungridable) => false,
        },
{
    let cw: u32 = card_grid.cards_wide;
    let ct: u32 = card_grid.cards_tall;
    if cw == 0 || ct == 0 || image_width == 0 || !card_aspect.is_valid() {
        return Err(MosaicError::DegenerateInput);
    }
    proof {
        lemma_mul_u32(image_width, card_aspect.height);
        lemma_mul_u32(cw, card_aspect.width);
        lemma_row_axis(cw as int, card_aspect, image_width as int);
        lemma_edge_ends(image_width as int, cw as int);
        lemma_edge_ends(row_scale(image_width as int, card_aspect), row_divisor(cw as int, card_aspect));
    }
    let rs: u64 = image_width as u64 * card_aspect.height as u64;
    let rd: u64 = cw as u64 * card_aspect.width as u64;
    let exact_height: u128 = edge_at(ct, rs, rd);
    if exact_height > u32::MAX as u128 {
        return Err(MosaicError::TooLarge);
    }
    let out_height: u32 = exact_height as u32;
    proof {
        lemma_mul_u32(image_width, out_height);
    }
    if 3 * (image_width as u128 * out_height as u128) > usize::MAX as u128 {
        return Err(MosaicError::TooLarge);
    }
    let ghost images = card_draw_images@;
    let ghost indices = card_draw_indices@;
    let ghost iw = image_width as int;
    let cells: usize = card_grid.grid.len();
    let mut bytes: Vec<u8> = Vec::new();
    let mut y: u32 = 0;
    let mut top: u32 = 0;
    while y < ct
        invariant
            y <= ct,
            top == edge(y as int, rs as int, rd as int),
            bytes@.len() == 3 * (iw * top),
            rendered_before(bytes@, *card_grid, images, indices, card_aspect, iw, 0, top as int),
        decreases ct - y,
    {
        proof {
            lemma_cell_inside_output(cw as int, ct as int, card_aspect, iw, 0, y as int);
        }
        let bottom: u32 = edge_at(y + 1, rs, rd) as u32;
        let mut py: u32 = top;
        while py < bottom
            invariant
                top <= py <= bottom,
                bytes@.len() == 3 * (iw * py),
                rendered_before(bytes@, *card_grid, images, indices, card_aspect, iw, 0, py as int),
            decreases bottom - py,
        {
            let mut x: u32 = 0;
            let mut left: u32 = 0;
            while x < cw
                invariant
                    x <= cw,
                    left == edge(x as int, iw, cw as int),
                    left <= image_width,
                    bytes@.len() == 3 * (iw * py + left),
                    rendered_before(bytes@, *card_grid, images, indices, card_aspect, iw, left as int, py as int),
                decreases cw - x,
            {
                proof {
                    lemma_cell_inside_output(cw as int, ct as int, card_aspect, iw, x as int, y as int);
                    lemma_pixel_index_in_range(cw as int, ct as int, x as int, y as int);
                    lemma_mul_u32(cw, y);
                }
                let right: u32 = edge_at(x + 1, image_width as u64, cw as u64) as u32;
                let cell: usize = (cw as u64 * y as u64 + x as u64) as usize;
                let tile = &card_draw_images[card_draw_indices[card_grid.grid[cell] as usize]];
                assert(*tile == cell_tile(*card_grid, images, indices, x as int, y as int));
                let mut px: u32 = left;
                while px < right
                    invariant
                        left <= px <= right,
                        bytes@.len() == 3 * (iw * py + px),
                        rendered_before(bytes@, *card_grid, images, indices, card_aspect, iw, px as int, py as int),
                    decreases right - px,
                {
                    proof {
                        lemma_mul_u32((px - left) as u32, tile.width);
                        lemma_mul_u32((py - top) as u32, tile.height);
                        assert((px - left) * tile.width < tile.width * (right - left)) by (nonlinear_arith)
                            requires
                                0 <= px - left < right - left,
                                tile.width >= 1,
                        ;
                        assert((py - top) * tile.height < tile.height * (bottom - top)) by (nonlinear_arith)
                            requires
                                0 <= py - top < bottom - top,
                                tile.height >= 1,
                        ;
                        assert(iw * py + px < iw * out_height) by (nonlinear_arith)
                            requires
                                0 <= px < iw,
                                0 <= py < out_height,
                        ;
                    }
                    let pixel: Rgb = bilinear(
                        tile.bytes.as_slice(),
                        tile.width,
                        tile.height,
                        (px - left) as u64 * tile.width as u64,
                        right - left,
                        (py - top) as u64 * tile.height as u64,
                        bottom - top,
                    );
                    let ghost before = bytes@;
                    bytes.push(pixel.0);
                    bytes.push(pixel.1);
                    bytes.push(pixel.2);
                    proof {
                        assert(pixel_of(bytes@, iw * py + px) == pixel);
                        lemma_render_step(
                            before,
                            bytes@,
                            *card_grid,
                            images,
                            indices,
                            card_aspect,
                            iw,
                            x as int,
                            y as int,
                            px as int,
                            py as int,
                        );
                    }
                    px = px + 1;
                }
                x = x + 1;
                left = right;
            }
            proof {
                lemma_render_row_done(bytes@, *card_grid, images, indices, card_aspect, iw, py as int);
                assert(iw * py + iw == iw * (py + 1)) by (nonlinear_arith);
            }
            py = py + 1;
        }
        y = y + 1;
        top = bottom;
    }
    Ok(RasterImage { width: image_width, height: out_height, bytes })
}

} // verus!
