//! Visiting orders: the cells of a grid arranged by how well their best
//! candidate fits, or by how much detail the base image shows in them.

use vstd::prelude::*;
use vstd::arithmetic::div_mod::lemma_fundamental_div_mod;
use vstd::arithmetic::div_mod::lemma_multiply_divide_lt;
use crate::assign::{in_stretch, valid_order};
use crate::rank::{has_tile, is_ranking, rank_costs, ranked_before, ColumnEntry};
use crate::raster::{pixel_at, pixel_difference, pixel_distance, pixel_of, RasterImage, Rgb};
use crate::ratio::lemma_mul_u32;

verus! {

/// The order names every index of `keys` once, by ascending key, the lower
/// index first among equal keys.
pub open spec fn ascending_by(order: Seq<usize>, keys: Seq<u32>) -> bool {
    &&& order.len() == keys.len()
    &&& valid_order(order, keys.len() as int)
    &&& forall|c: int| 0 <= c < keys.len() ==> #[trigger] in_stretch(order, 0, order.len() as int, c)
    &&& forall|a: int, b: int|
        0 <= a < b < order.len() ==> keys[#[trigger] order[a] as int] < keys[#[trigger] order[b] as int] || (
        keys[order[a] as int] == keys[order[b] as int] && order[a] < order[b])
}

/// The indices of `keys` by ascending key, the lower index first among
/// equal keys.
pub fn ascending_order(keys: &Vec<u32>) -> (order: Vec<usize>)
    requires
        keys@.len() <= u32::MAX,
    ensures
        ascending_by(order@, keys@),
{
    let column = rank_costs(keys);
    let n: usize = column.len();
    let mut order: Vec<usize> = Vec::new();
    let mut k: usize = 0;
    while k < n
        invariant
            k <= n,
            n == column@.len(),
            is_ranking(column@, keys@),
            order@.len() == k,
            forall|i: int| 0 <= i < k ==> #[trigger] order@[i] == column@[n - 1 - i].id,
        decreases n - k,
    {
        order.push(column[n - 1 - k].id as usize);
        k = k + 1;
    }
    proof {
        let ord = order@;
        let col = column@;
        assert forall|i: int, j: int| 0 <= i < j < ord.len() implies (#[trigger] ord[i]) != (#[trigger] ord[j]) && (
        keys@[ord[i] as int] < keys@[ord[j] as int] || (keys@[ord[i] as int] == keys@[ord[j] as int] && ord[i]
            < ord[j])) by {
            assert(ranked_before(col[n - 1 - j], col[n - 1 - i]));
        }
        assert forall|c: int| 0 <= c < keys@.len() implies #[trigger] in_stretch(ord, 0, ord.len() as int, c) by {
            assert(has_tile(col, c));
            let w = choose|w: int| 0 <= w < col.len() && (#[trigger] col[w]).id == c;
            assert(ord[n - 1 - w] == c);
        }
    }
    order
}

/// What the best candidate of each cell costs.
pub open spec fn best_costs(columns: Seq<Vec<ColumnEntry>>) -> Seq<u32> {
    Seq::new(columns.len(), |c: int| columns[c]@.last().difference)
}

/// The cells ordered by what their best candidate costs, cheapest first, the
/// earlier cell first among equals.
pub fn create_best_fit_order(columns: &Vec<Vec<ColumnEntry>>) -> (order: Vec<usize>)
    requires
        columns@.len() <= u32::MAX,
        forall|c: int| 0 <= c < columns@.len() ==> (#[trigger] columns@[c])@.len() > 0,
    ensures
        ascending_by(order@, best_costs(columns@)),
{
    let mut costs: Vec<u32> = Vec::new();
    let mut spot: usize = 0;
    while spot < columns.len()
        invariant
            spot <= columns@.len(),
            forall|c: int| 0 <= c < columns@.len() ==> (#[trigger] columns@[c])@.len() > 0,
            costs@.len() == spot,
            forall|c: int| 0 <= c < spot ==> #[trigger] costs@[c] == columns@[c]@.last().difference,
        decreases columns@.len() - spot,
    {
        let column = &columns[spot];
        costs.push(column[column.len() - 1].difference);
        spot = spot + 1;
    }
    assert(costs@ =~= best_costs(columns@));
    ascending_order(&costs)
}

/// Summed distance between each of `count` pixels and the pixel before it,
/// along a run that starts at `(x, y)` and moves by `(dx, dy)`.
pub open spec fn run_distance(bytes: Seq<u8>, width: int, x: int, y: int, dx: int, dy: int, count: int) -> int
    decreases count,
{
    if count <= 0 {
        0
    } else {
        run_distance(bytes, width, x, y, dx, dy, count - 1) + pixel_distance(
            pixel_of(bytes, width * (y + (count - 1) * dy) + (x + (count - 1) * dx)),
            pixel_of(bytes, width * (y + count * dy) + (x + count * dx)),
        )
    }
}

/// Summed distance between horizontal neighbours in the first `rows` rows of
/// the block of `size` by `size` pixels at `(x, y)`.
pub open spec fn rows_detail(bytes: Seq<u8>, width: int, x: int, y: int, size: int, rows: int) -> int
    decreases rows,
{
    if rows <= 0 {
        0
    } else {
        rows_detail(bytes, width, x, y, size, rows - 1) + run_distance(bytes, width, x, y + rows - 1, 1, 0, size - 1)
    }
}

/// Summed distance between vertical neighbours in the first `columns`
/// columns of the block of `size` by `size` pixels at `(x, y)`.
pub open spec fn columns_detail(bytes: Seq<u8>, width: int, x: int, y: int, size: int, columns: int) -> int
    decreases columns,
{
    if columns <= 0 {
        0
    } else {
        columns_detail(bytes, width, x, y, size, columns - 1) + run_distance(
            bytes,
            width,
            x + columns - 1,
            y,
            0,
            1,
            size - 1,
        )
    }
}

/// How much detail the base sample shows in cell number `cell`: the summed
/// distance between all horizontal and all vertical neighbours in the
/// cell's block.
pub open spec fn cell_detail(image: RasterImage, cards_wide: int, sample_size: int, cell: int) -> int {
    let x = (cell % cards_wide) * sample_size;
    let y = (cell / cards_wide) * sample_size;
    rows_detail(image.bytes@, image.width as int, x, y, sample_size, sample_size) + columns_detail(
        image.bytes@,
        image.width as int,
        x,
        y,
        sample_size,
        sample_size,
    )
}

/// The cells are ordered by detail, most detail first, the earlier cell
/// first among equals.
pub open spec fn by_detail(order: Seq<usize>, image: RasterImage, cards_wide: int, cards_tall: int, sample_size: int) -> bool {
    &&& order.len() == cards_wide * cards_tall
    &&& valid_order(order, cards_wide * cards_tall)
    &&& forall|c: int| 0 <= c < order.len() ==> #[trigger] in_stretch(order, 0, order.len() as int, c)
    &&& forall|a: int, b: int|
        0 <= a < b < order.len() ==> {
            let da = cell_detail(image, cards_wide, sample_size, #[trigger] order[a] as int);
            let db = cell_detail(image, cards_wide, sample_size, #[trigger] order[b] as int);
            da > db || (da == db && order[a] < order[b])
        }
}

/// A run is at most 765 per step.
proof fn lemma_run_bound(bytes: Seq<u8>, width: int, x: int, y: int, dx: int, dy: int, count: int)
    requires
        0 <= count,
    ensures
        0 <= run_distance(bytes, width, x, y, dx, dy, count) <= 765 * count,
    decreases count,
{
    if count > 0 {
        lemma_run_bound(bytes, width, x, y, dx, dy, count - 1);
    }
}

/// Summed distance between each of `count` pixels and the pixel before it,
/// along a run that starts at `(x, y)` and moves right (`down` false) or down
/// (`down` true).
fn run_difference(bytes: &[u8], width: u32, height: u32, x: u32, y: u32, down: bool, count: u32) -> (total: u32)
    requires
        bytes@.len() == 3 * (width as int * height as int),
        x + if down {
            0
        } else {
            count as int
        } < width,
        y + if down {
            count as int
        } else {
            0
        } < height,
        765 * count <= u32::MAX,
    ensures
        total == run_distance(
            bytes@,
            width as int,
            x as int,
            y as int,
            if down {
                0
            } else {
                1
            },
            if down {
                1
            } else {
                0
            },
            count as int,
        ),
        total <= 765 * count,
{
    let ghost dx: int = if down {
        0
    } else {
        1
    };
    let ghost dy: int = if down {
        1
    } else {
        0
    };
    proof {
        crate::raster::lemma_pixel_index_in_range(width as int, height as int, x as int, y as int);
    }
    let mut last_pixel: Rgb = pixel_at(bytes, width, x, y);
    let mut total: u32 = 0;
    let mut k: u32 = 0;
    while k < count
        invariant
            k <= count,
            bytes@.len() == 3 * (width as int * height as int),
            x < width,
            y < height,
            !down ==> x + count < width,
            down ==> y + count < height,
            dx == 1 - dy,
            dy == if down {
                1int
            } else {
                0int
            },
            765 * count <= u32::MAX,
            last_pixel == pixel_of(bytes@, width as int * (y + k * dy) + (x + k * dx)),
            total == run_distance(bytes@, width as int, x as int, y as int, dx, dy, k as int),
            total <= 765 * k,
        decreases count - k,
    {
        k = k + 1;
        let px: u32 = if down {
            x
        } else {
            x + k
        };
        let py: u32 = if down {
            y + k
        } else {
            y
        };
        proof {
            crate::raster::lemma_pixel_index_in_range(width as int, height as int, px as int, py as int);
            if down {
                assert(dx == 0 && dy == 1);
                assert(k * dy == k && k * dx == 0 && (k - 1) * dy == k - 1 && (k - 1) * dx == 0) by (nonlinear_arith)
                    requires
                        dx == 0,
                        dy == 1,
                ;
            } else {
                assert(dx == 1 && dy == 0);
                assert(k * dy == 0 && k * dx == k && (k - 1) * dy == 0 && (k - 1) * dx == k - 1) by (nonlinear_arith)
                    requires
                        dx == 1,
                        dy == 0,
                ;
            }
        }
        let this_pixel: Rgb = pixel_at(bytes, width, px, py);
        total = total + pixel_difference(last_pixel, this_pixel);
        last_pixel = this_pixel;
    }
    total
}

/// How much detail the base sample shows in the block at `(x, y)`.
fn block_detail(image: &RasterImage, x: u32, y: u32, sample_size: u32) -> (detail: u32)
    requires
        image.wf(),
        x + sample_size <= image.width,
        y + sample_size <= image.height,
        1530 * (sample_size as int * sample_size as int) <= u32::MAX,
    ensures
        detail == rows_detail(
            image.bytes@,
            image.width as int,
            x as int,
            y as int,
            sample_size as int,
            sample_size as int,
        ) + columns_detail(
            image.bytes@,
            image.width as int,
            x as int,
            y as int,
            sample_size as int,
            sample_size as int,
        ),
{
    let ghost s = sample_size as int;
    let ghost bytes = image.bytes@;
    let ghost width = image.width as int;
    let mut running_difference: u32 = 0;
    if sample_size == 0 {
        return 0;
    }
    proof {
        assert(765 * (s - 1) <= 765 * (s * s) && s <= s * s) by (nonlinear_arith)
            requires
                s >= 1,
        ;
    }
    let mut j: u32 = 0;
    while j < sample_size
        invariant
            j <= sample_size,
            s == sample_size,
            s >= 1,
            bytes == image.bytes@,
            width == image.width,
            image.wf(),
            x + sample_size <= image.width,
            y + sample_size <= image.height,
            1530 * (s * s) <= u32::MAX,
            765 * (s - 1) <= 765 * (s * s),
            running_difference == rows_detail(bytes, width, x as int, y as int, s, j as int),
            running_difference <= 765 * (j * s),
        decreases sample_size - j,
    {
        let row: u32 = run_difference(
            image.bytes.as_slice(),
            image.width,
            image.height,
            x,
            y + j,
            false,
            sample_size - 1,
        );
        proof {
            assert(765 * (j * s) + 765 * (s - 1) <= 765 * ((j + 1) * s) && (j + 1) * s <= s * s)
                by (nonlinear_arith)
                requires
                    0 <= j < s,
            ;
        }
        running_difference = running_difference + row;
        j = j + 1;
    }
    let ghost rows = running_difference as int;
    let mut i: u32 = 0;
    while i < sample_size
        invariant
            i <= sample_size,
            s == sample_size,
            s >= 1,
            bytes == image.bytes@,
            width == image.width,
            image.wf(),
            x + sample_size <= image.width,
            y + sample_size <= image.height,
            1530 * (s * s) <= u32::MAX,
            765 * (s - 1) <= 765 * (s * s),
            rows == rows_detail(bytes, width, x as int, y as int, s, s),
            rows <= 765 * (s * s),
            running_difference == rows + columns_detail(bytes, width, x as int, y as int, s, i as int),
            running_difference <= rows + 765 * (i * s),
        decreases sample_size - i,
    {
        let column: u32 = run_difference(
            image.bytes.as_slice(),
            image.width,
            image.height,
            x + i,
            y,
            true,
            sample_size - 1,
        );
        proof {
            assert(765 * (i * s) + 765 * (s - 1) <= 765 * ((i + 1) * s) && (i + 1) * s <= s * s)
                by (nonlinear_arith)
                requires
                    0 <= i < s,
            ;
        }
        running_difference = running_difference + column;
        i = i + 1;
    }
    running_difference
}

/// The cells ordered by how much detail the base sample shows in them, most
/// detail first, the earlier cell first among equals.
pub fn create_detail_order(sample_image: &RasterImage, cards_wide: u32, cards_tall: u32, sample_size: u32) -> (order: Vec<usize>)
    requires
        sample_image.wf(),
        sample_image.width == cards_wide as int * sample_size as int,
        sample_image.height == cards_tall as int * sample_size as int,
        cards_wide as int * cards_tall as int <= u32::MAX,
        1530 * (sample_size as int * sample_size as int) <= u32::MAX,
    ensures
        by_detail(order@, *sample_image, cards_wide as int, cards_tall as int, sample_size as int),
{
    let ghost w = cards_wide as int;
    let ghost h = cards_tall as int;
    let ghost s = sample_size as int;
    proof {
        lemma_mul_u32(cards_wide, cards_tall);
    }
    let cells: u32 = (cards_wide as u64 * cards_tall as u64) as u32;
    let mut keys: Vec<u32> = Vec::new();
    let mut spot: u32 = 0;
    while spot < cells
        invariant
            spot <= cells,
            cells == w * h,
            w == cards_wide,
            h == cards_tall,
            s == sample_size,
            sample_image.wf(),
            sample_image.width == w * s,
            sample_image.height == h * s,
            1530 * (s * s) <= u32::MAX,
            keys@.len() == spot,
            forall|c: int| 0 <= c < spot ==> #[trigger] keys@[c] == u32::MAX - cell_detail(*sample_image, w, s, c),
            forall|c: int| 0 <= c < spot ==> 0 <= #[trigger] cell_detail(*sample_image, w, s, c) <= u32::MAX,
        decreases cells - spot,
    {
        assert(w > 0) by (nonlinear_arith)
            requires
                w * h > 0,
                w >= 0,
        ;
        let x: u32 = spot % cards_wide;
        let y: u32 = spot / cards_wide;
        proof {
            lemma_fundamental_div_mod(spot as int, w);
            lemma_multiply_divide_lt(spot as int, w, h);
            assert(x * s + s <= w * s && y * s + s <= h * s && 0 <= x * s && 0 <= y * s) by (nonlinear_arith)
                requires
                    0 <= x < w,
                    0 <= y < h,
                    0 <= s,
            ;
        }
        let detail: u32 = block_detail(sample_image, x * sample_size, y * sample_size, sample_size);
        keys.push(u32::MAX - detail);
        spot = spot + 1;
    }
    let order = ascending_order(&keys);
    proof {
        let ord = order@;
        assert forall|a: int, b: int| 0 <= a < b < ord.len() implies {
            let da = cell_detail(*sample_image, w, s, #[trigger] ord[a] as int);
            let db = cell_detail(*sample_image, w, s, #[trigger] ord[b] as int);
            da > db || (da == db && ord[a] < ord[b])
        } by {
            let ca = ord[a] as int;
            let cb = ord[b] as int;
            assert(keys@[ca] == u32::MAX - cell_detail(*sample_image, w, s, ca));
            assert(keys@[cb] == u32::MAX - cell_detail(*sample_image, w, s, cb));
        }
    }
    order
}

} // verus!
