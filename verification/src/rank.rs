//! Ranking: the cost of showing a tile in a cell, for every tile and cell,
//! and the per-cell candidate lists ordered from worst to best.

use vstd::prelude::*;
use vstd::arithmetic::div_mod::lemma_fundamental_div_mod_converse;
use crate::raster::{pixel_at, pixel_difference, pixel_distance, pixel_of, RasterImage};
use crate::ratio::{lemma_mul_u32, lemma_round_div_exact, lemma_round_div_monotonic, round_div, rounded_quotient};

verus! {

/// One candidate of a cell: a tile and what it costs to show it there.
#[derive(Clone, Copy, Debug, PartialEq, Eq, Structural)]
pub struct ColumnEntry {
    pub difference: u32,
    pub id: u32,
}

/// Summed pixel distance between a tile sample and the block of the base
/// sample whose top-left corner is `(x, y)`, over the first `count` pixels of
/// the `size` by `size` block in row-major order.
pub open spec fn block_distance(
    base: Seq<u8>,
    base_width: int,
    card: Seq<u8>,
    card_width: int,
    x: int,
    y: int,
    size: int,
    count: int,
) -> int
    decreases count,
{
    if count <= 0 {
        0
    } else {
        let i = (count - 1) % size;
        let j = (count - 1) / size;
        block_distance(base, base_width, card, card_width, x, y, size, count - 1) + pixel_distance(
            pixel_of(base, base_width * (y + j) + (x + i)),
            pixel_of(card, card_width * j + i),
        )
    }
}

/// The square of `v`.
pub open spec fn square(v: int) -> int {
    v * v
}

/// Extra cost of cell `(x, y)` for lying away from the grid's centre:
/// `(2x/W - 1)^2 * (2y/H - 1)^2 * S^2 * 255`, as one exact fraction rounded
/// to the nearest integer.
pub open spec fn focus_penalty(x: int, y: int, cards_wide: int, cards_tall: int, sample_size: int) -> int {
    round_div(
        square(2 * x - cards_wide) * square(2 * y - cards_tall) * (square(sample_size) * 255),
        square(cards_wide) * square(cards_tall),
    )
}

/// What it costs to show tile sample `card` in cell `(x, y)` of the base
/// sample: how far their pixels are apart, plus the cell's focus penalty.
pub open spec fn cell_cost(
    base: RasterImage,
    card: RasterImage,
    x: int,
    y: int,
    cards_wide: int,
    cards_tall: int,
    sample_size: int,
) -> int {
    block_distance(
        base.bytes@,
        base.width as int,
        card.bytes@,
        card.width as int,
        x * sample_size,
        y * sample_size,
        sample_size,
        sample_size * sample_size,
    ) + focus_penalty(x, y, cards_wide, cards_tall, sample_size)
}

/// The base sample is a grid of `cards_wide` by `cards_tall` blocks, each
/// `sample_size` pixels square.
pub open spec fn base_sample_fits(base: RasterImage, cards_wide: int, cards_tall: int, sample_size: int) -> bool {
    &&& base.wf()
    &&& base.width == cards_wide * sample_size
    &&& base.height == cards_tall * sample_size
}

/// A tile sample is `sample_size` pixels square.
pub open spec fn tile_sample_fits(card: RasterImage, sample_size: int) -> bool {
    &&& card.wf()
    &&& card.width == sample_size
    &&& card.height == sample_size
}

/// Candidate `a` stands before candidate `b` in a ranking: it costs more, or
/// costs the same and has the higher tile id. The best candidate is last.
pub open spec fn ranked_before(a: ColumnEntry, b: ColumnEntry) -> bool {
    a.difference > b.difference || (a.difference == b.difference && a.id > b.id)
}

/// The entries stand from worst to best.
pub open spec fn ranked(col: Seq<ColumnEntry>) -> bool {
    forall|a: int, b: int| 0 <= a < b < col.len() ==> ranked_before(#[trigger] col[a], #[trigger] col[b])
}

/// Every entry names a tile and carries that tile's cost.
pub open spec fn entries_match(col: Seq<ColumnEntry>, costs: Seq<u32>) -> bool {
    forall|k: int|
        0 <= k < col.len() ==> (#[trigger] col[k]).id < costs.len() && col[k].difference == costs[col[k].id as int]
}

/// Tile `t` has an entry.
pub open spec fn has_tile(col: Seq<ColumnEntry>, t: int) -> bool {
    exists|k: int| 0 <= k < col.len() && (#[trigger] col[k]).id == t
}

/// Each of the first `tiles` tiles has an entry.
pub open spec fn covers(col: Seq<ColumnEntry>, tiles: int) -> bool {
    forall|t: int| 0 <= t < tiles ==> #[trigger] has_tile(col, t)
}

/// `col` is the ranking of the tiles whose costs are `costs`: one entry per
/// tile, each with its tile's cost, from worst to best.
pub open spec fn is_ranking(col: Seq<ColumnEntry>, costs: Seq<u32>) -> bool {
    &&& col.len() == costs.len()
    &&& entries_match(col, costs)
    &&& ranked(col)
    &&& covers(col, costs.len() as int)
}

/// The costs of all tiles for cell number `cell`, read from per-tile lists.
pub open spec fn column_costs(ranks: Seq<Vec<u32>>, cell: int) -> Seq<u32> {
    Seq::new(ranks.len(), |t: int| ranks[t]@[cell])
}

/// Pixel number `k` of a `size` wide block lies at column `k % size`, row
/// `k / size`.
proof fn lemma_block_position(i: int, j: int, size: int)
    requires
        0 <= i < size,
        0 <= j,
    ensures
        (j * size + i) % size == i,
        (j * size + i) / size == j,
{
    lemma_fundamental_div_mod_converse(j * size + i, size, j, i);
}

/// The block of the base sample at `(x, y)` equals the tile sample pixel for
/// pixel.
pub open spec fn same_block(
    base: Seq<u8>,
    base_width: int,
    card: Seq<u8>,
    card_width: int,
    x: int,
    y: int,
    size: int,
) -> bool {
    forall|k: int|
        0 <= k < size * size ==> #[trigger] pixel_of(base, base_width * (y + k / size) + (x + k % size)) == pixel_of(
            card,
            card_width * (k / size) + k % size,
        )
}

/// A tile sample that equals a block of the base sample pixel for pixel is
/// at distance zero from it.
pub proof fn lemma_same_block_no_distance(
    base: Seq<u8>,
    base_width: int,
    card: Seq<u8>,
    card_width: int,
    x: int,
    y: int,
    size: int,
    count: int,
)
    requires
        0 <= count <= size * size,
        same_block(base, base_width, card, card_width, x, y, size),
    ensures
        block_distance(base, base_width, card, card_width, x, y, size, count) == 0,
    decreases count,
{
    if count > 0 {
        lemma_same_block_no_distance(base, base_width, card, card_width, x, y, size, count - 1);
        let k = count - 1;
        assert(pixel_of(base, base_width * (y + k / size) + (x + k % size)) == pixel_of(
            card,
            card_width * (k / size) + k % size,
        ));
    }
}

/// Where a tile sample equals the cell's block of the base sample, the
/// cell's cost is its focus penalty alone.
pub proof fn lemma_exact_match_costs_focus_only(
    base: RasterImage,
    card: RasterImage,
    x: int,
    y: int,
    cards_wide: int,
    cards_tall: int,
    sample_size: int,
)
    requires
        0 <= sample_size,
        same_block(
            base.bytes@,
            base.width as int,
            card.bytes@,
            card.width as int,
            x * sample_size,
            y * sample_size,
            sample_size,
        ),
    ensures
        cell_cost(base, card, x, y, cards_wide, cards_tall, sample_size) == focus_penalty(
            x,
            y,
            cards_wide,
            cards_tall,
            sample_size,
        ),
{
    assert(0 <= sample_size * sample_size) by (nonlinear_arith)
        requires
            0 <= sample_size,
    ;
    lemma_same_block_no_distance(
        base.bytes@,
        base.width as int,
        card.bytes@,
        card.width as int,
        x * sample_size,
        y * sample_size,
        sample_size,
        sample_size * sample_size,
    );
}

/// The distance over a block never exceeds 765 per pixel.
pub proof fn lemma_block_distance_bound(
    base: Seq<u8>,
    base_width: int,
    card: Seq<u8>,
    card_width: int,
    x: int,
    y: int,
    size: int,
    count: int,
)
    requires
        0 <= count,
    ensures
        0 <= block_distance(base, base_width, card, card_width, x, y, size, count) <= 765 * count,
    decreases count,
{
    if count > 0 {
        lemma_block_distance_bound(base, base_width, card, card_width, x, y, size, count - 1);
    }
}

/// Summed pixel distance between a tile sample and the block of the base
/// sample at `(x, y)`.
pub fn card_dif(
    base_bytes: &[u8],
    base_width: u32,
    card_bytes: &[u8],
    card_width: u32,
    x: u32,
    y: u32,
    sample_size: u32,
) -> (total: u32)
    requires
        x + sample_size <= base_width,
        y + sample_size <= u32::MAX,
        3 * (base_width as int * (y as int + sample_size as int)) <= base_bytes@.len(),
        sample_size <= card_width,
        3 * (card_width as int * sample_size as int) <= card_bytes@.len(),
        765 * (sample_size as int * sample_size as int) <= u32::MAX,
    ensures
        total == block_distance(
            base_bytes@,
            base_width as int,
            card_bytes@,
            card_width as int,
            x as int,
            y as int,
            sample_size as int,
            sample_size as int * sample_size as int,
        ),
        total <= 765 * (sample_size as int * sample_size as int),
{
    let mut total_difference: u32 = 0;
    let ghost size = sample_size as int;
    let mut j: u32 = 0;
    while j < sample_size
        invariant
            j <= sample_size,
            size == sample_size,
            x + sample_size <= base_width,
            y + sample_size <= u32::MAX,
            3 * (base_width as int * (y as int + sample_size as int)) <= base_bytes@.len(),
            sample_size <= card_width,
            3 * (card_width as int * sample_size as int) <= card_bytes@.len(),
            765 * (size * size) <= u32::MAX,
            total_difference == block_distance(
                base_bytes@,
                base_width as int,
                card_bytes@,
                card_width as int,
                x as int,
                y as int,
                size,
                j * size,
            ),
        decreases sample_size - j,
    {
        let mut i: u32 = 0;
        while i < sample_size
            invariant
                i <= sample_size,
                j < sample_size,
                size == sample_size,
                x + sample_size <= base_width,
                y + sample_size <= u32::MAX,
                3 * (base_width as int * (y as int + sample_size as int)) <= base_bytes@.len(),
                sample_size <= card_width,
                3 * (card_width as int * sample_size as int) <= card_bytes@.len(),
                765 * (size * size) <= u32::MAX,
                total_difference == block_distance(
                    base_bytes@,
                    base_width as int,
                    card_bytes@,
                    card_width as int,
                    x as int,
                    y as int,
                    size,
                    j * size + i,
                ),
            decreases sample_size - i,
        {
            proof {
                lemma_block_position(i as int, j as int, size);
                lemma_block_distance_bound(
                    base_bytes@,
                    base_width as int,
                    card_bytes@,
                    card_width as int,
                    x as int,
                    y as int,
                    size,
                    j * size + i,
                );
                assert(j * size + i + 1 <= size * size) by (nonlinear_arith)
                    requires
                        0 <= i < size,
                        0 <= j < size,
                ;
                let bw = base_width as int;
                let kw = card_width as int;
                let xi = x as int + i as int;
                let yj = y as int + j as int;
                assert(0 <= bw * yj && bw * yj + xi < bw * (y as int + size)) by (nonlinear_arith)
                    requires
                        0 <= xi < bw,
                        0 <= yj < y as int + size,
                ;
                assert(0 <= kw * j && kw * j + i < kw * size) by (nonlinear_arith)
                    requires
                        0 <= i < kw,
                        0 <= j < size,
                ;
            }
            let d: u32 = pixel_difference(
                pixel_at(base_bytes, base_width, x + i, y + j),
                pixel_at(card_bytes, card_width, i, j),
            );
            total_difference = total_difference + d;
            i = i + 1;
        }
        assert(j * size + size == (j + 1) * size) by (nonlinear_arith);
        j = j + 1;
    }
    proof {
        lemma_block_distance_bound(
            base_bytes@,
            base_width as int,
            card_bytes@,
            card_width as int,
            x as int,
            y as int,
            size,
            size * size,
        );
    }
    total_difference
}

/// Distance of `2 * v` from `whole`.
fn doubled_offset(v: u32, whole: u32) -> (d: u64)
    requires
        v < whole,
    ensures
        square(d as int) == square(2 * v - whole),
        d <= whole,
{
    let twice: u64 = 2 * (v as u64);
    if twice >= whole as u64 {
        let d: u64 = twice - whole as u64;
        d
    } else {
        let d: u64 = whole as u64 - twice;
        assert(square(d as int) == square(2 * v - whole)) by (nonlinear_arith)
            requires
                d as int == -(2 * v - whole),
        ;
        d
    }
}

/// Extra cost of cell `(x, y)` for lying away from the grid's centre.
pub fn added_focus_cost(x: u32, y: u32, cards_wide: u32, cards_tall: u32, sample_size: u32) -> (cost: u32)
    requires
        x < cards_wide,
        y < cards_tall,
        cards_wide as int * cards_tall as int <= u32::MAX,
        255 * (sample_size as int * sample_size as int) <= u32::MAX,
    ensures
        cost == focus_penalty(x as int, y as int, cards_wide as int, cards_tall as int, sample_size as int),
        cost <= 255 * (sample_size as int * sample_size as int),
{
    let dx: u64 = doubled_offset(x, cards_wide);
    let dy: u64 = doubled_offset(y, cards_tall);
    let ghost w = cards_wide as int;
    let ghost h = cards_tall as int;
    let ghost s = sample_size as int;
    proof {
        lemma_mul_u32(cards_wide, cards_tall);
        lemma_mul_u32(sample_size, sample_size);
        assert(0 <= dx * dy <= w * h) by (nonlinear_arith)
            requires
                0 <= dx <= w,
                0 <= dy <= h,
        ;
        assert(square(dx as int) * square(dy as int) == (dx * dy) * (dx * dy)) by (nonlinear_arith);
        assert(square(w) * square(h) == (w * h) * (w * h)) by (nonlinear_arith);
        assert(0 <= (dx * dy) * (dx * dy) <= (w * h) * (w * h)) by (nonlinear_arith)
            requires
                0 <= dx * dy <= w * h,
        ;
        assert(0 < (w * h) * (w * h) <= 0xffff_ffff * 0xffff_ffff) by (nonlinear_arith)
            requires
                0 < w,
                0 < h,
                w * h <= 0xffff_ffff,
        ;
    }
    let spread: u128 = (dx as u128 * dy as u128) * (dx as u128 * dy as u128);
    let whole: u128 = (cards_wide as u128 * cards_tall as u128) * (cards_wide as u128 * cards_tall as u128);
    let weight: u128 = (sample_size as u128 * sample_size as u128) * 255;
    proof {
        assert(0 <= spread * weight <= whole * weight) by (nonlinear_arith)
            requires
                0 <= spread <= whole,
                0 <= weight,
        ;
        assert(whole * weight <= (0xffff_ffff * 0xffff_ffff) * 0xffff_ffff) by (nonlinear_arith)
            requires
                0 <= whole <= 0xffff_ffff * 0xffff_ffff,
                0 <= weight <= 0xffff_ffff,
        ;
        assert(weight as int == square(s) * 255);
        lemma_round_div_monotonic(spread as int * weight as int, whole as int * weight as int, whole as int);
        assert(whole as int * weight as int == weight as int * whole as int) by (nonlinear_arith);
        lemma_round_div_exact(weight as int, whole as int);
    }
    let cost: u128 = rounded_quotient(spread * weight, whole);
    cost as u32
}

/// The cost of one tile sample in every cell of the base sample, cell by
/// cell in row-major order.
pub fn rank_card(
    sample_image: &RasterImage,
    sample_card: &RasterImage,
    cards_wide: u32,
    cards_tall: u32,
    sample_size: u32,
) -> (ranks: Vec<u32>)
    requires
        base_sample_fits(*sample_image, cards_wide as int, cards_tall as int, sample_size as int),
        tile_sample_fits(*sample_card, sample_size as int),
        cards_wide as int * cards_tall as int <= u32::MAX,
        1020 * (sample_size as int * sample_size as int) <= u32::MAX,
    ensures
        ranks@.len() == cards_wide as int * cards_tall as int,
        forall|x: int, y: int|
            0 <= x < cards_wide && 0 <= y < cards_tall ==> #[trigger] ranks@[y * cards_wide + x] == cell_cost(
                *sample_image,
                *sample_card,
                x,
                y,
                cards_wide as int,
                cards_tall as int,
                sample_size as int,
            ),
{
    let mut ranks: Vec<u32> = Vec::new();
    let ghost w = cards_wide as int;
    let ghost h = cards_tall as int;
    let ghost s = sample_size as int;
    let mut j: u32 = 0;
    while j < cards_tall
        invariant
            j <= cards_tall,
            w == cards_wide,
            h == cards_tall,
            s == sample_size,
            base_sample_fits(*sample_image, w, h, s),
            tile_sample_fits(*sample_card, s),
            w * h <= u32::MAX,
            1020 * (s * s) <= u32::MAX,
            ranks@.len() == j * w,
            forall|x: int, y: int|
                0 <= x < w && 0 <= y < j ==> #[trigger] ranks@[y * w + x] == cell_cost(
                    *sample_image,
                    *sample_card,
                    x,
                    y,
                    w,
                    h,
                    s,
                ),
        decreases cards_tall - j,
    {
        let mut i: u32 = 0;
        while i < cards_wide
            invariant
                i <= cards_wide,
                j < cards_tall,
                w == cards_wide,
                h == cards_tall,
                s == sample_size,
                base_sample_fits(*sample_image, w, h, s),
                tile_sample_fits(*sample_card, s),
                w * h <= u32::MAX,
                1020 * (s * s) <= u32::MAX,
                ranks@.len() == j * w + i,
                forall|x: int, y: int|
                    0 <= x < w && (0 <= y < j || (y == j && x < i)) ==> #[trigger] ranks@[y * w + x] == cell_cost(
                        *sample_image,
                        *sample_card,
                        x,
                        y,
                        w,
                        h,
                        s,
                    ),
            decreases cards_wide - i,
        {
            proof {
                assert(i * s + s <= w * s) by (nonlinear_arith)
                    requires
                        0 <= i < w,
                        0 <= s,
                ;
                assert(j * s + s <= h * s) by (nonlinear_arith)
                    requires
                        0 <= j < h,
                        0 <= s,
                ;
                assert((w * s) * (j * s + s) <= (w * s) * (h * s)) by (nonlinear_arith)
                    requires
                        j * s + s <= h * s,
                        0 <= w * s,
                ;
                assert(0 <= i * s && 0 <= j * s) by (nonlinear_arith)
                    requires
                        0 <= i,
                        0 <= j,
                        0 <= s,
                ;
            }
            let difference: u32 = card_dif(
                sample_image.bytes.as_slice(),
                sample_image.width,
                sample_card.bytes.as_slice(),
                sample_card.width,
                i * sample_size,
                j * sample_size,
                sample_size,
            );
            let focus: u32 = added_focus_cost(i, j, cards_wide, cards_tall, sample_size);
            let ghost before = ranks@;
            ranks.push(difference + focus);
            assert forall|x: int, y: int|
                0 <= x < w && (0 <= y < j || (y == j && x < i + 1)) implies #[trigger] ranks@[y * w + x]
                == cell_cost(*sample_image, *sample_card, x, y, w, h, s) by {
                if y == j && x == i {
                } else {
                    assert(0 <= y * w + x < j * w + i) by (nonlinear_arith)
                        requires
                            0 <= x < w,
                            0 <= y < j || (y == j && x < i),
                            0 <= i,
                    ;
                    assert(ranks@[y * w + x] == before[y * w + x]);
                }
            }
            i = i + 1;
        }
        assert(j * w + w == (j + 1) * w) by (nonlinear_arith);
        j = j + 1;
    }
    assert(h * w == w * h) by (nonlinear_arith);
    ranks
}

/// Where a new entry with the highest tile id so far belongs in a ranking:
/// behind every entry that costs more, before every entry that costs the
/// same or less.
fn insertion_point(column: &Vec<ColumnEntry>, difference: u32) -> (p: usize)
    requires
        ranked(column@),
    ensures
        p <= column@.len(),
        forall|k: int| 0 <= k < p ==> (#[trigger] column@[k]).difference > difference,
        forall|k: int| p <= k < column@.len() ==> (#[trigger] column@[k]).difference <= difference,
{
    let mut low: usize = 0;
    let mut high: usize = column.len();
    while low < high
        invariant
            low <= high <= column@.len(),
            ranked(column@),
            forall|k: int| 0 <= k < low ==> (#[trigger] column@[k]).difference > difference,
            forall|k: int| high <= k < column@.len() ==> (#[trigger] column@[k]).difference <= difference,
        decreases high - low,
    {
        let middle: usize = low + (high - low) / 2;
        if column[middle].difference > difference {
            assert forall|k: int| 0 <= k < middle + 1 implies (#[trigger] column@[k]).difference
                > difference by {
                if k < middle {
                    assert(ranked_before(column@[k], column@[middle as int]));
                }
            }
            low = middle + 1;
        } else {
            assert forall|k: int| middle <= k < column@.len() implies (#[trigger] column@[k]).difference
                <= difference by {
                if k > middle {
                    assert(ranked_before(column@[middle as int], column@[k]));
                }
            }
            high = middle;
        }
    }
    low
}

/// Adds the entry of the next tile to a ranking of the tiles before it.
fn insert_ranked(column: &mut Vec<ColumnEntry>, entry: ColumnEntry, costs: Ghost<Seq<u32>>)
    requires
        ranked(old(column)@),
        entries_match(old(column)@, costs@),
        covers(old(column)@, entry.id as int),
        forall|k: int| 0 <= k < old(column)@.len() ==> (#[trigger] old(column)@[k]).id < entry.id,
        entry.id < costs@.len(),
        entry.difference == costs@[entry.id as int],
    ensures
        final(column)@.len() == old(column)@.len() + 1,
        ranked(final(column)@),
        entries_match(final(column)@, costs@),
        covers(final(column)@, entry.id + 1),
        forall|k: int| 0 <= k < final(column)@.len() ==> (#[trigger] final(column)@[k]).id <= entry.id,
{
    let p: usize = insertion_point(column, entry.difference);
    let ghost before = column@;
    column.insert(p, entry);
    proof {
        let after = column@;
        assert forall|a: int, b: int| 0 <= a < b < after.len() implies ranked_before(
            #[trigger] after[a],
            #[trigger] after[b],
        ) by {
            if b < p {
                assert(ranked_before(before[a], before[b]));
            } else if b == p {
                assert(after[a] == before[a]);
            } else if a < p {
                assert(ranked_before(before[a], before[b - 1]));
            } else if a == p {
                assert(after[b] == before[b - 1]);
            } else {
                assert(ranked_before(before[a - 1], before[b - 1]));
            }
        }
        assert forall|k: int| 0 <= k < after.len() implies (#[trigger] after[k]).id < costs@.len()
            && after[k].difference == costs@[after[k].id as int] && after[k].id <= entry.id by {
            if k < p {
                assert(after[k] == before[k]);
            } else if k > p {
                assert(after[k] == before[k - 1]);
            }
        }
        assert forall|t: int| 0 <= t < entry.id + 1 implies #[trigger] has_tile(after, t) by {
            if t == entry.id {
                assert(after[p as int].id == t);
            } else {
                assert(has_tile(before, t));
                let k = choose|k: int| 0 <= k < before.len() && (#[trigger] before[k]).id == t;
                if k < p {
                    assert(after[k].id == t);
                } else {
                    assert(after[k + 1].id == t);
                }
            }
        }
    }
}

/// The ranking of the tiles whose costs are given, tile by tile.
pub fn rank_costs(costs: &Vec<u32>) -> (column: Vec<ColumnEntry>)
    requires
        costs@.len() <= u32::MAX,
    ensures
        is_ranking(column@, costs@),
{
    let mut column: Vec<ColumnEntry> = Vec::new();
    let mut t: usize = 0;
    while t < costs.len()
        invariant
            t <= costs@.len(),
            costs@.len() <= u32::MAX,
            column@.len() == t,
            ranked(column@),
            entries_match(column@, costs@),
            covers(column@, t as int),
            forall|k: int| 0 <= k < column@.len() ==> (#[trigger] column@[k]).id < t,
        decreases costs@.len() - t,
    {
        let entry = ColumnEntry { difference: costs[t], id: t as u32 };
        insert_ranked(&mut column, entry, Ghost(costs@));
        t = t + 1;
    }
    column
}

/// Turns per-tile cost lists into per-cell rankings: for each cell, every
/// tile with its cost in that cell, from worst to best.
pub fn ranks_to_columns(ranks: Vec<Vec<u32>>, cards_wide: u32, cards_tall: u32) -> (columns: Vec<Vec<ColumnEntry>>)
    requires
        ranks@.len() <= u32::MAX,
        cards_wide as int * cards_tall as int <= usize::MAX,
        forall|t: int| 0 <= t < ranks@.len() ==> (#[trigger] ranks@[t])@.len() >= cards_wide as int * cards_tall as int,
    ensures
        columns@.len() == cards_wide as int * cards_tall as int,
        forall|c: int| 0 <= c < columns@.len() ==> is_ranking((#[trigger] columns@[c])@, column_costs(ranks@, c)),
{
    proof {
        lemma_mul_u32(cards_wide, cards_tall);
    }
    let num_cards: usize = ranks.len();
    let cells: usize = (cards_wide as u64 * cards_tall as u64) as usize;
    let mut columns: Vec<Vec<ColumnEntry>> = Vec::new();
    let mut space: usize = 0;
    while space < cells
        invariant
            space <= cells,
            num_cards == ranks@.len(),
            num_cards <= u32::MAX,
            forall|t: int| 0 <= t < ranks@.len() ==> (#[trigger] ranks@[t])@.len() >= cells,
            columns@.len() == space,
            forall|c: int| 0 <= c < space ==> is_ranking((#[trigger] columns@[c])@, column_costs(ranks@, c)),
        decreases cells - space,
    {
        let ghost costs = column_costs(ranks@, space as int);
        let mut column: Vec<ColumnEntry> = Vec::new();
        let mut card_index: usize = 0;
        while card_index < num_cards
            invariant
                card_index <= num_cards,
                space < cells,
                num_cards == ranks@.len(),
                num_cards <= u32::MAX,
                forall|t: int| 0 <= t < ranks@.len() ==> (#[trigger] ranks@[t])@.len() >= cells,
                costs == column_costs(ranks@, space as int),
                column@.len() == card_index,
                ranked(column@),
                entries_match(column@, costs),
                covers(column@, card_index as int),
                forall|k: int| 0 <= k < column@.len() ==> (#[trigger] column@[k]).id < card_index,
            decreases num_cards - card_index,
        {
            let entry = ColumnEntry { difference: ranks[card_index][space], id: card_index as u32 };
            insert_ranked(&mut column, entry, Ghost(costs));
            card_index = card_index + 1;
        }
        let ghost before = columns@;
        columns.push(column);
        assert forall|c: int| 0 <= c < space + 1 implies is_ranking(
            (#[trigger] columns@[c])@,
            column_costs(ranks@, c),
        ) by {
            if c < space {
                assert(columns@[c] == before[c]);
            }
        }
        space = space + 1;
    }
    columns
}

/// The costs of every tile sample for cell `(x, y)` of the base sample.
pub open spec fn cell_costs(
    base: RasterImage,
    cards: Seq<RasterImage>,
    x: int,
    y: int,
    cards_wide: int,
    cards_tall: int,
    sample_size: int,
) -> Seq<u32> {
    Seq::new(cards.len(), |t: int| cell_cost(base, cards[t], x, y, cards_wide, cards_tall, sample_size) as u32)
}

/// Ranks every tile sample in every cell of the base sample: one ranking
/// per cell, cells in row-major order, each from worst to best.
pub fn rank_all_cards(
    sample_image: &RasterImage,
    sample_cards: &Vec<RasterImage>,
    cards_wide: u32,
    cards_tall: u32,
    sample_size: u32,
) -> (columns: Vec<Vec<ColumnEntry>>)
    requires
        base_sample_fits(*sample_image, cards_wide as int, cards_tall as int, sample_size as int),
        forall|t: int| 0 <= t < sample_cards@.len() ==> tile_sample_fits(#[trigger] sample_cards@[t], sample_size as int),
        sample_cards@.len() <= u32::MAX,
        cards_wide as int * cards_tall as int <= u32::MAX,
        1020 * (sample_size as int * sample_size as int) <= u32::MAX,
    ensures
        columns@.len() == cards_wide as int * cards_tall as int,
        forall|x: int, y: int|
            0 <= x < cards_wide && 0 <= y < cards_tall ==> is_ranking(
                (#[trigger] columns@[y * cards_wide + x])@,
                cell_costs(
                    *sample_image,
                    sample_cards@,
                    x,
                    y,
                    cards_wide as int,
                    cards_tall as int,
                    sample_size as int,
                ),
            ),
{
    let ghost w = cards_wide as int;
    let ghost h = cards_tall as int;
    let ghost s = sample_size as int;
    let mut ranks: Vec<Vec<u32>> = Vec::new();
    let mut t: usize = 0;
    while t < sample_cards.len()
        invariant
            t <= sample_cards@.len(),
            w == cards_wide,
            h == cards_tall,
            s == sample_size,
            base_sample_fits(*sample_image, w, h, s),
            forall|k: int| 0 <= k < sample_cards@.len() ==> tile_sample_fits(#[trigger] sample_cards@[k], s),
            w * h <= u32::MAX,
            1020 * (s * s) <= u32::MAX,
            ranks@.len() == t,
            forall|k: int| 0 <= k < t ==> (#[trigger] ranks@[k])@.len() == w * h,
            forall|k: int, x: int, y: int|
                0 <= k < t && 0 <= x < w && 0 <= y < h ==> #[trigger] ranks@[k]@[y * w + x] == cell_cost(
                    *sample_image,
                    sample_cards@[k],
                    x,
                    y,
                    w,
                    h,
                    s,
                ),
        decreases sample_cards@.len() - t,
    {
        let card_ranks = rank_card(sample_image, &sample_cards[t], cards_wide, cards_tall, sample_size);
        let ghost before = ranks@;
        ranks.push(card_ranks);
        assert forall|k: int, x: int, y: int| 0 <= k < t + 1 && 0 <= x < w && 0 <= y < h implies #[trigger] ranks@[k]@[y
            * w + x] == cell_cost(*sample_image, sample_cards@[k], x, y, w, h, s) by {
            if k < t {
                assert(ranks@[k] == before[k]);
            }
        }
        t = t + 1;
    }
    let ghost all_ranks = ranks@;
    let columns = ranks_to_columns(ranks, cards_wide, cards_tall);
    proof {
        assert forall|x: int, y: int| 0 <= x < w && 0 <= y < h implies is_ranking(
            (#[trigger] columns@[y * w + x])@,
            cell_costs(*sample_image, sample_cards@, x, y, w, h, s),
        ) by {
            crate::raster::lemma_pixel_index_in_range(w, h, x, y);
            assert(y * w + x == w * y + x) by (nonlinear_arith);
            let c = y * w + x;
            assert(is_ranking(columns@[c]@, column_costs(all_ranks, c)));
            assert(column_costs(all_ranks, c) =~= cell_costs(*sample_image, sample_cards@, x, y, w, h, s)) by {
                assert forall|k: int| 0 <= k < all_ranks.len() implies column_costs(all_ranks, c)[k]
                    == cell_costs(*sample_image, sample_cards@, x, y, w, h, s)[k] by {
                    assert(all_ranks[k]@[y * w + x] == cell_cost(*sample_image, sample_cards@[k], x, y, w, h, s));
                }
            }
        }
    }
    columns
}

} // verus!
