//! Assignment: binds one tile to every cell from the cells' rankings,
//! placing each tile at most once for as long as unused tiles remain.

use vstd::prelude::*;
use crate::rank::{covers, has_tile, is_ranking, ranked_before, ColumnEntry};

verus! {

/// No two entries name the same tile.
pub open spec fn distinct_ids(col: Seq<ColumnEntry>) -> bool {
    forall|a: int, b: int| 0 <= a < b < col.len() ==> (#[trigger] col[a]).id != (#[trigger] col[b]).id
}

/// The column has exactly one entry for each of `tiles` tiles.
pub open spec fn holds_all_tiles(col: Seq<ColumnEntry>, tiles: int) -> bool {
    &&& col.len() == tiles
    &&& distinct_ids(col)
    &&& covers(col, tiles)
    &&& forall|k: int| 0 <= k < col.len() ==> (#[trigger] col[k]).id < tiles
}

/// The entries of `col` whose tile is not in `placed`, in their old order.
pub open spec fn unplaced(col: Seq<ColumnEntry>, placed: Set<u32>) -> Seq<ColumnEntry>
    decreases col.len(),
{
    if col.len() == 0 {
        Seq::empty()
    } else if placed.contains(col.last().id) {
        unplaced(col.drop_last(), placed)
    } else {
        unplaced(col.drop_last(), placed).push(col.last())
    }
}

/// `col` with the last entry that names `tile` deleted, if there is one.
pub open spec fn without_tile(col: Seq<ColumnEntry>, tile: u32) -> Seq<ColumnEntry>
    decreases col.len(),
{
    if col.len() == 0 {
        col
    } else if col.last().id == tile {
        col.drop_last()
    } else {
        without_tile(col.drop_last(), tile).push(col.last())
    }
}

/// A ranking of `costs.len()` tiles has exactly one entry for each tile.
pub proof fn lemma_ranking_holds_all(col: Seq<ColumnEntry>, costs: Seq<u32>)
    requires
        is_ranking(col, costs),
    ensures
        holds_all_tiles(col, costs.len() as int),
{
    assert forall|a: int, b: int| 0 <= a < b < col.len() implies (#[trigger] col[a]).id != (#[trigger] col[b]).id by {
        assert(ranked_before(col[a], col[b]));
    }
}

/// Deleting the entry at `p` is what `without_tile` does when `p` is the
/// last place that names the tile; a column that never names it is left as
/// it is.
pub proof fn lemma_without_tile_at(col: Seq<ColumnEntry>, tile: u32, p: int)
    requires
        -1 <= p < col.len(),
        p >= 0 ==> col[p].id == tile,
        forall|k: int| p < k < col.len() ==> (#[trigger] col[k]).id != tile,
    ensures
        p >= 0 ==> without_tile(col, tile) == col.remove(p),
        p < 0 ==> without_tile(col, tile) == col,
    decreases col.len(),
{
    if col.len() == 0 {
    } else if p == col.len() - 1 {
        assert(col.remove(p) =~= col.drop_last());
    } else {
        let front = col.drop_last();
        assert(col.last().id != tile);
        assert forall|k: int| p < k < front.len() implies (#[trigger] front[k]).id != tile by {
            assert(front[k] == col[k]);
        }
        lemma_without_tile_at(front, tile, p);
        if p >= 0 {
            assert(front.remove(p).push(col.last()) =~= col.remove(p));
        } else {
            assert(front.push(col.last()) =~= col);
        }
    }
}

/// What `unplaced` keeps: every entry it holds is an entry of the column
/// whose tile is not placed, the kept entries name distinct tiles if the
/// column's do, and every unplaced tile of the column is still there.
pub proof fn lemma_unplaced_entries(col: Seq<ColumnEntry>, placed: Set<u32>)
    ensures
        unplaced(col, placed).len() <= col.len(),
        forall|k: int|
            0 <= k < unplaced(col, placed).len() ==> !placed.contains((#[trigger] unplaced(col, placed)[k]).id)
                && has_tile(col, unplaced(col, placed)[k].id as int),
        forall|t: int|
            0 <= t <= u32::MAX && has_tile(col, t) && !placed.contains(t as u32) ==> #[trigger] has_tile(
                unplaced(col, placed),
                t,
            ),
        distinct_ids(col) ==> distinct_ids(unplaced(col, placed)),
    decreases col.len(),
{
    let kept = unplaced(col, placed);
    if col.len() > 0 {
        let front = col.drop_last();
        let rest = unplaced(front, placed);
        lemma_unplaced_entries(front, placed);
        assert forall|k: int| 0 <= k < kept.len() implies !placed.contains((#[trigger] kept[k]).id) && has_tile(
            col,
            kept[k].id as int,
        ) by {
            if k < rest.len() {
                assert(kept[k] == rest[k]);
                assert(has_tile(front, rest[k].id as int));
                let w = choose|w: int| 0 <= w < front.len() && (#[trigger] front[w]).id == rest[k].id as int;
                assert(col[w].id == rest[k].id);
            } else {
                assert(kept[k] == col.last());
                assert(col[col.len() - 1].id == kept[k].id);
            }
        }
        assert forall|t: int| 0 <= t <= u32::MAX && has_tile(col, t) && !placed.contains(t as u32) implies #[trigger] has_tile(
            kept,
            t,
        ) by {
            let w = choose|w: int| 0 <= w < col.len() && (#[trigger] col[w]).id == t;
            if w < front.len() {
                assert(front[w].id == t);
                assert(has_tile(front, t));
                assert(has_tile(rest, t));
                let v = choose|v: int| 0 <= v < rest.len() && (#[trigger] rest[v]).id == t;
                assert(kept[v].id == t);
            } else {
                assert(kept[kept.len() - 1].id == t);
            }
        }
        if distinct_ids(col) {
            assert(distinct_ids(front)) by {
                assert forall|a: int, b: int| 0 <= a < b < front.len() implies (#[trigger] front[a]).id != (
                #[trigger] front[b]).id by {
                    assert(col[a].id != col[b].id);
                }
            }
            assert forall|a: int, b: int| 0 <= a < b < kept.len() implies (#[trigger] kept[a]).id != (
            #[trigger] kept[b]).id by {
                if b < rest.len() {
                    assert(rest[a].id != rest[b].id);
                } else {
                    assert(kept[a] == rest[a]);
                    assert(has_tile(front, rest[a].id as int));
                    let w = choose|w: int| 0 <= w < front.len() && (#[trigger] front[w]).id == rest[a].id as int;
                    assert(col[w].id != col[col.len() - 1].id);
                }
            }
        }
    }
}

/// With nothing placed, every entry is unplaced.
pub proof fn lemma_unplaced_none(col: Seq<ColumnEntry>)
    ensures
        unplaced(col, Set::<u32>::empty()) == col,
    decreases col.len(),
{
    if col.len() > 0 {
        lemma_unplaced_none(col.drop_last());
        assert(col.drop_last().push(col.last()) =~= col);
    }
}

/// A column that does not name a tile is not changed by deleting it.
pub proof fn lemma_without_absent(col: Seq<ColumnEntry>, tile: u32)
    requires
        !has_tile(col, tile as int),
    ensures
        without_tile(col, tile) == col,
{
    assert forall|k: int| -1 < k < col.len() implies (#[trigger] col[k]).id != tile by {
        if col[k].id == tile {
            assert(has_tile(col, tile as int));
        }
    }
    lemma_without_tile_at(col, tile, -1);
}

/// Placing one more tile deletes that tile's entry from what is unplaced:
/// the column loses exactly the entry of the tile, and one entry if it still
/// had the tile.
pub proof fn lemma_unplaced_insert(col: Seq<ColumnEntry>, placed: Set<u32>, tile: u32)
    requires
        distinct_ids(col),
    ensures
        unplaced(col, placed.insert(tile)) == without_tile(unplaced(col, placed), tile),
        has_tile(col, tile as int) && !placed.contains(tile) ==> unplaced(col, placed.insert(tile)).len()
            == unplaced(col, placed).len() - 1,
    decreases col.len(),
{
    if col.len() > 0 {
        let front = col.drop_last();
        let last = col.last();
        assert(distinct_ids(front)) by {
            assert forall|a: int, b: int| 0 <= a < b < front.len() implies (#[trigger] front[a]).id != (
            #[trigger] front[b]).id by {
                assert(col[a].id != col[b].id);
            }
        }
        lemma_unplaced_insert(front, placed, tile);
        lemma_unplaced_entries(front, placed);
        let rest = unplaced(front, placed);
        if last.id == tile {
            assert(!has_tile(front, tile as int)) by {
                if has_tile(front, tile as int) {
                    let w = choose|w: int| 0 <= w < front.len() && (#[trigger] front[w]).id == tile as int;
                    assert(col[w].id != col[col.len() - 1].id);
                }
            }
            assert(!has_tile(rest, tile as int)) by {
                if has_tile(rest, tile as int) {
                    let v = choose|v: int| 0 <= v < rest.len() && (#[trigger] rest[v]).id == tile as int;
                    assert(has_tile(front, rest[v].id as int));
                }
            }
            lemma_without_absent(rest, tile);
            if !placed.contains(tile) {
                assert(rest.push(last).drop_last() =~= rest);
            }
        } else {
            if has_tile(col, tile as int) {
                let w = choose|w: int| 0 <= w < col.len() && (#[trigger] col[w]).id == tile as int;
                assert(front[w].id == tile);
                assert(has_tile(front, tile as int));
            }
            if !placed.contains(last.id) {
                assert(placed.insert(tile).contains(last.id) == false);
                assert(rest.push(last).drop_last() =~= rest);
            }
        }
    } else {
        assert(!has_tile(col, tile as int));
    }
}

/// Deletes a tile's entry from a column, scanning from the best end.
pub fn remove_tile(column: &mut Vec<ColumnEntry>, tile: u32)
    ensures
        final(column)@ == without_tile(old(column)@, tile),
{
    let mut k: usize = column.len();
    while k > 0
        invariant
            k <= column@.len(),
            column@ == old(column)@,
            forall|n: int| k <= n < column@.len() ==> (#[trigger] column@[n]).id != tile,
        decreases k,
    {
        k = k - 1;
        if column[k].id == tile {
            proof {
                lemma_without_tile_at(column@, tile, k as int);
            }
            column.remove(k);
            return;
        }
    }
    proof {
        lemma_without_tile_at(column@, tile, -1);
    }
}

/// A blank selection grid: every cell marked as not yet bound.
pub fn create_select_grid(cards_wide: u32, cards_tall: u32) -> (grid: Vec<i32>)
    requires
        cards_wide as int * cards_tall as int <= usize::MAX,
    ensures
        grid@.len() == cards_wide as int * cards_tall as int,
        forall|i: int| 0 <= i < grid@.len() ==> grid@[i] == -1,
{
    proof {
        crate::ratio::lemma_mul_u32(cards_wide, cards_tall);
    }
    let cells: usize = (cards_wide as u64 * cards_tall as u64) as usize;
    let mut grid: Vec<i32> = Vec::new();
    let mut i: usize = 0;
    while i < cells
        invariant
            i <= cells,
            grid@.len() == i,
            forall|k: int| 0 <= k < i ==> grid@[k] == -1,
        decreases cells - i,
    {
        grid.push(-1i32);
        i = i + 1;
    }
    grid
}

/// The order names cells of a grid of `cells` cells, none of them twice.
pub open spec fn valid_order(order: Seq<usize>, cells: int) -> bool {
    &&& forall|i: int| 0 <= i < order.len() ==> (#[trigger] order[i]) < cells
    &&& forall|i: int, j: int| 0 <= i < j < order.len() ==> (#[trigger] order[i]) != (#[trigger] order[j])
}

/// The tiles bound to the cells at places `from` up to `to` of an order.
pub open spec fn placed_tiles(grid: Seq<u32>, order: Seq<usize>, from: int, to: int) -> Set<u32> {
    Set::new(|t: u32| exists|i: int| from <= i < to && grid[#[trigger] order[i] as int] == t)
}

/// `tile` is the best candidate of `col` that is not placed yet.
pub open spec fn best_unplaced(col: Seq<ColumnEntry>, placed: Set<u32>, tile: u32) -> bool {
    unplaced(col, placed).len() > 0 && unplaced(col, placed).last().id == tile
}

/// Two grids with two orders that bind the same tiles place by place over a
/// stretch have the same tiles placed there.
pub proof fn lemma_placed_same(
    g1: Seq<u32>,
    o1: Seq<usize>,
    g2: Seq<u32>,
    o2: Seq<usize>,
    from: int,
    to: int,
)
    requires
        forall|i: int| from <= i < to ==> g1[#[trigger] o1[i] as int] == g2[#[trigger] o2[i] as int],
    ensures
        placed_tiles(g1, o1, from, to) == placed_tiles(g2, o2, from, to),
{
    assert(placed_tiles(g1, o1, from, to) =~= placed_tiles(g2, o2, from, to)) by {
        assert forall|t: u32| placed_tiles(g1, o1, from, to).contains(t) == placed_tiles(g2, o2, from, to).contains(
            t,
        ) by {
            if placed_tiles(g1, o1, from, to).contains(t) {
                let i = choose|i: int| from <= i < to && g1[#[trigger] o1[i] as int] == t;
                assert(g2[o2[i] as int] == t);
            }
            if placed_tiles(g2, o2, from, to).contains(t) {
                let i = choose|i: int| from <= i < to && g2[#[trigger] o2[i] as int] == t;
                assert(g1[o1[i] as int] == t);
            }
        }
    }
}

/// One more cell adds its tile to the placed tiles.
pub proof fn lemma_placed_next(grid: Seq<u32>, order: Seq<usize>, from: int, to: int)
    requires
        from <= to,
    ensures
        placed_tiles(grid, order, from, to + 1) == placed_tiles(grid, order, from, to).insert(
            grid[order[to] as int],
        ),
        placed_tiles(grid, order, from, from) == Set::<u32>::empty(),
{
    let wider = placed_tiles(grid, order, from, to + 1);
    let grown = placed_tiles(grid, order, from, to).insert(grid[order[to] as int]);
    assert forall|t: u32| wider.contains(t) == grown.contains(t) by {
        if wider.contains(t) {
            let i = choose|i: int| from <= i < to + 1 && grid[#[trigger] order[i] as int] == t;
            if i < to {
                assert(placed_tiles(grid, order, from, to).contains(t));
            }
        }
        if grown.contains(t) {
            if t == grid[order[to] as int] {
                assert(from <= to < to + 1 && grid[order[to] as int] == t);
            } else {
                let i = choose|i: int| from <= i < to && grid[#[trigger] order[i] as int] == t;
                assert(from <= i < to + 1 && grid[order[i] as int] == t);
            }
        }
    }
    assert(wider =~= grown);
    assert(placed_tiles(grid, order, from, from) =~= Set::<u32>::empty());
}

/// Cell `c` stands at one of the places `from` up to `to` of the order.
pub open spec fn in_stretch(order: Seq<usize>, from: int, to: int, c: int) -> bool {
    exists|n: int| from <= n < to && #[trigger] order[n] == c
}

/// Which cells take part in unique placement: those at the places `from`
/// up to `to` of the order.
pub open spec fn stretch_mask(order: Seq<usize>, from: int, to: int, cells: int) -> Seq<bool> {
    Seq::new(cells as nat, |c: int| in_stretch(order, from, to, c))
}

/// Every cell takes part.
pub open spec fn all_cells(cells: int) -> Seq<bool> {
    Seq::new(cells as nat, |c: int| true)
}

/// Every cell bound by unique placement was, when its turn came, the cell
/// with the cheapest best remaining candidate among the cells that take
/// part and were not bound yet, the earliest such cell on a tie.
pub open spec fn cheapest_among(
    grid: Seq<u32>,
    cols0: Seq<Vec<ColumnEntry>>,
    bound: Seq<usize>,
    steps: int,
    part: Seq<bool>,
) -> bool {
    forall|n: int, c: int|
        0 <= n < steps && 0 <= c < cols0.len() && part[c] && !#[trigger] in_stretch(bound, 0, n, c) ==> {
            let placed = placed_tiles(grid, bound, 0, n);
            let mine = unplaced(cols0[bound[n] as int]@, placed).last().difference;
            let other = unplaced(cols0[c]@, placed).last().difference;
            mine < other || (mine == other && bound[n] <= c)
        }
}

/// `cheapest_among` when every cell takes part.
pub open spec fn cheapest_first(grid: Seq<u32>, cols0: Seq<Vec<ColumnEntry>>, order: Seq<usize>, unique: int) -> bool {
    cheapest_among(grid, cols0, order, unique, all_cells(cols0.len() as int))
}

/// Where unique placement stands after the cells of `bound` have been
/// bound, one per step, among the cells that take part:
/// - each bound cell takes part and has the best candidate of its ranking
///   that no cell bound before it had taken, and its column is left as it
///   was at its turn;
/// - no tile was taken twice, and each step bound the cheapest cell;
/// - each cell that takes part and is not bound yet is as it was and has
///   lost from its column the tiles taken so far;
/// - each cell that takes no part is as it was, and so is its column.
pub open spec fn unique_placed(
    grid: Seq<u32>,
    cols: Seq<Vec<ColumnEntry>>,
    bound: Seq<usize>,
    grid0: Seq<u32>,
    cols0: Seq<Vec<ColumnEntry>>,
    part: Seq<bool>,
    tiles: int,
) -> bool {
    let cells = cols0.len() as int;
    let steps = bound.len() as int;
    &&& grid.len() == cells && grid0.len() == cells && cols.len() == cells && part.len() == cells
    &&& valid_order(bound, cells)
    &&& forall|n: int| 0 <= n < steps ==> part[#[trigger] bound[n] as int]
    &&& forall|n: int|
        0 <= n < steps ==> {
            &&& best_unplaced(
                cols0[#[trigger] bound[n] as int]@,
                placed_tiles(grid, bound, 0, n),
                grid[bound[n] as int],
            )
            &&& grid[bound[n] as int] < tiles
            &&& cols[bound[n] as int]@ == unplaced(cols0[bound[n] as int]@, placed_tiles(grid, bound, 0, n))
        }
    &&& forall|a: int, b: int|
        0 <= a < b < steps ==> grid[#[trigger] bound[a] as int] != grid[#[trigger] bound[b] as int]
    &&& forall|c: int|
        0 <= c < cells && part[c] && !#[trigger] in_stretch(bound, 0, steps, c) ==> {
            &&& cols[c]@ == unplaced(cols0[c]@, placed_tiles(grid, bound, 0, steps))
            &&& cols[c]@.len() == tiles - steps
            &&& grid[c] == grid0[c]
        }
    &&& forall|c: int| 0 <= c < cells && !#[trigger] part[c] ==> cols[c]@ == cols0[c]@ && grid[c] == grid0[c]
    &&& cheapest_among(grid, cols0, bound, steps, part)
}

/// How many tiles the columns of a stretch of the order rank: the length of
/// the column of the stretch's first cell.
pub open spec fn stretch_tiles(cols: Seq<Vec<ColumnEntry>>, order: Seq<usize>, from: int, to: int) -> int {
    if from < to {
        cols[order[from] as int]@.len() as int
    } else {
        0
    }
}


/// How many of the first `n` cells are not bound yet.
pub open spec fn unfilled_count(filled: Seq<bool>, n: int) -> int
    decreases n,
{
    if n <= 0 {
        0
    } else {
        unfilled_count(filled, n - 1) + if filled[n - 1] {
            0int
        } else {
            1int
        }
    }
}

/// Binding one unbound cell lowers the count of unbound cells by one for
/// every stretch that holds it and leaves the count of other stretches.
proof fn lemma_unfilled_count_set(filled: Seq<bool>, c: int, n: int)
    requires
        0 <= c < filled.len(),
        !filled[c],
        0 <= n <= filled.len(),
    ensures
        unfilled_count(filled.update(c, true), n) == unfilled_count(filled, n) - if c < n {
            1int
        } else {
            0int
        },
    decreases n,
{
    if n > 0 {
        lemma_unfilled_count_set(filled, c, n - 1);
    }
}

/// A stretch without unbound cells counts none, and a count is never
/// negative.
proof fn lemma_unfilled_count_zero(filled: Seq<bool>, n: int)
    requires
        0 <= n <= filled.len(),
    ensures
        0 <= unfilled_count(filled, n),
        (forall|c: int| 0 <= c < n ==> filled[c]) ==> unfilled_count(filled, n) == 0,
    decreases n,
{
    if n > 0 {
        lemma_unfilled_count_zero(filled, n - 1);
    }
}

/// The best remaining candidate of cell `a` is cheaper than that of cell
/// `b`, or as cheap with `a` the earlier cell.
pub open spec fn cheaper_cell(cols: Seq<Vec<ColumnEntry>>, a: int, b: int) -> bool {
    cols[a]@.last().difference < cols[b]@.last().difference || (cols[a]@.last().difference
        == cols[b]@.last().difference && a <= b)
}

/// The unbound cell whose best remaining candidate is cheapest, the earliest
/// such cell on a tie; the number of cells when every cell is bound.
fn cheapest_cell(columns: &Vec<Vec<ColumnEntry>>, filled: &Vec<bool>) -> (best: usize)
    requires
        filled@.len() == columns@.len(),
        forall|c: int| 0 <= c < columns@.len() && !filled@[c] ==> (#[trigger] columns@[c])@.len() > 0,
    ensures
        best <= columns@.len(),
        best < columns@.len() ==> !filled@[best as int] && forall|c: int|
            0 <= c < columns@.len() && !#[trigger] filled@[c] ==> cheaper_cell(columns@, best as int, c),
        best == columns@.len() ==> forall|c: int| 0 <= c < columns@.len() ==> filled@[c],
{
    let cells: usize = columns.len();
    let mut best: usize = cells;
    let mut best_cost: u32 = 0;
    let mut c: usize = 0;
    while c < cells
        invariant
            c <= cells,
            cells == columns@.len(),
            filled@.len() == cells,
            forall|k: int| 0 <= k < cells && !filled@[k] ==> (#[trigger] columns@[k])@.len() > 0,
            best <= cells,
            best < cells ==> best < c && !filled@[best as int] && best_cost == columns@[best as int]@.last().difference,
            best < cells ==> forall|k: int| 0 <= k < c && !#[trigger] filled@[k] ==> cheaper_cell(columns@, best as int, k),
            best == cells ==> forall|k: int| 0 <= k < c ==> filled@[k],
        decreases cells - c,
    {
        if !filled[c] {
            let column = &columns[c];
            let cost: u32 = column[column.len() - 1].difference;
            if best == cells || cost < best_cost {
                best = c;
                best_cost = cost;
            }
        }
        c = c + 1;
    }
    best
}

/// Deletes a tile from the column of every cell that is not bound yet.
fn prune_unfilled(columns: &mut Vec<Vec<ColumnEntry>>, filled: &Vec<bool>, tile: u32)
    requires
        filled@.len() == old(columns)@.len(),
    ensures
        final(columns)@.len() == old(columns)@.len(),
        forall|c: int|
            0 <= c < old(columns)@.len() ==> (#[trigger] final(columns)@[c])@ == if filled@[c] {
                old(columns)@[c]@
            } else {
                without_tile(old(columns)@[c]@, tile)
            },
{
    let cells: usize = columns.len();
    let mut c: usize = 0;
    while c < cells
        invariant
            c <= cells,
            cells == columns@.len(),
            columns@.len() == old(columns)@.len(),
            filled@.len() == cells,
            forall|k: int|
                0 <= k < c ==> (#[trigger] columns@[k])@ == if filled@[k] {
                    old(columns)@[k]@
                } else {
                    without_tile(old(columns)@[k]@, tile)
                },
            forall|k: int| c <= k < cells ==> (#[trigger] columns@[k])@ == old(columns)@[k]@,
        decreases cells - c,
    {
        if !filled[c] {
            remove_tile(&mut columns[c], tile);
        }
        c = c + 1;
    }
}

/// The best candidate of every cell's whole ranking.
fn best_of_each(columns: &Vec<Vec<ColumnEntry>>) -> (best: Vec<u32>)
    requires
        forall|c: int| 0 <= c < columns@.len() ==> (#[trigger] columns@[c])@.len() > 0,
    ensures
        best@.len() == columns@.len(),
        forall|c: int| 0 <= c < columns@.len() ==> #[trigger] best@[c] == columns@[c]@.last().id,
{
    let mut best: Vec<u32> = Vec::new();
    let mut c: usize = 0;
    while c < columns.len()
        invariant
            c <= columns@.len(),
            forall|k: int| 0 <= k < columns@.len() ==> (#[trigger] columns@[k])@.len() > 0,
            best@.len() == c,
            forall|k: int| 0 <= k < c ==> #[trigger] best@[k] == columns@[k]@.last().id,
        decreases columns@.len() - c,
    {
        let column = &columns[c];
        best.push(column[column.len() - 1].id);
        c = c + 1;
    }
    best
}

/// Counting looks only at the stretch counted.
proof fn lemma_unfilled_count_same(f1: Seq<bool>, f2: Seq<bool>, n: int)
    requires
        0 <= n <= f1.len(),
        n <= f2.len(),
        forall|c: int| 0 <= c < n ==> f1[c] == f2[c],
    ensures
        unfilled_count(f1, n) == unfilled_count(f2, n),
    decreases n,
{
    if n > 0 {
        lemma_unfilled_count_same(f1, f2, n - 1);
    }
}

/// A stretch whose count of unbound cells is zero holds none.
proof fn lemma_unfilled_none(filled: Seq<bool>, n: int)
    requires
        0 <= n <= filled.len(),
        unfilled_count(filled, n) == 0,
    ensures
        forall|c: int| 0 <= c < n ==> filled[c],
    decreases n,
{
    if n > 0 {
        lemma_unfilled_count_zero(filled, n - 1);
        lemma_unfilled_none(filled, n - 1);
    }
}

/// Marking a bound cell as unbound raises the count of unbound cells by one
/// for every stretch that holds it.
proof fn lemma_unfilled_count_clear(filled: Seq<bool>, c: int, n: int)
    requires
        0 <= c < filled.len(),
        filled[c],
        0 <= n <= filled.len(),
    ensures
        unfilled_count(filled.update(c, false), n) == unfilled_count(filled, n) + if c < n {
            1int
        } else {
            0int
        },
    decreases n,
{
    if n > 0 {
        lemma_unfilled_count_clear(filled, c, n - 1);
    }
}

/// `filled` marks the cells that cannot be bound any more: those that take
/// no part and those bound already.
spec fn marks_bound(filled: Seq<bool>, part: Seq<bool>, bound: Seq<usize>) -> bool {
    &&& filled.len() == part.len()
    &&& forall|c: int|
        0 <= c < part.len() ==> #[trigger] filled[c] == (!part[c] || in_stretch(bound, 0, bound.len() as int, c))
}

/// Binding the cheapest unbound cell to its best remaining candidate and
/// deleting that tile from the other unbound columns keeps unique placement
/// on course.
proof fn lemma_placement_step(
    grid: Seq<u32>,
    cols: Seq<Vec<ColumnEntry>>,
    filled: Seq<bool>,
    order: Seq<usize>,
    grid0: Seq<u32>,
    cols0: Seq<Vec<ColumnEntry>>,
    part: Seq<bool>,
    tiles: int,
    best: usize,
    tile: u32,
    grid2: Seq<u32>,
    cols2: Seq<Vec<ColumnEntry>>,
)
    requires
        unique_placed(grid, cols, order, grid0, cols0, part, tiles),
        marks_bound(filled, part, order),
        forall|c: int| 0 <= c < cols0.len() && part[c] ==> holds_all_tiles((#[trigger] cols0[c])@, tiles),
        order.len() < tiles,
        best < cols0.len(),
        !filled[best as int],
        forall|c: int| 0 <= c < cols0.len() && !#[trigger] filled[c] ==> cheaper_cell(cols, best as int, c),
        tile == cols[best as int]@.last().id,
        grid2 == grid.update(best as int, tile),
        cols2.len() == cols0.len(),
        forall|c: int|
            0 <= c < cols0.len() ==> (#[trigger] cols2[c])@ == if filled.update(best as int, true)[c] {
                cols[c]@
            } else {
                without_tile(cols[c]@, tile)
            },
    ensures
        unique_placed(grid2, cols2, order.push(best), grid0, cols0, part, tiles),
        marks_bound(filled.update(best as int, true), part, order.push(best)),
{
    let cells = cols0.len() as int;
    let steps = order.len() as int;
    let filled2 = filled.update(best as int, true);
    let order2 = order.push(best);
    let taken = placed_tiles(grid, order, 0, steps);
    assert forall|c: int, n: int| 0 <= n <= steps implies in_stretch(order2, 0, n, c) == in_stretch(order, 0, n, c) by {
        if in_stretch(order2, 0, n, c) {
            let w = choose|w: int| 0 <= w < n && #[trigger] order2[w] == c;
            assert(order[w] == c);
        }
        if in_stretch(order, 0, n, c) {
            let w = choose|w: int| 0 <= w < n && #[trigger] order[w] == c;
            assert(order2[w] == c);
        }
    }
    assert(part[best as int] && !in_stretch(order, 0, steps, best as int));
    assert forall|n: int| 0 <= n < steps implies (#[trigger] order[n]) != best by {
        if order[n] == best {
            assert(in_stretch(order, 0, steps, best as int));
        }
    }
    assert forall|n: int| 0 <= n < steps implies filled[#[trigger] order[n] as int] by {
        assert(in_stretch(order, 0, steps, order[n] as int));
    }
    assert(valid_order(order2, cells)) by {
        assert forall|i: int, j: int| 0 <= i < j < order2.len() implies (#[trigger] order2[i]) != (
        #[trigger] order2[j]) by {
            if j < steps {
                assert(order[i] != order[j]);
            } else {
                assert(order[i] != best);
            }
        }
    }
    assert forall|c: int| 0 <= c < cells implies #[trigger] filled2[c] == (!part[c] || in_stretch(
        order2,
        0,
        steps + 1,
        c,
    )) by {
        if c == best {
            assert(0 <= steps < steps + 1 && order2[steps] == c);
        } else {
            if in_stretch(order2, 0, steps + 1, c) {
                let w = choose|w: int| 0 <= w < steps + 1 && #[trigger] order2[w] == c;
                assert(order[w] == c);
                assert(in_stretch(order, 0, steps, c));
            }
            if in_stretch(order, 0, steps, c) {
                let w = choose|w: int| 0 <= w < steps && #[trigger] order[w] == c;
                assert(order2[w] == c);
            }
        }
    }
    assert forall|n: int| 0 <= n <= steps implies placed_tiles(grid2, order2, 0, n) == placed_tiles(grid, order, 0, n) by {
        assert forall|i: int| 0 <= i < n implies grid2[#[trigger] order2[i] as int] == grid[#[trigger] order[i] as int] by {
            assert(order[i] != best);
        }
        lemma_placed_same(grid2, order2, grid, order, 0, n);
    }
    lemma_placed_next(grid2, order2, 0, steps);
    assert(placed_tiles(grid2, order2, 0, steps + 1) == taken.insert(tile));
    let col_best = cols0[best as int]@;
    lemma_unplaced_entries(col_best, taken);
    assert(has_tile(col_best, tile as int));
    assert(tile < tiles) by {
        let w = choose|w: int| 0 <= w < col_best.len() && (#[trigger] col_best[w]).id == tile as int;
    }
    assert(!taken.contains(tile));
    assert forall|n: int| 0 <= n < steps + 1 implies part[#[trigger] order2[n] as int] by {
        if n < steps {
            assert(order2[n] == order[n]);
        }
    }
    assert forall|n: int| 0 <= n < steps + 1 implies {
        &&& best_unplaced(
            cols0[#[trigger] order2[n] as int]@,
            placed_tiles(grid2, order2, 0, n),
            grid2[order2[n] as int],
        )
        &&& grid2[order2[n] as int] < tiles
        &&& cols2[order2[n] as int]@ == unplaced(cols0[order2[n] as int]@, placed_tiles(grid2, order2, 0, n))
    } by {
        if n < steps {
            assert(order2[n] == order[n]);
            assert(order[n] != best);
            assert(filled[order[n] as int]);
        }
    }
    assert forall|a: int, b: int| 0 <= a < b < steps + 1 implies grid2[#[trigger] order2[a] as int] != grid2[
        #[trigger] order2[b] as int] by {
        assert(order[a] != best);
        if b < steps {
            assert(order[b] != best);
            assert(grid[order[a] as int] != grid[order[b] as int]);
        } else {
            assert(taken.contains(grid[order[a] as int]));
        }
    }
    assert forall|c: int| 0 <= c < cells && part[c] && !#[trigger] in_stretch(order2, 0, steps + 1, c) implies {
        &&& cols2[c]@ == unplaced(cols0[c]@, placed_tiles(grid2, order2, 0, steps + 1))
        &&& cols2[c]@.len() == tiles - (steps + 1)
        &&& grid2[c] == grid0[c]
    } by {
        assert(!filled2[c]);
        assert(!filled[c]);
        assert(!in_stretch(order, 0, steps, c));
        lemma_unplaced_insert(cols0[c]@, taken, tile);
        assert(has_tile(cols0[c]@, tile as int));
    }
    assert forall|c: int| 0 <= c < cells && !#[trigger] part[c] implies cols2[c]@ == cols0[c]@ && grid2[c]
        == grid0[c] by {
        assert(filled[c] && filled2[c]);
    }
    assert forall|n: int, c: int|
        0 <= n < steps + 1 && 0 <= c < cols0.len() && part[c] && !#[trigger] in_stretch(order2, 0, n, c) implies {
        let placed = placed_tiles(grid2, order2, 0, n);
        let mine = unplaced(cols0[order2[n] as int]@, placed).last().difference;
        let other = unplaced(cols0[c]@, placed).last().difference;
        mine < other || (mine == other && order2[n] <= c)
    } by {
        assert(!in_stretch(order, 0, n, c));
        if n < steps {
            assert(order2[n] == order[n]);
        } else {
            assert(!filled[c]);
            assert(cheaper_cell(cols, best as int, c));
        }
    }
}

/// Unique placement, cheapest first: `unique` times, the cell that is not
/// marked in `filled` and whose best remaining candidate costs least takes
/// that candidate and is marked, and the tile is deleted from the column of
/// every other cell not marked.
#[verifier::loop_isolation(false)]
fn unique_placement(
    card_grid: &mut Vec<u32>,
    columns: &mut Vec<Vec<ColumnEntry>>,
    filled: &mut Vec<bool>,
    unique: usize,
    part: Ghost<Seq<bool>>,
    tiles: Ghost<int>,
) -> (bound: Vec<usize>)
    requires
        old(columns)@.len() == old(card_grid)@.len(),
        part@.len() == old(card_grid)@.len(),
        old(filled)@.len() == part@.len(),
        forall|c: int| 0 <= c < part@.len() ==> #[trigger] old(filled)@[c] == !part@[c],
        unique <= unfilled_count(old(filled)@, old(filled)@.len() as int),
        unique <= tiles@,
        forall|c: int| 0 <= c < part@.len() && part@[c] ==> holds_all_tiles((#[trigger] old(columns)@[c])@, tiles@),
    ensures
        bound@.len() == unique,
        unique_placed(
            final(card_grid)@,
            final(columns)@,
            bound@,
            old(card_grid)@,
            old(columns)@,
            part@,
            tiles@,
        ),
        marks_bound(final(filled)@, part@, bound@),
        unfilled_count(final(filled)@, final(filled)@.len() as int) == unfilled_count(
            old(filled)@,
            old(filled)@.len() as int,
        ) - unique,
{
    let ghost grid0 = card_grid@;
    let ghost cols0 = columns@;
    let ghost total = unfilled_count(filled@, filled@.len() as int);
    let cells: usize = card_grid.len();
    let mut bound: Vec<usize> = Vec::new();
    proof {
        lemma_placed_next(grid0, bound@, 0, 0);
        assert forall|c: int| 0 <= c < cells && part@[c] implies columns@[c]@ == unplaced(
            cols0[c]@,
            placed_tiles(card_grid@, bound@, 0, 0),
        ) && columns@[c]@.len() == tiles@ by {
            lemma_unplaced_none(cols0[c]@);
            assert(holds_all_tiles(cols0[c]@, tiles@));
        }
    }
    let mut step: usize = 0;
    while step < unique
        invariant
            step <= unique,
            bound@.len() == step,
            filled@.len() == cells,
            unique_placed(card_grid@, columns@, bound@, grid0, cols0, part@, tiles@),
            marks_bound(filled@, part@, bound@),
            unfilled_count(filled@, cells as int) == total - step,
        decreases unique - step,
    {
        proof {
            assert forall|c: int| 0 <= c < cells && !filled@[c] implies (#[trigger] columns@[c])@.len() > 0 by {
                assert(part@[c] && !in_stretch(bound@, 0, step as int, c));
            }
        }
        let best: usize = cheapest_cell(columns, filled);
        proof {
            if best == cells {
                lemma_unfilled_count_zero(filled@, cells as int);
            }
            assert(part@[best as int] && !in_stretch(bound@, 0, step as int, best as int));
        }
        let column = &columns[best];
        let card_id: u32 = column[column.len() - 1].id;
        let ghost grid1 = card_grid@;
        let ghost cols1 = columns@;
        let ghost filled1 = filled@;
        let ghost bound1 = bound@;
        card_grid.set(best, card_id);
        filled.set(best, true);
        bound.push(best);
        prune_unfilled(columns, filled, card_id);
        proof {
            lemma_unfilled_count_set(filled1, best as int, cells as int);
            lemma_placement_step(
                grid1,
                cols1,
                filled1,
                bound1,
                grid0,
                cols0,
                part@,
                tiles@,
                best,
                card_id,
                card_grid@,
                columns@,
            );
        }
        step = step + 1;
    }
    bound
}

/// The cells at the places `from` up to `to` of the order are exactly the
/// cells of `bound`.
pub open spec fn same_cells(bound: Seq<usize>, order: Seq<usize>, from: int, to: int) -> bool {
    &&& bound.len() == to - from
    &&& forall|n: int| 0 <= n < bound.len() ==> in_stretch(order, from, to, #[trigger] bound[n] as int)
    &&& forall|n: int| from <= n < to ==> in_stretch(bound, 0, bound.len() as int, #[trigger] order[n] as int)
}

/// Unique placement among the cells at the places `start_index` up to
/// `end_index` of the visiting order, cheapest first: as often as there are
/// such cells, the one of them that is not bound yet and whose best
/// remaining candidate costs least takes that candidate, the earliest cell
/// on a tie, and the tile is deleted from the columns of the others not
/// bound yet. Returns the cells in the order in which they were bound.
#[verifier::loop_isolation(false)]
pub fn sub_rank_selection(
    card_grid: &mut Vec<u32>,
    columns: &mut Vec<Vec<ColumnEntry>>,
    visit_order: &Vec<usize>,
    start_index: usize,
    end_index: usize,
) -> (bound: Vec<usize>)
    requires
        old(columns)@.len() == old(card_grid)@.len(),
        valid_order(visit_order@, old(card_grid)@.len() as int),
        start_index <= end_index <= visit_order@.len(),
        end_index - start_index <= stretch_tiles(old(columns)@, visit_order@, start_index as int, end_index as int),
        forall|n: int|
            start_index <= n < end_index ==> holds_all_tiles(
                old(columns)@[#[trigger] visit_order@[n] as int]@,
                stretch_tiles(old(columns)@, visit_order@, start_index as int, end_index as int),
            ),
    ensures
        same_cells(bound@, visit_order@, start_index as int, end_index as int),
        unique_placed(
            final(card_grid)@,
            final(columns)@,
            bound@,
            old(card_grid)@,
            old(columns)@,
            stretch_mask(visit_order@, start_index as int, end_index as int, old(card_grid)@.len() as int),
            stretch_tiles(old(columns)@, visit_order@, start_index as int, end_index as int),
        ),
{
    let ghost cols0 = columns@;
    let ghost order = visit_order@;
    let ghost from = start_index as int;
    let ghost end = end_index as int;
    let ghost tiles = stretch_tiles(cols0, order, from, end);
    let cells: usize = card_grid.len();
    let ghost part = stretch_mask(order, from, end, cells as int);
    let mut filled: Vec<bool> = Vec::new();
    let mut c: usize = 0;
    while c < cells
        invariant
            c <= cells,
            filled@.len() == c,
            forall|k: int| 0 <= k < c ==> filled@[k],
            unfilled_count(filled@, c as int) == 0,
        decreases cells - c,
    {
        let ghost before = filled@;
        filled.push(true);
        proof {
            lemma_unfilled_count_same(before, filled@, c as int);
        }
        c = c + 1;
    }
    let mut n: usize = start_index;
    while n < end_index
        invariant
            start_index <= n <= end_index,
            filled@.len() == cells,
            forall|k: int| 0 <= k < cells ==> #[trigger] filled@[k] == !in_stretch(order, from, n as int, k),
            unfilled_count(filled@, cells as int) == n - start_index,
        decreases end_index - n,
    {
        let cell: usize = visit_order[n];
        proof {
            if in_stretch(order, from, n as int, cell as int) {
                let w = choose|w: int| from <= w < n && #[trigger] order[w] == cell as int;
                assert(order[w] != order[n as int]);
            }
            lemma_unfilled_count_clear(filled@, cell as int, cells as int);
        }
        let ghost before = filled@;
        filled.set(cell, false);
        proof {
            assert forall|k: int| 0 <= k < cells implies #[trigger] filled@[k] == !in_stretch(order, from, n + 1, k) by {
                if k == cell {
                    assert(from <= n < n + 1 && order[n as int] == k);
                } else {
                    if in_stretch(order, from, n + 1, k) {
                        let w = choose|w: int| from <= w < n + 1 && #[trigger] order[w] == k;
                        assert(from <= w < n && order[w] == k);
                    }
                    if in_stretch(order, from, n as int, k) {
                        let w = choose|w: int| from <= w < n && #[trigger] order[w] == k;
                        assert(from <= w < n + 1 && order[w] == k);
                    }
                }
            }
        }
        n = n + 1;
    }
    proof {
        assert forall|k: int| 0 <= k < cells && part[k] implies holds_all_tiles((#[trigger] cols0[k])@, tiles) by {
            let w = choose|w: int| from <= w < end && #[trigger] order[w] == k;
            assert(holds_all_tiles(cols0[order[w] as int]@, tiles));
        }
    }
    let bound = unique_placement(card_grid, columns, &mut filled, end_index - start_index, Ghost(part), Ghost(tiles));
    proof {
        lemma_unfilled_none(filled@, cells as int);
        assert forall|k: int| 0 <= k < bound@.len() implies in_stretch(order, from, end, #[trigger] bound@[k] as int) by {
            assert(part[bound@[k] as int]);
        }
        assert forall|k: int| from <= k < end implies in_stretch(
            bound@,
            0,
            bound@.len() as int,
            #[trigger] order[k] as int,
        ) by {
            assert(in_stretch(order, from, end, order[k] as int));
            assert(filled@[order[k] as int]);
        }
    }
    bound
}

/// How many tiles the columns rank: the length of the first column.
pub open spec fn tile_count(cols: Seq<Vec<ColumnEntry>>) -> int {
    if cols.len() > 0 {
        cols[0]@.len() as int
    } else {
        0
    }
}

/// How many cells are bound by unique placement: as many as there are tiles,
/// or all of them if there are fewer cells than tiles.
pub open spec fn unique_steps(tiles: int, cells: int) -> int {
    if tiles < cells {
        tiles
    } else {
        cells
    }
}

/// The outcome of a selection along a visiting order, the first `unique`
/// cells of it bound by unique placement and the rest by fallback:
/// - each of the first `unique` cells has the best candidate of its ranking
///   that no earlier cell had taken, and no two of them have the same tile;
/// - each later cell has the best candidate of its whole ranking;
/// - cells that the order does not name are as they were;
/// - every bound cell has one of the `tiles` tiles.
pub open spec fn selection_done(
    grid: Seq<u32>,
    grid0: Seq<u32>,
    cols0: Seq<Vec<ColumnEntry>>,
    order: Seq<usize>,
    unique: int,
    tiles: int,
) -> bool {
    &&& grid.len() == grid0.len()
    &&& forall|n: int|
        0 <= n < unique ==> best_unplaced(
            cols0[#[trigger] order[n] as int]@,
            placed_tiles(grid, order, 0, n),
            grid[order[n] as int],
        )
    &&& forall|a: int, b: int|
        0 <= a < b < unique ==> grid[#[trigger] order[a] as int] != grid[#[trigger] order[b] as int]
    &&& forall|n: int|
        unique <= n < order.len() ==> cols0[#[trigger] order[n] as int]@.len() > 0 && grid[order[n] as int]
            == cols0[order[n] as int]@.last().id
    &&& forall|n: int| 0 <= n < order.len() ==> grid[#[trigger] order[n] as int] < tiles
    &&& forall|c: int|
        0 <= c < grid.len() && !in_stretch(order, 0, order.len() as int, c) ==> #[trigger] grid[c] == grid0[c]
}

/// With at least as many tiles as cells in the order, no tile is bound to
/// two cells of the order.
pub proof fn lemma_no_tile_twice(
    grid: Seq<u32>,
    grid0: Seq<u32>,
    cols0: Seq<Vec<ColumnEntry>>,
    order: Seq<usize>,
    tiles: int,
)
    requires
        tiles >= order.len(),
        selection_done(grid, grid0, cols0, order, unique_steps(tiles, order.len() as int), tiles),
    ensures
        forall|a: int, b: int|
            0 <= a < b < order.len() ==> grid[#[trigger] order[a] as int] != grid[#[trigger] order[b] as int],
{
}

/// A tile is bound to two cells of the order only when the cells outnumber
/// the tiles, and then the later of the two cells was bound by fallback,
/// after every tile had been placed once. The cells bound before keep the
/// tile that unique placement gave them.
pub proof fn lemma_repeats_only_by_fallback(
    grid: Seq<u32>,
    grid0: Seq<u32>,
    cols0: Seq<Vec<ColumnEntry>>,
    order: Seq<usize>,
    tiles: int,
    a: int,
    b: int,
)
    requires
        selection_done(grid, grid0, cols0, order, unique_steps(tiles, order.len() as int), tiles),
        0 <= a < b < order.len(),
        grid[order[a] as int] == grid[order[b] as int],
    ensures
        order.len() > tiles,
        b >= tiles,
        forall|n: int|
            0 <= n < tiles ==> best_unplaced(
                cols0[#[trigger] order[n] as int]@,
                placed_tiles(grid, order, 0, n),
                grid[order[n] as int],
            ),
{
}

/// Once the cells that take part are bound by unique placement and every
/// further cell of the order has the best candidate of its whole ranking,
/// the selection along the order is done.
proof fn lemma_fallback_done(
    grid0: Seq<u32>,
    cols0: Seq<Vec<ColumnEntry>>,
    order: Seq<usize>,
    u: int,
    tiles: int,
    grid1: Seq<u32>,
    cols1: Seq<Vec<ColumnEntry>>,
    bound1: Seq<usize>,
    grid: Seq<u32>,
    b: Seq<usize>,
)
    requires
        valid_order(order, cols0.len() as int),
        0 <= u <= order.len(),
        same_cells(bound1, order, 0, u),
        unique_placed(grid1, cols1, bound1, grid0, cols0, stretch_mask(order, 0, u, cols0.len() as int), tiles),
        grid.len() == cols0.len(),
        b.len() == order.len(),
        forall|n: int| 0 <= n < u ==> #[trigger] b[n] == bound1[n],
        forall|n: int| u <= n < b.len() ==> #[trigger] b[n] == order[n],
        forall|c: int|
            0 <= c < cols0.len() && stretch_mask(order, 0, u, cols0.len() as int)[c] ==> #[trigger] grid[c]
                == grid1[c],
        forall|n: int|
            u <= n < order.len() ==> cols0[#[trigger] order[n] as int]@.len() > 0 && grid[order[n] as int]
                == cols0[order[n] as int]@.last().id && grid[order[n] as int] < tiles,
        forall|c: int|
            0 <= c < cols0.len() && !stretch_mask(order, 0, u, cols0.len() as int)[c] && !in_stretch(
                order,
                u,
                order.len() as int,
                c,
            ) ==> #[trigger] grid[c] == grid0[c],
    ensures
        valid_order(b, cols0.len() as int),
        same_cells(b.subrange(0, u), order, 0, u),
        selection_done(grid, grid0, cols0, b, u, tiles),
        cheapest_among(grid, cols0, b, u, stretch_mask(order, 0, u, cols0.len() as int)),
        forall|n: int|
            0 <= n < u ==> cols1[#[trigger] b[n] as int]@ == unplaced(
                cols0[b[n] as int]@,
                placed_tiles(grid, b, 0, n),
            ),
        forall|c: int|
            0 <= c < cols0.len() && !in_stretch(order, 0, u, c) ==> (#[trigger] cols1[c])@ == cols0[c]@,
{
    let total = cols0.len() as int;
    let part = stretch_mask(order, 0, u, total);
    assert(b.subrange(0, u) =~= bound1);
    assert forall|k: int, n: int| 0 <= n <= u implies in_stretch(b, 0, n, k) == in_stretch(bound1, 0, n, k) by {
        if in_stretch(b, 0, n, k) {
            let w = choose|w: int| 0 <= w < n && #[trigger] b[w] == k;
            assert(bound1[w] == k);
        }
        if in_stretch(bound1, 0, n, k) {
            let w = choose|w: int| 0 <= w < n && #[trigger] bound1[w] == k;
            assert(b[w] == k);
        }
    }
    assert forall|n: int| 0 <= n < u implies part[#[trigger] b[n] as int] && b[n] < total by {
        assert(b[n] == bound1[n]);
    }
    assert forall|n: int| 0 <= n <= u implies placed_tiles(grid, b, 0, n) == placed_tiles(grid1, bound1, 0, n) by {
        assert forall|j: int| 0 <= j < n implies grid[#[trigger] b[j] as int] == grid1[#[trigger] bound1[j] as int] by {
            assert(b[j] == bound1[j]);
            assert(part[bound1[j] as int]);
        }
        lemma_placed_same(grid, b, grid1, bound1, 0, n);
    }
    assert(valid_order(b, total)) by {
        assert forall|n: int| 0 <= n < b.len() implies (#[trigger] b[n]) < total by {
            if n >= u {
                assert(b[n] == order[n]);
            }
        }
        assert forall|x: int, y: int| 0 <= x < y < b.len() implies (#[trigger] b[x]) != (#[trigger] b[y]) by {
            if y < u {
                assert(bound1[x] != bound1[y]);
            } else if x >= u {
                assert(order[x] != order[y]);
            } else {
                assert(part[b[x] as int]);
                let w = choose|w: int| 0 <= w < u && #[trigger] order[w] == b[x] as int;
                assert(order[w] != order[y]);
            }
        }
    }
    assert forall|n: int| 0 <= n < u implies {
        &&& best_unplaced(cols0[#[trigger] b[n] as int]@, placed_tiles(grid, b, 0, n), grid[b[n] as int])
        &&& grid[b[n] as int] < tiles
        &&& cols1[b[n] as int]@ == unplaced(cols0[b[n] as int]@, placed_tiles(grid, b, 0, n))
    } by {
        assert(b[n] == bound1[n]);
    }
    assert forall|x: int, y: int| 0 <= x < y < u implies grid[#[trigger] b[x] as int] != grid[#[trigger] b[y] as int] by {
        assert(b[x] == bound1[x] && b[y] == bound1[y]);
    }
    assert forall|n: int| u <= n < b.len() implies cols0[#[trigger] b[n] as int]@.len() > 0 && grid[b[n] as int]
        == cols0[b[n] as int]@.last().id by {
        assert(b[n] == order[n]);
    }
    assert forall|n: int| 0 <= n < b.len() implies grid[#[trigger] b[n] as int] < tiles by {
        if n >= u {
            assert(b[n] == order[n]);
        }
    }
    assert forall|c: int| 0 <= c < grid.len() && !in_stretch(b, 0, b.len() as int, c) implies #[trigger] grid[c]
        == grid0[c] by {
        if part[c] {
            assert(in_stretch(order, 0, u, c));
            let w = choose|w: int| 0 <= w < u && #[trigger] order[w] == c;
            assert(in_stretch(bound1, 0, bound1.len() as int, order[w] as int));
            let v = choose|v: int| 0 <= v < bound1.len() && #[trigger] bound1[v] == c;
            assert(b[v] == c);
        } else {
            if in_stretch(order, u, order.len() as int, c) {
                let w = choose|w: int| u <= w < order.len() && #[trigger] order[w] == c;
                assert(b[w] == c);
            }
        }
    }
    assert forall|n: int, c: int|
        0 <= n < u && 0 <= c < cols0.len() && part[c] && !#[trigger] in_stretch(b, 0, n, c) implies {
        let placed = placed_tiles(grid, b, 0, n);
        let mine = unplaced(cols0[b[n] as int]@, placed).last().difference;
        let other = unplaced(cols0[c]@, placed).last().difference;
        mine < other || (mine == other && b[n] <= c)
    } by {
        assert(!in_stretch(bound1, 0, n, c));
        assert(b[n] == bound1[n]);
    }
    assert forall|c: int| 0 <= c < cols0.len() && !in_stretch(order, 0, u, c) implies (#[trigger] cols1[c])@
        == cols0[c]@ by {
        assert(!part[c]);
    }
}

/// Binds a tile to every cell of the visiting order and returns the cells
/// in the order in which they were bound. The first cells of the order, as
/// many as there are tiles, take part in unique placement: the one of them
/// that is not bound yet and whose best remaining candidate costs least goes
/// first, the earliest cell on a tie, and its tile is deleted from the
/// columns of the others. Once every tile is placed, each further cell of
/// the order takes the best candidate of its whole ranking.
#[verifier::loop_isolation(false)]
pub fn rank_selection(
    card_grid: &mut Vec<u32>,
    columns: &mut Vec<Vec<ColumnEntry>>,
    visit_order: &Vec<usize>,
) -> (bound: Vec<usize>)
    requires
        old(columns)@.len() == old(card_grid)@.len(),
        valid_order(visit_order@, old(card_grid)@.len() as int),
        visit_order@.len() > 0 ==> tile_count(old(columns)@) > 0,
        forall|n: int|
            0 <= n < visit_order@.len() ==> holds_all_tiles(
                old(columns)@[#[trigger] visit_order@[n] as int]@,
                tile_count(old(columns)@),
            ),
    ensures
        bound@.len() == visit_order@.len(),
        valid_order(bound@, old(card_grid)@.len() as int),
        same_cells(
            bound@.subrange(0, unique_steps(tile_count(old(columns)@), visit_order@.len() as int)),
            visit_order@,
            0,
            unique_steps(tile_count(old(columns)@), visit_order@.len() as int),
        ),
        forall|n: int|
            unique_steps(tile_count(old(columns)@), visit_order@.len() as int) <= n < bound@.len()
                ==> #[trigger] bound@[n] == visit_order@[n],
        selection_done(
            final(card_grid)@,
            old(card_grid)@,
            old(columns)@,
            bound@,
            unique_steps(tile_count(old(columns)@), visit_order@.len() as int),
            tile_count(old(columns)@),
        ),
        cheapest_among(
            final(card_grid)@,
            old(columns)@,
            bound@,
            unique_steps(tile_count(old(columns)@), visit_order@.len() as int),
            stretch_mask(
                visit_order@,
                0,
                unique_steps(tile_count(old(columns)@), visit_order@.len() as int),
                old(card_grid)@.len() as int,
            ),
        ),
        final(columns)@.len() == old(columns)@.len(),
        forall|n: int|
            0 <= n < unique_steps(tile_count(old(columns)@), visit_order@.len() as int) ==> final(columns)@[#[trigger] bound@[n] as int]@
                == unplaced(old(columns)@[bound@[n] as int]@, placed_tiles(final(card_grid)@, bound@, 0, n)),
        forall|c: int|
            0 <= c < old(columns)@.len() && !in_stretch(
                visit_order@,
                0,
                unique_steps(tile_count(old(columns)@), visit_order@.len() as int),
                c,
            ) ==> (#[trigger] final(columns)@[c])@ == old(columns)@[c]@,
{
    if visit_order.len() == 0 {
        let none: Vec<usize> = Vec::new();
        assert(none@.subrange(0, 0) =~= none@);
        return none;
    }
    let ghost grid0 = card_grid@;
    let ghost cols0 = columns@;
    let ghost order = visit_order@;
    let ghost tiles = tile_count(cols0);
    let ghost total = grid0.len() as int;
    assert(order[0] < cols0.len());
    let num_cards: usize = columns[0].len();
    let cells: usize = visit_order.len();
    let unique: usize = if num_cards < cells {
        num_cards
    } else {
        cells
    };
    let ghost u = unique as int;
    let ghost part = stretch_mask(order, 0, u, total);
    proof {
        assert(holds_all_tiles(cols0[order[0] as int]@, tiles));
        assert(stretch_tiles(cols0, order, 0, u) == tiles);
    }
    let mut bound = sub_rank_selection(card_grid, columns, visit_order, 0, unique);
    let ghost grid1 = card_grid@;
    let ghost cols1 = columns@;
    let ghost bound1 = bound@;
    let mut i: usize = unique;
    while i < cells
        invariant
            unique <= i <= cells,
            columns@ == cols1,
            card_grid@.len() == total,
            bound@.len() == i,
            forall|n: int| 0 <= n < u ==> #[trigger] bound@[n] == bound1[n],
            forall|n: int| u <= n < i ==> #[trigger] bound@[n] == order[n],
            forall|c: int| 0 <= c < total && part[c] ==> #[trigger] card_grid@[c] == grid1[c],
            forall|n: int|
                u <= n < i ==> cols0[#[trigger] order[n] as int]@.len() > 0 && card_grid@[order[n] as int]
                    == cols0[order[n] as int]@.last().id && card_grid@[order[n] as int] < tiles,
            forall|c: int|
                0 <= c < total && !part[c] && !in_stretch(order, u, i as int, c) ==> #[trigger] card_grid@[c]
                    == grid0[c],
        decreases cells - i,
    {
        let cell: usize = visit_order[i];
        proof {
            assert(!part[cell as int]) by {
                if in_stretch(order, 0, u, cell as int) {
                    let n = choose|n: int| 0 <= n < u && #[trigger] order[n] == cell as int;
                    assert(order[n] != order[i as int]);
                }
            }
            assert(cols1[cell as int]@ == cols0[cell as int]@);
            assert(holds_all_tiles(cols0[order[i as int] as int]@, tiles));
        }
        let column = &columns[cell];
        let card_id: u32 = column[column.len() - 1].id;
        let ghost grid_before = card_grid@;
        card_grid.set(cell, card_id);
        bound.push(cell);
        proof {
            assert forall|n: int| u <= n < i + 1 implies cols0[#[trigger] order[n] as int]@.len() > 0 && card_grid@[order[n] as int]
                == cols0[order[n] as int]@.last().id && card_grid@[order[n] as int] < tiles by {
                if n < i {
                    assert(order[n] != order[i as int]);
                    assert(grid_before[order[n] as int] == cols0[order[n] as int]@.last().id);
                }
            }
            assert forall|c: int| 0 <= c < total && !part[c] && !in_stretch(order, u, i + 1, c) implies #[trigger] card_grid@[c]
                == grid0[c] by {
                if c == cell {
                    assert(u <= i < i + 1 && order[i as int] == c);
                }
                if in_stretch(order, u, i as int, c) {
                    let n = choose|n: int| u <= n < i && #[trigger] order[n] == c;
                    assert(u <= n < i + 1 && order[n] == c);
                }
            }
        }
        i = i + 1;
    }
    proof {
        lemma_fallback_done(grid0, cols0, order, u, tiles, grid1, cols1, bound1, card_grid@, bound@);
    }
    bound
}

/// Binds a tile to every cell, cheapest first. As long as unused tiles
/// remain, the unbound cell whose best remaining candidate costs least takes
/// that candidate, and the tile is deleted from every other unbound cell's
/// column. Once every tile is placed, each cell still unbound takes the best
/// candidate of its whole ranking. Returns the cells in the order in which
/// they were bound.
#[verifier::loop_isolation(false)]
pub fn greedy_selection(card_grid: &mut Vec<u32>, columns: &mut Vec<Vec<ColumnEntry>>) -> (order: Vec<usize>)
    requires
        old(columns)@.len() == old(card_grid)@.len(),
        old(columns)@.len() > 0 ==> tile_count(old(columns)@) > 0,
        forall|c: int|
            0 <= c < old(columns)@.len() ==> holds_all_tiles((#[trigger] old(columns)@[c])@, tile_count(old(columns)@)),
    ensures
        order@.len() == old(card_grid)@.len(),
        valid_order(order@, old(card_grid)@.len() as int),
        forall|c: int| 0 <= c < order@.len() ==> #[trigger] in_stretch(order@, 0, order@.len() as int, c),
        selection_done(
            final(card_grid)@,
            old(card_grid)@,
            old(columns)@,
            order@,
            unique_steps(tile_count(old(columns)@), old(card_grid)@.len() as int),
            tile_count(old(columns)@),
        ),
        cheapest_first(
            final(card_grid)@,
            old(columns)@,
            order@,
            unique_steps(tile_count(old(columns)@), old(card_grid)@.len() as int),
        ),
        forall|a: int, b: int|
            unique_steps(tile_count(old(columns)@), old(card_grid)@.len() as int) <= a < b < order@.len()
                ==> (#[trigger] order@[a]) < (#[trigger] order@[b]),
        final(columns)@.len() == old(columns)@.len(),
        forall|n: int|
            0 <= n < order@.len() ==> final(columns)@[#[trigger] order@[n] as int]@ == unplaced(
                old(columns)@[order@[n] as int]@,
                placed_tiles(
                    final(card_grid)@,
                    order@,
                    0,
                    if n < unique_steps(tile_count(old(columns)@), old(card_grid)@.len() as int) {
                        n
                    } else {
                        unique_steps(tile_count(old(columns)@), old(card_grid)@.len() as int)
                    },
                ),
            ),
{
    let cells: usize = card_grid.len();
    if cells == 0 {
        return Vec::new();
    }
    let ghost grid0 = card_grid@;
    let ghost cols0 = columns@;
    let ghost tiles = tile_count(cols0);
    let ghost part = all_cells(cells as int);
    let num_cards: usize = columns[0].len();
    let unique: usize = if num_cards < cells {
        num_cards
    } else {
        cells
    };
    let fallback: Vec<u32> = best_of_each(columns);
    let mut filled: Vec<bool> = Vec::new();
    let mut c: usize = 0;
    while c < cells
        invariant
            c <= cells,
            filled@.len() == c,
            forall|k: int| 0 <= k < c ==> !filled@[k],
            unfilled_count(filled@, c as int) == c,
        decreases cells - c,
    {
        let ghost before = filled@;
        filled.push(false);
        proof {
            lemma_unfilled_count_same(before, filled@, c as int);
        }
        c = c + 1;
    }
    let mut order = unique_placement(card_grid, columns, &mut filled, unique, Ghost(part), Ghost(tiles));
    let ghost grid1 = card_grid@;
    let ghost order1 = order@;
    let ghost cols1 = columns@;
    let ghost u = unique as int;
    proof {
        assert forall|k: int| 0 <= k < cells implies #[trigger] filled@[k] == in_stretch(order1, 0, u, k) by {
            assert(part[k]);
        }
    }
    c = 0;
    while c < cells
        invariant
            c <= cells,
            columns@ == cols1,
            card_grid@.len() == cells,
            order@.len() == u + unfilled_count(filled@, c as int),
            u <= order@.len(),
            forall|n: int| 0 <= n < u ==> #[trigger] order@[n] == order1[n],
            valid_order(order@, cells as int),
            forall|n: int| u <= n < order@.len() ==> !filled@[#[trigger] order@[n] as int] && order@[n] < c,
            forall|n: int| u <= n < order@.len() ==> card_grid@[#[trigger] order@[n] as int] == cols0[order@[n] as int]@.last().id,
            forall|a: int, b: int| u <= a < b < order@.len() ==> (#[trigger] order@[a]) < (#[trigger] order@[b]),
            forall|k: int| 0 <= k < c && !filled@[k] ==> #[trigger] in_stretch(order@, u, order@.len() as int, k),
            forall|k: int| 0 <= k < cells && filled@[k] ==> #[trigger] card_grid@[k] == grid1[k],
        decreases cells - c,
    {
        if !filled[c] {
            let ghost order_before = order@;
            let ghost grid_before = card_grid@;
            card_grid.set(c, fallback[c]);
            order.push(c);
            proof {
                assert forall|k: int| 0 <= k < c + 1 && !filled@[k] implies #[trigger] in_stretch(
                    order@,
                    u,
                    order@.len() as int,
                    k,
                ) by {
                    if k == c {
                        assert(order@[order_before.len() as int] == k);
                    } else {
                        assert(in_stretch(order_before, u, order_before.len() as int, k));
                        let w = choose|w: int| u <= w < order_before.len() && #[trigger] order_before[w] == k;
                        assert(order@[w] == k);
                    }
                }
                assert(valid_order(order@, cells as int)) by {
                    assert forall|i: int, j: int| 0 <= i < j < order@.len() implies (#[trigger] order@[i]) != (
                    #[trigger] order@[j]) by {
                        if j < order_before.len() {
                            assert(order_before[i] != order_before[j]);
                        } else if i < u {
                            assert(order@[i] == order1[i]);
                            assert(in_stretch(order1, 0, u, order1[i] as int));
                        } else {
                            assert(order_before[i] < c);
                        }
                    }
                }
                assert forall|n: int| u <= n < order@.len() implies card_grid@[#[trigger] order@[n] as int]
                    == cols0[order@[n] as int]@.last().id by {
                    if n < order_before.len() {
                        assert(order_before[n] < c);
                        assert(grid_before[order_before[n] as int] == cols0[order_before[n] as int]@.last().id);
                    }
                }
            }
        }
        c = c + 1;
    }
    proof {
        let grid = card_grid@;
        let ord = order@;
        assert forall|k: int, n: int| 0 <= n <= u implies in_stretch(ord, 0, n, k) == in_stretch(order1, 0, n, k) by {
            if in_stretch(ord, 0, n, k) {
                let w = choose|w: int| 0 <= w < n && #[trigger] ord[w] == k;
                assert(order1[w] == k);
            }
            if in_stretch(order1, 0, n, k) {
                let w = choose|w: int| 0 <= w < n && #[trigger] order1[w] == k;
                assert(ord[w] == k);
            }
        }
        assert forall|n: int| 0 <= n < u implies grid[#[trigger] ord[n] as int] == grid1[order1[n] as int] by {
            assert(ord[n] == order1[n]);
            assert(in_stretch(order1, 0, u, order1[n] as int));
        }
        assert forall|n: int| 0 <= n <= u implies placed_tiles(grid, ord, 0, n) == placed_tiles(grid1, order1, 0, n) by {
            assert forall|i: int| 0 <= i < n implies grid[#[trigger] ord[i] as int] == grid1[#[trigger] order1[i] as int] by {
                assert(ord[i] == order1[i]);
            }
            lemma_placed_same(grid, ord, grid1, order1, 0, n);
        }
        assert forall|n: int| u <= n < ord.len() implies cols0[#[trigger] ord[n] as int]@.len() > 0 && grid[ord[n] as int]
            < tiles by {
            let col = cols0[ord[n] as int]@;
            assert(holds_all_tiles(col, tiles));
            assert(col[col.len() - 1].id < tiles);
        }
        assert forall|k: int| 0 <= k < cells implies in_stretch(ord, 0, ord.len() as int, k) by {
            if filled@[k] {
                assert(in_stretch(order1, 0, u, k));
                let w = choose|w: int| 0 <= w < u && #[trigger] order1[w] == k;
                assert(ord[w] == k);
            } else {
                assert(in_stretch(ord, u, ord.len() as int, k));
                let w = choose|w: int| u <= w < ord.len() && #[trigger] ord[w] == k;
                assert(0 <= w < ord.len() && ord[w] == k);
            }
        }
        assert forall|n: int| 0 <= n < u implies best_unplaced(
            cols0[#[trigger] ord[n] as int]@,
            placed_tiles(grid, ord, 0, n),
            grid[ord[n] as int],
        ) by {
            assert(ord[n] == order1[n]);
        }
        assert forall|a: int, b: int| 0 <= a < b < u implies grid[#[trigger] ord[a] as int] != grid[#[trigger] ord[b] as int] by {
            assert(ord[a] == order1[a] && ord[b] == order1[b]);
        }
        assert forall|n: int| 0 <= n < u implies grid[#[trigger] ord[n] as int] < tiles by {
            assert(ord[n] == order1[n]);
        }
        assert forall|n: int, k: int|
            0 <= n < u && 0 <= k < cols0.len() && part[k] && !#[trigger] in_stretch(ord, 0, n, k) implies {
            let placed = placed_tiles(grid, ord, 0, n);
            let mine = unplaced(cols0[ord[n] as int]@, placed).last().difference;
            let other = unplaced(cols0[k]@, placed).last().difference;
            mine < other || (mine == other && ord[n] <= k)
        } by {
            assert(!in_stretch(order1, 0, n, k));
            assert(ord[n] == order1[n]);
        }
        assert forall|n: int| 0 <= n < ord.len() implies columns@[#[trigger] ord[n] as int]@ == unplaced(
            cols0[ord[n] as int]@,
            placed_tiles(grid, ord, 0, if n < u {
                n
            } else {
                u
            }),
        ) by {
            if n < u {
                assert(ord[n] == order1[n]);
            } else {
                assert(!filled@[ord[n] as int]);
                assert(part[ord[n] as int]);
                assert(!in_stretch(order1, 0, u, ord[n] as int));
            }
        }
    }
    order
}

} // verus!
