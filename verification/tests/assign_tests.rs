use card_mosaic::assign::{
    create_select_grid, greedy_selection, rank_selection, remove_tile, sub_rank_selection,
};
use card_mosaic::order::create_best_fit_order;
use card_mosaic::rank::{rank_costs, ranks_to_columns, ColumnEntry};

fn columns_of(costs: &[Vec<u32>]) -> Vec<Vec<ColumnEntry>> {
    costs.iter().map(|cell| rank_costs(cell)).collect()
}

fn ids(column: &Vec<ColumnEntry>) -> Vec<u32> {
    column.iter().map(|e| e.id).collect()
}

fn random_costs(cells: usize, tiles: usize, seed: u32) -> Vec<Vec<u32>> {
    let mut state = seed;
    let mut costs: Vec<Vec<u32>> = Vec::new();
    for _ in 0..cells {
        let mut row: Vec<u32> = Vec::new();
        for _ in 0..tiles {
            state = state.wrapping_mul(1664525).wrapping_add(1013904223);
            row.push((state >> 16) % 20);
        }
        costs.push(row);
    }
    costs
}

#[test]
fn select_grid_is_all_unbound() {
    let grid = create_select_grid(3, 2);
    assert_eq!(grid, vec![-1; 6]);
    assert!(create_select_grid(0, 7).is_empty());
}

#[test]
fn remove_tile_deletes_the_entry_of_the_tile() {
    let mut column = rank_costs(&vec![4, 9, 1, 7]);
    assert_eq!(ids(&column), vec![1, 3, 0, 2]);
    remove_tile(&mut column, 3);
    assert_eq!(ids(&column), vec![1, 0, 2]);
    remove_tile(&mut column, 2);
    assert_eq!(ids(&column), vec![1, 0]);
    remove_tile(&mut column, 5);
    assert_eq!(ids(&column), vec![1, 0]);
    remove_tile(&mut column, 1);
    remove_tile(&mut column, 0);
    assert!(column.is_empty());
    remove_tile(&mut column, 0);
    assert!(column.is_empty());
}

#[test]
fn remove_tile_deletes_only_the_last_of_two_entries() {
    let mut column = vec![
        ColumnEntry { difference: 9, id: 1 },
        ColumnEntry { difference: 5, id: 0 },
        ColumnEntry { difference: 3, id: 1 },
    ];
    remove_tile(&mut column, 1);
    assert_eq!(column, vec![ColumnEntry { difference: 9, id: 1 }, ColumnEntry { difference: 5, id: 0 }]);
}

#[test]
fn selection_binds_the_cheapest_cell_of_the_order_first() {
    let costs = vec![vec![1, 5, 9], vec![2, 3, 9], vec![1, 2, 3]];
    let mut grid: Vec<u32> = vec![0; 3];
    let mut columns = columns_of(&costs);
    // Cells 0 and 2 tie at cost 1: cell 0 goes first and takes tile 0. Then
    // cell 2 has the cheaper best left (tile 1 at 2), and cell 1 is last.
    let bound = rank_selection(&mut grid, &mut columns, &vec![0, 1, 2]);
    assert_eq!(bound, vec![0, 2, 1]);
    assert_eq!(grid, vec![0, 2, 1]);
    // Each column is left as it was when its cell was bound.
    assert_eq!(ids(&columns[0]), vec![2, 1, 0]);
    assert_eq!(ids(&columns[2]), vec![2, 1]);
    assert_eq!(ids(&columns[1]), vec![2]);

    // With as many tiles as cells the order of the cells plays no part.
    let mut grid: Vec<u32> = vec![0; 3];
    let mut columns = columns_of(&costs);
    let bound = rank_selection(&mut grid, &mut columns, &vec![2, 1, 0]);
    assert_eq!(bound, vec![0, 2, 1]);
    assert_eq!(grid, vec![0, 2, 1]);
}

#[test]
fn selection_rescans_after_every_placement() {
    let ranks: Vec<Vec<u32>> = vec![vec![1, 2, 50], vec![60, 100, 3], vec![70, 200, 4]];
    let mut columns = ranks_to_columns(ranks, 3, 1);
    let visit_order = create_best_fit_order(&columns);
    assert_eq!(visit_order, vec![0, 1, 2]);
    let mut grid: Vec<u32> = vec![9; 3];
    let bound = rank_selection(&mut grid, &mut columns, &visit_order);
    // After cell 0 takes tile 0, cell 2 has the cheapest best left.
    assert_eq!(grid, vec![0, 2, 1]);
    assert_eq!(bound, vec![0, 2, 1]);
    let ranks: Vec<Vec<u32>> = vec![vec![1, 2, 50], vec![60, 100, 3], vec![70, 200, 4]];
    let mut columns = ranks_to_columns(ranks, 3, 1);
    let mut grid: Vec<u32> = vec![9; 3];
    assert_eq!(greedy_selection(&mut grid, &mut columns), vec![0, 2, 1]);
    assert_eq!(grid, vec![0, 2, 1]);
}

#[test]
fn selection_agrees_with_greedy_selection_when_tiles_suffice() {
    for seed in 0..40u32 {
        let cells: usize = 1 + (seed as usize % 6);
        let tiles: usize = cells + (seed as usize % 3);
        let costs = random_costs(cells, tiles, seed + 300);
        let mut grid_a: Vec<u32> = vec![0; cells];
        let mut columns_a = columns_of(&costs);
        let order: Vec<usize> = (0..cells).rev().collect();
        let bound = rank_selection(&mut grid_a, &mut columns_a, &order);
        let mut grid_b: Vec<u32> = vec![0; cells];
        let mut columns_b = columns_of(&costs);
        let greedy = greedy_selection(&mut grid_b, &mut columns_b);
        assert_eq!(grid_a, grid_b);
        assert_eq!(bound, greedy);
    }
}

#[test]
fn selection_places_every_tile_once_when_tiles_suffice() {
    for seed in 0..30u32 {
        let cells: usize = 6;
        let tiles: usize = 6 + (seed as usize % 4);
        let costs = random_costs(cells, tiles, seed);
        let mut grid: Vec<u32> = vec![0; cells];
        let mut columns = columns_of(&costs);
        let order: Vec<usize> = (0..cells).rev().collect();
        let bound = rank_selection(&mut grid, &mut columns, &order);
        let mut seen = vec![false; tiles];
        for &tile in &grid {
            assert!((tile as usize) < tiles);
            assert!(!seen[tile as usize]);
            seen[tile as usize] = true;
        }
        // No column ran dry before its turn.
        for (place, &cell) in bound.iter().enumerate() {
            assert_eq!(columns[cell].len(), tiles - place);
        }
    }
}

#[test]
fn selection_repeats_tiles_only_after_all_are_placed() {
    // 5 cells, 2 tiles.
    let costs = vec![vec![1, 5], vec![2, 3], vec![9, 2], vec![4, 4], vec![0, 8]];
    let mut grid: Vec<u32> = vec![7; 5];
    let mut columns = columns_of(&costs);
    let bound = rank_selection(&mut grid, &mut columns, &vec![0, 1, 2, 3, 4]);
    // Unique placement binds cells 0 and 1; the others take their own best.
    assert_eq!(grid, vec![0, 1, 1, 0, 0]);
    assert_eq!(bound, vec![0, 1, 2, 3, 4]);
    // Had cell 1 come before cell 0 in the order, the same two cells would
    // take part and cell 0, the cheaper, would still go first.
    let mut grid: Vec<u32> = vec![7; 5];
    let mut columns = columns_of(&costs);
    let bound = rank_selection(&mut grid, &mut columns, &vec![1, 0, 4, 3, 2]);
    assert_eq!(grid, vec![0, 1, 1, 0, 0]);
    assert_eq!(bound, vec![0, 1, 4, 3, 2]);
    // The columns of the later cells were never touched.
    assert_eq!(ids(&columns[2]), vec![0, 1]);
    assert_eq!(ids(&columns[3]), vec![1, 0]);
    assert_eq!(ids(&columns[4]), vec![1, 0]);
}

#[test]
fn selection_leaves_cells_outside_the_order_alone() {
    let costs = vec![vec![1, 5, 9], vec![2, 3, 9], vec![1, 2, 3], vec![3, 2, 1]];
    let mut grid: Vec<u32> = vec![42; 4];
    let mut columns = columns_of(&costs);
    let bound = rank_selection(&mut grid, &mut columns, &vec![3, 1]);
    assert_eq!(bound, vec![3, 1]);
    assert_eq!(grid, vec![42, 0, 42, 2]);
    assert_eq!(ids(&columns[0]), vec![2, 1, 0]);
    assert_eq!(ids(&columns[2]), vec![2, 1, 0]);
    let mut empty_grid: Vec<u32> = vec![];
    let mut no_columns: Vec<Vec<ColumnEntry>> = vec![];
    assert!(rank_selection(&mut empty_grid, &mut no_columns, &vec![]).is_empty());
    assert!(empty_grid.is_empty());
}

#[test]
fn unique_placement_over_a_stretch_of_the_order() {
    let costs = vec![vec![1, 5, 9], vec![2, 3, 9], vec![1, 2, 3], vec![3, 2, 1]];
    let mut grid: Vec<u32> = vec![42; 4];
    let mut columns = columns_of(&costs);
    // Cells 1 and 2 take part; cell 2 has the cheaper best and goes first.
    let bound = sub_rank_selection(&mut grid, &mut columns, &vec![0, 1, 2, 3], 1, 3);
    assert_eq!(bound, vec![2, 1]);
    assert_eq!(grid, vec![42, 1, 0, 42]);
    assert_eq!(ids(&columns[0]), vec![2, 1, 0]);
    assert_eq!(ids(&columns[1]), vec![2, 1]);
    assert_eq!(ids(&columns[2]), vec![2, 1, 0]);
    assert_eq!(ids(&columns[3]), vec![0, 1, 2]);
    let bound = sub_rank_selection(&mut grid, &mut columns, &vec![0, 1, 2, 3], 2, 2);
    assert!(bound.is_empty());
    assert_eq!(grid, vec![42, 1, 0, 42]);
}

#[test]
fn greedy_selection_binds_the_cheapest_cell_first() {
    let costs = vec![vec![5, 6, 7], vec![1, 9, 9], vec![1, 2, 9]];
    let mut grid: Vec<u32> = vec![0; 3];
    let mut columns = columns_of(&costs);
    let order = greedy_selection(&mut grid, &mut columns);
    assert_eq!(order, vec![1, 2, 0]);
    assert_eq!(grid, vec![2, 0, 1]);
}

#[test]
fn greedy_selection_falls_back_when_cells_outnumber_tiles() {
    let costs = vec![vec![3, 4], vec![1, 5], vec![2, 2], vec![9, 8]];
    let mut grid: Vec<u32> = vec![0; 4];
    let mut columns = columns_of(&costs);
    let order = greedy_selection(&mut grid, &mut columns);
    assert_eq!(order, vec![1, 2, 0, 3]);
    assert_eq!(grid, vec![0, 0, 1, 1]);
}

#[test]
fn greedy_selection_places_every_tile_once_when_tiles_suffice() {
    for seed in 0..40u32 {
        let cells: usize = 1 + (seed as usize % 7);
        let tiles: usize = cells + (seed as usize % 3);
        let costs = random_costs(cells, tiles, seed + 1000);
        let mut grid: Vec<u32> = vec![0; cells];
        let mut columns = columns_of(&costs);
        let order = greedy_selection(&mut grid, &mut columns);
        let mut cells_seen = vec![false; cells];
        for &cell in &order {
            assert!(!cells_seen[cell]);
            cells_seen[cell] = true;
        }
        assert!(cells_seen.iter().all(|&s| s));
        let mut seen = vec![false; tiles];
        for &tile in &grid {
            assert!(!seen[tile as usize]);
            seen[tile as usize] = true;
        }
    }
}

#[test]
fn greedy_selection_uses_every_tile_before_repeating_one() {
    for seed in 0..40u32 {
        let tiles: usize = 1 + (seed as usize % 5);
        let cells: usize = tiles + 1 + (seed as usize % 4);
        let costs = random_costs(cells, tiles, seed + 5000);
        let mut grid: Vec<u32> = vec![0; cells];
        let mut columns = columns_of(&costs);
        let order = greedy_selection(&mut grid, &mut columns);
        assert_eq!(order.len(), cells);
        // The first `tiles` cells of the order hold all tiles, each once.
        let mut seen = vec![false; tiles];
        for &cell in &order[..tiles] {
            assert!(!seen[grid[cell] as usize]);
            seen[grid[cell] as usize] = true;
        }
        // The others hold the cheapest tile of their own ranking, and come
        // in ascending order.
        for pair in order[tiles..].windows(2) {
            assert!(pair[0] < pair[1]);
        }
        for &cell in &order[tiles..] {
            let cheapest = costs[cell].iter().min().unwrap();
            assert_eq!(costs[cell][grid[cell] as usize], *cheapest);
        }
    }
}

#[test]
fn greedy_selection_never_costs_more_at_a_step_than_any_unbound_cell_could() {
    let cells: usize = 8;
    let tiles: usize = 8;
    let costs = random_costs(cells, tiles, 77);
    let mut grid: Vec<u32> = vec![0; cells];
    let mut columns = columns_of(&costs);
    let order = greedy_selection(&mut grid, &mut columns);
    let mut placed = vec![false; tiles];
    let mut bound = vec![false; cells];
    for &cell in &order {
        let taken = costs[cell][grid[cell] as usize];
        for other in 0..cells {
            if !bound[other] {
                let best = (0..tiles).filter(|&t| !placed[t]).map(|t| costs[other][t]).min().unwrap();
                assert!(taken <= best);
            }
        }
        placed[grid[cell] as usize] = true;
        bound[cell] = true;
    }
}

#[test]
fn greedy_selection_on_an_empty_grid() {
    let mut grid: Vec<u32> = vec![];
    let mut columns: Vec<Vec<ColumnEntry>> = vec![];
    assert!(greedy_selection(&mut grid, &mut columns).is_empty());
}
