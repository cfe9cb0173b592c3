use card_mosaic::error::MosaicError;
use card_mosaic::grid::{cards_tall, cards_wide, columns_exact, create_grid, create_grid_fitting, rows_exact};
use card_mosaic::ratio::{rounded_quotient, AspectRatio};

fn ratio(width: u32, height: u32) -> AspectRatio {
    AspectRatio { width, height }
}

fn area(shape: (u128, u128)) -> u128 {
    shape.0 * shape.1
}

#[test]
fn rounded_quotient_rounds_to_nearest_with_halves_up() {
    assert_eq!(rounded_quotient(0, 7), 0);
    assert_eq!(rounded_quotient(7, 2), 4);
    assert_eq!(rounded_quotient(5, 2), 3);
    assert_eq!(rounded_quotient(10, 4), 3);
    assert_eq!(rounded_quotient(9, 4), 2);
    assert_eq!(rounded_quotient(11, 4), 3);
    assert_eq!(rounded_quotient(12, 4), 3);
    assert_eq!(rounded_quotient(1, 3), 0);
    assert_eq!(rounded_quotient(2, 3), 1);
    assert_eq!(rounded_quotient(u128::MAX, 1), u128::MAX);
    assert_eq!(rounded_quotient(u128::MAX, u128::MAX), 1);
    assert_eq!(rounded_quotient(u128::MAX / 2, u128::MAX), 0);
    assert_eq!(rounded_quotient(u128::MAX / 2 + 1, u128::MAX), 1);
}

#[test]
fn fixed_width_grid_matches_the_rounding_formula() {
    let grid = create_grid(72, ratio(4, 3), 1200, 900).unwrap();
    assert_eq!(grid.cards_wide, 72);
    assert_eq!(grid.cards_tall, 72);
    assert_eq!(grid.grid.len(), 72 * 72);
    assert!(grid.grid.iter().all(|&tile| tile == 0));
    assert_eq!(cards_tall(72, ratio(4, 3), 1200, 900), Some(72));
}

#[test]
fn fixed_width_grid_for_a_wide_tile() {
    let grid = create_grid(80, ratio(16, 9), 2000, 1500).unwrap();
    assert_eq!((grid.cards_wide, grid.cards_tall), (80, 107));
    assert_eq!(grid.grid.len(), 80 * 107);
}

#[test]
fn row_count_rounds_a_half_up() {
    assert_eq!(cards_tall(1, ratio(1, 1), 10, 5), Some(1));
    assert_eq!(cards_tall(1, ratio(1, 1), 10, 4), Some(0));
    assert_eq!(cards_tall(3, ratio(1, 1), 10, 5), Some(2));
    assert_eq!(rows_exact(3, ratio(1, 1), 10, 5), 2);
}

#[test]
fn column_count_mirrors_row_count() {
    assert_eq!(cards_wide(72, ratio(4, 3), 1200, 900), Some(72));
    assert_eq!(cards_wide(9, ratio(16, 9), 2000, 1500), Some(7));
    assert_eq!(columns_exact(9, ratio(16, 9), 2000, 1500), 7);
}

#[test]
fn counts_beyond_32_bits_are_reported() {
    assert_eq!(cards_tall(u32::MAX, ratio(u32::MAX, 1), 1, u32::MAX), None);
    assert_eq!(cards_wide(u32::MAX, ratio(1, u32::MAX), u32::MAX, 1), None);
}

#[test]
fn fixed_width_grid_rejects_degenerate_input() {
    assert_eq!(create_grid(0, ratio(4, 3), 1200, 900).err(), Some(MosaicError::DegenerateInput));
    assert_eq!(create_grid(72, ratio(0, 3), 1200, 900).err(), Some(MosaicError::DegenerateInput));
    assert_eq!(create_grid(72, ratio(4, 0), 1200, 900).err(), Some(MosaicError::DegenerateInput));
    assert_eq!(create_grid(72, ratio(4, 3), 0, 900).err(), Some(MosaicError::DegenerateInput));
    assert_eq!(create_grid(72, ratio(4, 3), 1200, 0).err(), Some(MosaicError::DegenerateInput));
    assert_eq!(create_grid(1, ratio(1, 1), 10, 4).err(), Some(MosaicError::DegenerateInput));
}

#[test]
fn fixed_width_grid_rejects_too_many_cells() {
    assert_eq!(create_grid(100_000, ratio(1, 1), 1, 1).err(), Some(MosaicError::TooLarge));
    assert_eq!(create_grid(u32::MAX, ratio(u32::MAX, 1), 1, u32::MAX).err(), Some(MosaicError::TooLarge));
}

#[test]
fn fitting_grid_examples() {
    let cases: [(u32, (u32, u32), u32, u32, (u32, u32)); 8] = [
        (100, (16, 9), 2000, 1500, (9, 12)),
        (1, (1, 1), 10, 10, (1, 1)),
        (7, (1, 1), 30, 20, (5, 3)),
        (300, (4, 3), 1200, 900, (18, 18)),
        (50, (3, 2), 800, 600, (7, 8)),
        (10, (1, 3), 5, 5, (6, 2)),
        (5, (1, 1), 2, 1, (4, 2)),
        (2, (3, 1), 1, 1, (1, 3)),
    ];
    for (n, aspect, width, height, shape) in cases {
        let grid = create_grid_fitting(n, ratio(aspect.0, aspect.1), width, height).unwrap();
        assert_eq!((grid.cards_wide, grid.cards_tall), shape);
        assert_eq!(grid.grid.len() as u32, shape.0 * shape.1);
        assert!(grid.grid.iter().all(|&tile| tile == 0));
    }
}

#[test]
fn fitting_grid_holds_n_cells_and_no_earlier_candidate_is_smaller() {
    let aspect = ratio(16, 9);
    let (width, height): (u32, u32) = (640, 480);
    for n in 1..200u32 {
        let grid = create_grid_fitting(n, aspect, width, height).unwrap();
        let cells = grid.cards_wide as u128 * grid.cards_tall as u128;
        assert!(cells >= n as u128);
        let mut step: u64 = 1;
        loop {
            let by_height = (columns_exact(step, aspect, width, height), step as u128);
            let by_width = (step as u128, rows_exact(step, aspect, width, height));
            let mut stop = false;
            for candidate in [by_height, by_width] {
                if area(candidate) >= n as u128 {
                    assert!(area(candidate) >= cells);
                    stop = true;
                }
            }
            if stop {
                let chosen = (grid.cards_wide as u128, grid.cards_tall as u128);
                assert!(chosen == by_height || chosen == by_width);
                break;
            }
            step += 1;
        }
    }
}

#[test]
fn fitting_grid_takes_the_smaller_of_two_candidates_that_fit() {
    // At step 3 both (4, 3) and (3, 3) hold 5 cells; the smaller one wins.
    let grid = create_grid_fitting(5, ratio(1, 1), 12, 10).unwrap();
    assert_eq!((grid.cards_wide, grid.cards_tall), (3, 3));
    // Here the candidates are (3, 3) and (3, 4).
    let grid = create_grid_fitting(7, ratio(1, 1), 10, 12).unwrap();
    assert_eq!((grid.cards_wide, grid.cards_tall), (3, 3));
    let grid = create_grid_fitting(4, ratio(1, 1), 10, 10).unwrap();
    assert_eq!((grid.cards_wide, grid.cards_tall), (2, 2));
    let grid = create_grid_fitting(2, ratio(2, 1), 10, 10).unwrap();
    assert_eq!((grid.cards_wide, grid.cards_tall), (1, 2));
}

#[test]
fn fitting_grid_reports_an_unreachable_count() {
    assert_eq!(create_grid_fitting(4_000_000_000, ratio(1, 1), 1, 1).err(), Some(MosaicError::Ungridable));
    assert_eq!(create_grid_fitting(3, ratio(1, 1), 1, 1).err(), Some(MosaicError::Ungridable));
}

#[test]
fn fitting_grid_rejects_degenerate_input() {
    assert_eq!(create_grid_fitting(0, ratio(1, 1), 10, 10).err(), Some(MosaicError::DegenerateInput));
    assert_eq!(create_grid_fitting(5, ratio(0, 1), 10, 10).err(), Some(MosaicError::DegenerateInput));
    assert_eq!(create_grid_fitting(5, ratio(1, 0), 10, 10).err(), Some(MosaicError::DegenerateInput));
    assert_eq!(create_grid_fitting(5, ratio(1, 1), 0, 10).err(), Some(MosaicError::DegenerateInput));
    assert_eq!(create_grid_fitting(5, ratio(1, 1), 10, 0).err(), Some(MosaicError::DegenerateInput));
}

#[test]
fn fitting_grid_reports_a_grid_too_large_to_index() {
    let r = create_grid_fitting(2, ratio(u32::MAX, 1), 1, u32::MAX);
    assert_eq!(r.err(), Some(MosaicError::TooLarge));
}

#[test]
fn every_error_has_a_message() {
    for e in [MosaicError::DegenerateInput, MosaicError::Ungridable, MosaicError::TooLarge] {
        assert!(!e.message().is_empty());
    }
    assert_ne!(MosaicError::DegenerateInput.message(), MosaicError::Ungridable.message());
    assert_ne!(MosaicError::TooLarge.message(), MosaicError::Ungridable.message());
}
