use card_mosaic::order::{ascending_order, create_best_fit_order, create_detail_order};
use card_mosaic::rank::rank_costs;
use card_mosaic::raster::RasterImage;

#[test]
fn ascending_order_sorts_indices_by_key_then_index() {
    assert_eq!(ascending_order(&vec![5, 1, 5, 0]), vec![3, 1, 0, 2]);
    assert_eq!(ascending_order(&vec![2, 2, 2]), vec![0, 1, 2]);
    assert!(ascending_order(&vec![]).is_empty());
    assert_eq!(ascending_order(&vec![u32::MAX, 0]), vec![1, 0]);
}

#[test]
fn best_fit_order_visits_the_cheapest_best_candidate_first() {
    let columns = vec![rank_costs(&vec![7, 9]), rank_costs(&vec![3, 1]), rank_costs(&vec![8, 7]), rank_costs(&vec![0, 4])];
    assert_eq!(create_best_fit_order(&columns), vec![3, 1, 0, 2]);
    assert!(create_best_fit_order(&vec![]).is_empty());
}

#[test]
fn detail_order_visits_the_busiest_cell_first() {
    // Three cells of 2 x 2 pixels side by side: flat, a vertical edge, a
    // chessboard pattern.
    let w: (u8, u8, u8) = (255, 255, 255);
    let b: (u8, u8, u8) = (0, 0, 0);
    let rows = [[b, b, b, w, b, w], [b, b, b, w, w, b]];
    let mut bytes: Vec<u8> = Vec::new();
    for row in rows {
        for p in row {
            bytes.push(p.0);
            bytes.push(p.1);
            bytes.push(p.2);
        }
    }
    let image = RasterImage::from_raw(6, 2, bytes).unwrap();
    // Detail: 0, 2 * 765 and 4 * 765.
    assert_eq!(create_detail_order(&image, 3, 1, 2), vec![2, 1, 0]);
}

#[test]
fn detail_order_keeps_index_order_among_equals() {
    let image = RasterImage::solid(4, 6, (9, 9, 9));
    assert_eq!(create_detail_order(&image, 2, 3, 2), vec![0, 1, 2, 3, 4, 5]);
    assert_eq!(create_detail_order(&image, 4, 6, 1), (0..24).collect::<Vec<usize>>());
    let nothing = RasterImage::from_raw(0, 0, vec![]).unwrap();
    assert!(create_detail_order(&nothing, 0, 0, 3).is_empty());
    assert_eq!(create_detail_order(&nothing, 2, 2, 0), vec![0, 1, 2, 3]);
}

#[test]
fn detail_order_counts_rows_and_columns_of_the_cell_only() {
    // Two cells of 2 x 2 pixels stacked; the upper has a horizontal edge.
    let bytes: Vec<u8> = vec![
        0, 0, 0, 0, 0, 0, //
        10, 10, 10, 10, 10, 10, //
        50, 50, 50, 50, 50, 50, //
        50, 50, 50, 50, 50, 50,
    ];
    let image = RasterImage::from_raw(2, 4, bytes).unwrap();
    // The step from row 1 to row 2 lies between the cells and counts for
    // neither.
    assert_eq!(create_detail_order(&image, 1, 2, 2), vec![0, 1]);
    let bytes: Vec<u8> = vec![
        50, 50, 50, 50, 50, 50, //
        50, 50, 50, 50, 50, 50, //
        0, 0, 0, 0, 0, 0, //
        10, 10, 10, 10, 10, 10,
    ];
    let image = RasterImage::from_raw(2, 4, bytes).unwrap();
    assert_eq!(create_detail_order(&image, 1, 2, 2), vec![1, 0]);
}
