use card_mosaic::acquire::{
    accepts_layout, crop_card, crop_dimensions, pull_action, pull_start, pull_step, FetchEvent, PullAction,
    PullState, RetryPolicy,
};
use card_mosaic::duplicates::{add_duplicates, append_duplicates};
use card_mosaic::error::MosaicError;
use card_mosaic::raster::RasterImage;
use card_mosaic::ratio::AspectRatio;

fn ratio(width: u32, height: u32) -> AspectRatio {
    AspectRatio { width, height }
}

fn numbered(width: u32, height: u32) -> RasterImage {
    let mut bytes: Vec<u8> = Vec::new();
    for y in 0..height {
        for x in 0..width {
            bytes.push(x as u8);
            bytes.push(y as u8);
            bytes.push(7);
        }
    }
    RasterImage::from_raw(width, height, bytes).unwrap()
}

#[test]
fn only_the_normal_layout_is_accepted() {
    assert!(accepts_layout("normal".as_bytes()));
    assert!(!accepts_layout("token".as_bytes()));
    assert!(!accepts_layout("transform".as_bytes()));
    assert!(!accepts_layout("Normal".as_bytes()));
    assert!(!accepts_layout("normal ".as_bytes()));
    assert!(!accepts_layout("norma".as_bytes()));
    assert!(!accepts_layout("".as_bytes()));
}

#[test]
fn crop_size_keeps_one_side_and_rounds_the_other() {
    assert_eq!(crop_dimensions(100, 50, ratio(1, 1)), (50, 50));
    assert_eq!(crop_dimensions(50, 100, ratio(1, 1)), (50, 50));
    assert_eq!(crop_dimensions(1000, 700, ratio(16, 9)), (1000, 563));
    assert_eq!(crop_dimensions(626, 457, ratio(16, 9)), (626, 352));
    assert_eq!(crop_dimensions(300, 457, ratio(16, 9)), (300, 169));
    assert_eq!(crop_dimensions(640, 360, ratio(16, 9)), (640, 360));
    assert_eq!(crop_dimensions(10, 10, ratio(1, 100)), (0, 10));
    assert_eq!(crop_dimensions(10, 10, ratio(100, 1)), (10, 0));
    assert_eq!(crop_dimensions(0, 0, ratio(4, 3)), (0, 0));
}

#[test]
fn crop_keeps_the_middle_columns() {
    let image = numbered(6, 2);
    let out = crop_card(&image, ratio(1, 1)).unwrap();
    assert_eq!((out.width, out.height), (2, 2));
    assert_eq!(out.bytes, vec![2, 0, 7, 3, 0, 7, 2, 1, 7, 3, 1, 7]);
}

#[test]
fn crop_keeps_the_middle_rows() {
    let image = numbered(2, 7);
    let out = crop_card(&image, ratio(2, 3)).unwrap();
    assert_eq!((out.width, out.height), (2, 3));
    assert_eq!(out.bytes, vec![0, 2, 7, 1, 2, 7, 0, 3, 7, 1, 3, 7, 0, 4, 7, 1, 4, 7]);
}

#[test]
fn crop_of_an_image_with_the_right_ratio_is_a_copy() {
    let image = numbered(8, 6);
    let out = crop_card(&image, ratio(4, 3)).unwrap();
    assert_eq!((out.width, out.height), (8, 6));
    assert_eq!(out.bytes, image.bytes);
}

#[test]
fn crop_rejects_degenerate_input() {
    let image = numbered(8, 6);
    assert_eq!(crop_card(&image, ratio(0, 3)).err(), Some(MosaicError::DegenerateInput));
    assert_eq!(crop_card(&image, ratio(4, 0)).err(), Some(MosaicError::DegenerateInput));
    let empty = RasterImage::from_raw(0, 6, vec![]).unwrap();
    assert_eq!(crop_card(&empty, ratio(4, 3)).err(), Some(MosaicError::DegenerateInput));
}

#[test]
fn pull_fetches_until_enough_tiles_are_saved() {
    let policy = RetryPolicy { max_failures: None };
    let mut state = pull_start(3);
    assert_eq!(state, PullState { saved: 0, wanted: 3, failures: 0 });
    assert_eq!(pull_action(state, policy), PullAction::Fetch);
    let mut fetches = 0;
    let events = [FetchEvent::Saved, FetchEvent::Failed, FetchEvent::Failed, FetchEvent::Saved, FetchEvent::Saved];
    let mut action = pull_action(state, policy);
    for event in events {
        assert_eq!(action, PullAction::Fetch);
        fetches += 1;
        let next = pull_step(state, event, policy);
        state = next.0;
        action = next.1;
    }
    assert_eq!(action, PullAction::Done);
    assert_eq!(fetches, 5);
    assert_eq!(state, PullState { saved: 3, wanted: 3, failures: 0 });
    assert_eq!(pull_action(pull_start(0), policy), PullAction::Done);
}

#[test]
fn pull_without_a_limit_never_gives_up() {
    let policy = RetryPolicy { max_failures: None };
    let mut state = pull_start(1);
    for _ in 0..1000 {
        let next = pull_step(state, FetchEvent::Failed, policy);
        assert_eq!(next.1, PullAction::Fetch);
        state = next.0;
    }
    assert_eq!(state.failures, 1000);
    let stuck = PullState { saved: 0, wanted: 1, failures: u32::MAX };
    assert_eq!(pull_step(stuck, FetchEvent::Failed, policy), (stuck, PullAction::Fetch));
}

#[test]
fn pull_gives_up_after_too_many_failures_in_a_row() {
    let policy = RetryPolicy { max_failures: Some(3) };
    let state = pull_start(2);
    let (state, action) = pull_step(state, FetchEvent::Failed, policy);
    assert_eq!(action, PullAction::Fetch);
    let (state, action) = pull_step(state, FetchEvent::Failed, policy);
    assert_eq!(action, PullAction::Fetch);
    // A saved tile clears the count.
    let (state, action) = pull_step(state, FetchEvent::Saved, policy);
    assert_eq!((state.saved, state.failures, action), (1, 0, PullAction::Fetch));
    let (state, _) = pull_step(state, FetchEvent::Failed, policy);
    let (state, _) = pull_step(state, FetchEvent::Failed, policy);
    let (state, action) = pull_step(state, FetchEvent::Failed, policy);
    assert_eq!((state.saved, state.failures, action), (1, 3, PullAction::GiveUp));
}

#[test]
fn appending_duplicates_repeats_the_head_of_the_list() {
    let mut tiles = vec![RasterImage::solid(1, 1, (1, 1, 1)), RasterImage::solid(2, 1, (2, 2, 2))];
    append_duplicates(&mut tiles, 5);
    let widths: Vec<u32> = tiles.iter().map(|t| t.width).collect();
    assert_eq!(widths, vec![1, 2, 1, 2, 1, 2, 1]);
    assert_eq!(tiles[4].bytes, vec![1, 1, 1]);
    assert_eq!(tiles[5].bytes, vec![2, 2, 2, 2, 2, 2]);
    let mut none: Vec<RasterImage> = vec![];
    append_duplicates(&mut none, 0);
    assert!(none.is_empty());
}

#[test]
fn adding_duplicates_shuffles_then_repeats_the_head() {
    let mut tiles: Vec<RasterImage> = (1..=9).map(|n| RasterImage::solid(n, 1, (n as u8, 0, 0))).collect();
    add_duplicates(&mut tiles, 4).unwrap();
    assert_eq!(tiles.len(), 13);
    let mut widths: Vec<u32> = tiles[..9].iter().map(|t| t.width).collect();
    widths.sort();
    assert_eq!(widths, (1..=9).collect::<Vec<u32>>());
    for i in 0..4 {
        assert_eq!(tiles[9 + i].width, tiles[i].width);
        assert_eq!(tiles[9 + i].bytes, tiles[i].bytes);
    }
}

#[test]
fn adding_duplicates_to_nothing_is_rejected() {
    let mut tiles: Vec<RasterImage> = vec![];
    assert_eq!(add_duplicates(&mut tiles, 1).err(), Some(MosaicError::DegenerateInput));
    assert!(add_duplicates(&mut tiles, 0).is_ok());
    assert!(tiles.is_empty());
}
