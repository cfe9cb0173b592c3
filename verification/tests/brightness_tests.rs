use card_mosaic::brightness::{
    brightness_at, count_brightness, create_brightness_counts, create_brightness_map, match_brightness,
};
use card_mosaic::raster::RasterImage;

fn image(width: u32, height: u32, pixels: &[(u8, u8, u8)]) -> RasterImage {
    let mut bytes: Vec<u8> = Vec::new();
    for p in pixels {
        bytes.push(p.0);
        bytes.push(p.1);
        bytes.push(p.2);
    }
    RasterImage::from_raw(width, height, bytes).unwrap()
}

fn counts_with(entries: &[(usize, u32)]) -> Vec<u32> {
    let mut counts = create_brightness_counts();
    for &(bucket, count) in entries {
        counts[bucket] = count;
    }
    counts
}

#[test]
fn fresh_counts_are_256_zeros() {
    let counts = create_brightness_counts();
    assert_eq!(counts.len(), 256);
    assert!(counts.iter().all(|&c| c == 0));
}

#[test]
fn brightness_is_the_rounded_mean_of_the_channels() {
    let bytes: Vec<u8> = vec![0, 0, 0, 255, 255, 255, 1, 0, 0, 1, 1, 0, 255, 0, 0, 10, 20, 31];
    assert_eq!(brightness_at(&bytes, 0), 0);
    assert_eq!(brightness_at(&bytes, 1), 255);
    assert_eq!(brightness_at(&bytes, 2), 0);
    assert_eq!(brightness_at(&bytes, 3), 1);
    assert_eq!(brightness_at(&bytes, 4), 85);
    assert_eq!(brightness_at(&bytes, 5), 20);
}

#[test]
fn counting_adds_each_pixel_to_its_bucket() {
    let img = image(3, 2, &[(0, 0, 0), (255, 0, 0), (0, 255, 0), (255, 255, 255), (1, 1, 0), (0, 0, 2)]);
    let mut counts = create_brightness_counts();
    counts[85] = 5;
    count_brightness(&img, &mut counts);
    assert_eq!(counts[0], 1);
    assert_eq!(counts[1], 2);
    assert_eq!(counts[85], 7);
    assert_eq!(counts[255], 1);
    assert_eq!(counts.iter().map(|&c| c as u64).sum::<u64>(), 11);
    assert_eq!(counts.len(), 256);
}

#[test]
fn map_sends_each_bucket_to_the_bucket_holding_its_midpoint() {
    // Source: 4 pixels at 10, 4 at 200. Target: 2 at 50, 2 at 60, 4 at 90.
    let from = counts_with(&[(10, 4), (200, 4)]);
    let to = counts_with(&[(50, 2), (60, 2), (90, 4)]);
    let map = create_brightness_map(&from, &to);
    assert_eq!(map.len(), 256);
    // Buckets before 10 are empty with centre 0: first target range above 0.
    assert_eq!(map[0], 50);
    assert_eq!(map[9], 50);
    // Bucket 10 spans [0, 4], centre 2: target bucket 60 spans [2, 4).
    assert_eq!(map[10], 60);
    // Empty buckets between have centre 4: target bucket 90 spans [4, 8).
    assert_eq!(map[11], 90);
    assert_eq!(map[199], 90);
    // Bucket 200 spans [4, 8], centre 6.
    assert_eq!(map[200], 90);
    // Empty buckets after have centre 8, beyond every range: the last bucket.
    assert_eq!(map[201], 255);
    assert_eq!(map[255], 255);
}

#[test]
fn map_is_monotonic() {
    let mut from = create_brightness_counts();
    let mut to = create_brightness_counts();
    let mut seed: u32 = 12345;
    for i in 0..256 {
        seed = seed.wrapping_mul(1664525).wrapping_add(1013904223);
        from[i] = (seed >> 16) % 50;
        seed = seed.wrapping_mul(1664525).wrapping_add(1013904223);
        to[i] = if (seed >> 20) % 3 == 0 { 0 } else { (seed >> 16) % 70 };
    }
    let map = create_brightness_map(&from, &to);
    for i in 1..256 {
        assert!(map[i - 1] <= map[i]);
    }
    assert!(map.iter().all(|&m| m < 256));
}

#[test]
fn map_of_a_histogram_onto_itself_keeps_occupied_buckets() {
    let counts = counts_with(&[(0, 3), (17, 1), (85, 300), (86, 2), (254, 9), (255, 100)]);
    let map = create_brightness_map(&counts, &counts);
    for i in 0..256 {
        if counts[i] > 0 {
            assert_eq!(map[i], i as u32);
        }
    }
    // An empty bucket goes to the next occupied one.
    assert_eq!(map[1], 17);
    assert_eq!(map[18], 85);
}

#[test]
fn map_with_huge_counts_does_not_overflow() {
    let from = counts_with(&[(3, u32::MAX), (4, u32::MAX), (250, u32::MAX)]);
    let to = counts_with(&[(100, u32::MAX), (101, u32::MAX), (102, u32::MAX)]);
    let map = create_brightness_map(&from, &to);
    assert_eq!(map[3], 100);
    assert_eq!(map[4], 101);
    assert_eq!(map[250], 102);
    assert_eq!(map[251], 255);
}

#[test]
fn map_onto_an_empty_histogram_is_the_last_bucket() {
    let from = counts_with(&[(10, 4)]);
    let to = create_brightness_counts();
    let map = create_brightness_map(&from, &to);
    assert!(map.iter().all(|&m| m == 255));
}

#[test]
fn matching_rescales_each_channel_by_target_over_mean() {
    let mut map: Vec<u32> = (0..256).collect();
    // Mean of (30, 60, 90) is 60; target 120 doubles every channel.
    map[60] = 120;
    // Mean of (200, 100, 0) is 100; target 150 scales by 1.5 and caps at 255.
    map[100] = 150;
    // Mean of (10, 10, 11) is 10.33, bucket 10; target 5: ratio 15 / 31.
    map[10] = 5;
    let img = image(2, 2, &[(30, 60, 90), (200, 100, 0), (10, 10, 11), (0, 0, 0)]);
    let out = match_brightness(&img, &map);
    assert_eq!((out.width, out.height), (2, 2));
    assert_eq!(out.bytes, vec![60, 120, 180, 255, 150, 0, 5, 5, 5, 0, 0, 0]);
}

#[test]
fn matching_leaves_black_pixels_black() {
    let map: Vec<u32> = vec![200; 256];
    let img = image(1, 2, &[(0, 0, 0), (1, 0, 0)]);
    let out = match_brightness(&img, &map);
    assert_eq!(out.bytes, vec![0, 0, 0, 255, 0, 0]);
}

#[test]
fn matching_through_the_identity_map_changes_only_by_rounding_of_the_mean() {
    let map: Vec<u32> = (0..256).collect();
    // Sums divisible by 3 have an exact mean, so the ratio is exactly one.
    let img = image(3, 1, &[(255, 0, 0), (255, 255, 255), (10, 20, 30)]);
    let out = match_brightness(&img, &map);
    assert_eq!(out.bytes, img.bytes);
}

#[test]
fn an_image_matched_against_its_own_histogram_is_unchanged_when_means_are_exact() {
    let img = image(2, 2, &[(255, 0, 0), (0, 255, 0), (0, 0, 255), (255, 255, 255)]);
    let mut counts = create_brightness_counts();
    count_brightness(&img, &mut counts);
    let map = create_brightness_map(&counts, &counts);
    assert_eq!(map[85], 85);
    assert_eq!(map[255], 255);
    let out = match_brightness(&img, &map);
    assert_eq!(out.bytes, img.bytes);
}
