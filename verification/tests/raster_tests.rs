use card_mosaic::raster::{pixel_at, pixel_at_index, pixel_difference, RasterImage};

#[test]
fn pixel_at_reads_row_major_triples() {
    let bytes: Vec<u8> = vec![1, 2, 3, 4, 5, 6, 7, 8, 9, 10, 11, 12];
    assert_eq!(pixel_at(&bytes, 2, 0, 0), (1, 2, 3));
    assert_eq!(pixel_at(&bytes, 2, 1, 0), (4, 5, 6));
    assert_eq!(pixel_at(&bytes, 2, 0, 1), (7, 8, 9));
    assert_eq!(pixel_at(&bytes, 2, 1, 1), (10, 11, 12));
}

#[test]
fn pixel_at_index_reads_the_ith_triple() {
    let bytes: Vec<u8> = vec![1, 2, 3, 4, 5, 6];
    assert_eq!(pixel_at_index(&bytes, 0), (1, 2, 3));
    assert_eq!(pixel_at_index(&bytes, 1), (4, 5, 6));
}

#[test]
fn pixel_difference_is_the_l1_distance() {
    assert_eq!(pixel_difference((0, 0, 0), (255, 255, 255)), 765);
    assert_eq!(pixel_difference((10, 200, 30), (20, 100, 30)), 110);
    assert_eq!(pixel_difference((9, 9, 9), (9, 9, 9)), 0);
    assert_eq!(pixel_difference((1, 2, 3), (3, 2, 1)), pixel_difference((3, 2, 1), (1, 2, 3)));
}

#[test]
fn from_raw_accepts_only_exact_buffers() {
    assert!(RasterImage::from_raw(2, 2, vec![0; 12]).is_some());
    assert!(RasterImage::from_raw(2, 2, vec![0; 11]).is_none());
    assert!(RasterImage::from_raw(2, 2, vec![0; 13]).is_none());
    assert!(RasterImage::from_raw(0, 5, vec![]).is_some());
}

#[test]
fn solid_fills_every_pixel() {
    let img = RasterImage::solid(3, 2, (7, 8, 9));
    assert_eq!(img.width, 3);
    assert_eq!(img.height, 2);
    assert_eq!(img.bytes.len(), 18);
    for y in 0..2 {
        for x in 0..3 {
            assert_eq!(img.get(x, y), (7, 8, 9));
        }
    }
    let copy = img.clone();
    assert_eq!(copy.bytes, img.bytes);
}
