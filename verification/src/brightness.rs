//! Brightness matching: histograms of rounded mean brightness, the map that
//! carries one histogram's tonal scale onto another's by inverting the
//! cumulative distribution, and the rescaling of an image through that map.

use vstd::prelude::*;
use crate::raster::{pixel_at_index, pixel_of, rgb_ints, RasterImage, Rgb};
use crate::ratio::{round_div, rounded_quotient};

verus! {

/// Number of brightness buckets: one per 8-bit brightness value.
pub const BUCKETS: usize = 256;

/// The mean of a pixel's three channels, rounded to the nearest integer.
pub open spec fn brightness_bucket(p: Rgb) -> int {
    (p.0 + p.1 + p.2 + 1) / 3
}

/// How many of the first `pixels` pixels of a buffer fall in `bucket`.
pub open spec fn brightness_count(bytes: Seq<u8>, pixels: int, bucket: int) -> int
    decreases pixels,
{
    if pixels <= 0 {
        0
    } else {
        brightness_count(bytes, pixels - 1, bucket) + if brightness_bucket(pixel_of(bytes, pixels - 1))
            == bucket {
            1int
        } else {
            0int
        }
    }
}

/// Sum of the first `i` bucket counts.
pub open spec fn cumulative(counts: Seq<u32>, i: int) -> int
    decreases i,
{
    if i <= 0 {
        0
    } else {
        cumulative(counts, i - 1) + counts[i - 1]
    }
}

/// Midpoint of bucket `i`'s range of cumulative counts, rounded down.
pub open spec fn bucket_center(from: Seq<u32>, i: int) -> int {
    (2 * cumulative(from, i) + from[i]) / 2
}

/// `j` is the bucket of `to` whose range of cumulative counts holds
/// `center`: the first bucket whose range ends above it, or the last bucket
/// when none does.
pub open spec fn matches_bucket(to: Seq<u32>, center: int, j: int) -> bool {
    &&& 0 <= j < BUCKETS
    &&& forall|k: int| 0 <= k < j ==> #[trigger] cumulative(to, k + 1) <= center
    &&& (j == BUCKETS - 1 || center < cumulative(to, j + 1))
}

/// A channel rescaled by the ratio of the target brightness to the pixel's
/// own mean brightness `sum / 3`, rounded and capped at 255. A black pixel
/// has no ratio and stays as it is.
pub open spec fn matched_channel(c: u8, sum: int, target: int) -> int {
    if sum == 0 {
        c as int
    } else if round_div(3 * c * target, sum) > 255 {
        255
    } else {
        round_div(3 * c * target, sum)
    }
}

/// A pixel with each channel rescaled towards the brightness that the map
/// assigns to the pixel's bucket.
pub open spec fn matched_pixel(p: Rgb, map: Seq<u32>) -> (int, int, int) {
    let sum = p.0 + p.1 + p.2;
    let target = map[brightness_bucket(p)] as int;
    (matched_channel(p.0, sum, target), matched_channel(p.1, sum, target), matched_channel(p.2, sum, target))
}

/// `counts` is the brightness histogram of `image`.
pub open spec fn counts_image(counts: Seq<u32>, image: RasterImage) -> bool {
    &&& counts.len() == BUCKETS
    &&& forall|b: int|
        0 <= b < BUCKETS ==> #[trigger] counts[b] == brightness_count(image.bytes@, image.pixel_count(), b)
}

/// How many pixels of the first `n` images fall in `bucket`.
pub open spec fn pool_count(images: Seq<RasterImage>, n: int, bucket: int) -> int
    decreases n,
{
    if n <= 0 {
        0
    } else {
        pool_count(images, n - 1, bucket) + brightness_count(
            images[n - 1].bytes@,
            images[n - 1].pixel_count(),
            bucket,
        )
    }
}

/// `counts` is the brightness histogram of all the images together.
pub open spec fn counts_pool(counts: Seq<u32>, images: Seq<RasterImage>) -> bool {
    &&& counts.len() == BUCKETS
    &&& forall|b: int| 0 <= b < BUCKETS ==> #[trigger] counts[b] == pool_count(images, images.len() as int, b)
}

/// `map` carries the tonal scale of histogram `from` onto that of `to`.
pub open spec fn is_brightness_map(map: Seq<u32>, from: Seq<u32>, to: Seq<u32>) -> bool {
    &&& map.len() == BUCKETS
    &&& forall|i: int| 0 <= i < BUCKETS ==> matches_bucket(to, bucket_center(from, i), #[trigger] map[i] as int)
}

/// `out` is `image` with every pixel rescaled through `map`.
pub open spec fn is_matched(out: RasterImage, image: RasterImage, map: Seq<u32>) -> bool {
    &&& out.wf()
    &&& out.width == image.width
    &&& out.height == image.height
    &&& forall|i: int|
        0 <= i < image.pixel_count() ==> rgb_ints(#[trigger] pixel_of(out.bytes@, i)) == matched_pixel(
            pixel_of(image.bytes@, i),
            map,
        )
}

/// The pixels of a pool in one bucket are no more than all its pixels, if
/// every image of the pool holds at most `each` pixels.
pub proof fn lemma_pool_count_bound(images: Seq<RasterImage>, n: int, bucket: int, each: int)
    requires
        0 <= n <= images.len(),
        forall|t: int| 0 <= t < n ==> 0 <= (#[trigger] images[t]).pixel_count() <= each,
    ensures
        0 <= pool_count(images, n, bucket) <= n * each,
    decreases n,
{
    if n > 0 {
        lemma_pool_count_bound(images, n - 1, bucket, each);
        lemma_brightness_count_monotonic(
            images[n - 1].bytes@,
            images[n - 1].pixel_count(),
            images[n - 1].pixel_count(),
            bucket,
        );
        assert(n * each == (n - 1) * each + each) by (nonlinear_arith);
    } else {
        assert(0 * each == 0);
    }
}

/// Counting further pixels never lowers a bucket's count, and a count never
/// exceeds the number of pixels seen.
pub proof fn lemma_brightness_count_monotonic(bytes: Seq<u8>, i: int, j: int, bucket: int)
    requires
        0 <= i <= j,
    ensures
        0 <= brightness_count(bytes, i, bucket) <= brightness_count(bytes, j, bucket) <= j,
    decreases j,
{
    if j > 0 {
        if i < j {
            lemma_brightness_count_monotonic(bytes, i, j - 1, bucket);
        } else {
            lemma_brightness_count_monotonic(bytes, i - 1, j - 1, bucket);
        }
    }
}

/// Cumulative counts never decrease and stay below the largest possible sum.
pub proof fn lemma_cumulative_monotonic(counts: Seq<u32>, i: int, j: int)
    requires
        0 <= i <= j,
    ensures
        0 <= cumulative(counts, i) <= cumulative(counts, j) <= j * 0xffff_ffff,
    decreases j,
{
    if j > 0 {
        if i < j {
            lemma_cumulative_monotonic(counts, i, j - 1);
        } else {
            lemma_cumulative_monotonic(counts, i - 1, j - 1);
        }
    }
}

/// Bucket centres never decrease from one bucket to the next.
pub proof fn lemma_center_monotonic(from: Seq<u32>, i: int, j: int)
    requires
        0 <= i <= j,
    ensures
        0 <= bucket_center(from, i) <= bucket_center(from, j),
{
    lemma_cumulative_monotonic(from, i, i);
    lemma_cumulative_monotonic(from, j, j);
    if i < j {
        lemma_cumulative_monotonic(from, i + 1, j);
    }
}

/// The matching bucket never decreases when the centre grows.
pub proof fn lemma_match_monotonic(to: Seq<u32>, c1: int, c2: int, j1: int, j2: int)
    requires
        c1 <= c2,
        matches_bucket(to, c1, j1),
        matches_bucket(to, c2, j2),
    ensures
        j1 <= j2,
{
    if j2 < j1 {
        assert(cumulative(to, j2 + 1) <= c1);
    }
}

/// A histogram matched against itself sends every occupied bucket to itself.
pub proof fn lemma_match_self(counts: Seq<u32>, i: int)
    requires
        0 <= i < BUCKETS,
        counts[i] > 0,
    ensures
        matches_bucket(counts, bucket_center(counts, i), i),
{
    lemma_cumulative_monotonic(counts, i, i);
    assert forall|k: int| 0 <= k < i implies #[trigger] cumulative(counts, k + 1) <= bucket_center(
        counts,
        i,
    ) by {
        lemma_cumulative_monotonic(counts, k + 1, i);
    }
}

/// A fresh histogram: 256 buckets, all empty.
pub fn create_brightness_counts() -> (counts: Vec<u32>)
    ensures
        counts@.len() == BUCKETS,
        forall|b: int| 0 <= b < BUCKETS ==> counts@[b] == 0,
{
    let mut counts: Vec<u32> = Vec::new();
    let mut i: usize = 0;
    while i < BUCKETS
        invariant
            i <= BUCKETS,
            counts@.len() == i,
            forall|b: int| 0 <= b < i ==> counts@[b] == 0,
        decreases BUCKETS - i,
    {
        counts.push(0u32);
        i = i + 1;
    }
    counts
}

/// The brightness bucket of pixel number `i` of an interleaved RGB buffer.
pub fn brightness_at(bytes: &[u8], i: usize) -> (bucket: usize)
    requires
        3 * i + 2 < bytes@.len(),
    ensures
        bucket == brightness_bucket(pixel_of(bytes@, i as int)),
        bucket < BUCKETS,
{
    let p: Rgb = pixel_at_index(bytes, i);
    ((p.0 as u32 + p.1 as u32 + p.2 as u32 + 1) / 3) as usize
}

/// Adds every pixel of an image to the histogram bucket of its brightness.
pub fn count_brightness(image: &RasterImage, counts: &mut Vec<u32>)
    requires
        image.wf(),
        old(counts)@.len() == BUCKETS,
        forall|b: int|
            0 <= b < BUCKETS ==> old(counts)@[b] + brightness_count(image.bytes@, image.pixel_count(), b)
                <= u32::MAX,
    ensures
        final(counts)@.len() == BUCKETS,
        forall|b: int|
            0 <= b < BUCKETS ==> final(counts)@[b] == old(counts)@[b] + brightness_count(
                image.bytes@,
                image.pixel_count(),
                b,
            ),
{
    let pixels: usize = image.bytes.len() / 3;
    let ghost start = counts@;
    let mut i: usize = 0;
    while i < pixels
        invariant
            i <= pixels,
            pixels == image.pixel_count(),
            image.wf(),
            counts@.len() == BUCKETS,
            start.len() == BUCKETS,
            forall|b: int|
                0 <= b < BUCKETS ==> start[b] + brightness_count(image.bytes@, image.pixel_count(), b)
                    <= u32::MAX,
            forall|b: int| 0 <= b < BUCKETS ==> counts@[b] == start[b] + brightness_count(image.bytes@, i as int, b),
        decreases pixels - i,
    {
        let bucket: usize = brightness_at(image.bytes.as_slice(), i);
        proof {
            lemma_brightness_count_monotonic(image.bytes@, i + 1, pixels as int, bucket as int);
        }
        let raised: u32 = counts[bucket] + 1;
        counts.set(bucket, raised);
        i = i + 1;
    }
}

/// The map that carries the tonal scale of histogram `from_counts` onto that
/// of `to_counts`: each source bucket goes to the target bucket whose range
/// of cumulative counts holds the midpoint of the source bucket's own range.
pub fn create_brightness_map(from_counts: &Vec<u32>, to_counts: &Vec<u32>) -> (map: Vec<u32>)
    requires
        from_counts@.len() == BUCKETS,
        to_counts@.len() == BUCKETS,
    ensures
        is_brightness_map(map@, from_counts@, to_counts@),
        forall|i: int, j: int| 0 <= i <= j < BUCKETS ==> map@[i] <= map@[j],
        from_counts@ == to_counts@ ==> forall|i: int|
            0 <= i < BUCKETS && from_counts@[i] > 0 ==> map@[i] == i,
{
    let mut map: Vec<u32> = Vec::new();
    let mut cumulative_start: u64 = 0;
    let mut i: usize = 0;
    while i < BUCKETS
        invariant
            i <= BUCKETS,
            from_counts@.len() == BUCKETS,
            to_counts@.len() == BUCKETS,
            map@.len() == i,
            cumulative_start == cumulative(from_counts@, i as int),
            forall|k: int|
                0 <= k < i ==> matches_bucket(to_counts@, bucket_center(from_counts@, k), #[trigger] map@[k] as int),
        decreases BUCKETS - i,
    {
        proof {
            lemma_cumulative_monotonic(from_counts@, i as int, i as int);
        }
        let center: u64 = (2 * cumulative_start + from_counts[i] as u64) / 2;
        let mut to_start: u64 = 0;
        let mut to_index: usize = BUCKETS - 1;
        let mut j: usize = 0;
        while j < BUCKETS
            invariant_except_break
                j <= BUCKETS,
                to_index == BUCKETS - 1,
                to_start == cumulative(to_counts@, j as int),
                forall|k: int| 0 <= k < j ==> #[trigger] cumulative(to_counts@, k + 1) <= center,
            invariant
                to_counts@.len() == BUCKETS,
            ensures
                matches_bucket(to_counts@, center as int, to_index as int),
            decreases BUCKETS - j,
        {
            proof {
                lemma_cumulative_monotonic(to_counts@, j as int, j as int);
            }
            if center < to_start + to_counts[j] as u64 {
                to_index = j;
                break;
            } else {
                to_start = to_start + to_counts[j] as u64;
            }
            j = j + 1;
        }
        let ghost before = map@;
        map.push(to_index as u32);
        assert forall|k: int| 0 <= k < i + 1 implies matches_bucket(
            to_counts@,
            bucket_center(from_counts@, k),
            #[trigger] map@[k] as int,
        ) by {
            if k < i {
                assert(map@[k] == before[k]);
            }
        }
        cumulative_start = cumulative_start + from_counts[i] as u64;
        i = i + 1;
    }
    proof {
        assert forall|a: int, b: int| 0 <= a <= b < BUCKETS implies map@[a] <= map@[b] by {
            lemma_center_monotonic(from_counts@, a, b);
            lemma_match_monotonic(
                to_counts@,
                bucket_center(from_counts@, a),
                bucket_center(from_counts@, b),
                map@[a] as int,
                map@[b] as int,
            );
        }
        if from_counts@ == to_counts@ {
            assert forall|a: int| 0 <= a < BUCKETS && from_counts@[a] > 0 implies map@[a] == a by {
                lemma_match_self(from_counts@, a);
                let c = bucket_center(from_counts@, a);
                lemma_match_monotonic(to_counts@, c, c, map@[a] as int, a);
                lemma_match_monotonic(to_counts@, c, c, a, map@[a] as int);
            }
        }
    }
    map
}

/// One channel of `match_brightness`.
fn match_channel(c: u8, sum: u32, target: u32) -> (v: u8)
    requires
        sum <= 765,
    ensures
        v == matched_channel(c, sum as int, target as int),
{
    if sum == 0 {
        return c;
    }
    assert(0 <= c as int * target as int <= 255 * 0xffff_ffff) by (nonlinear_arith)
        requires
            0 <= c <= 255,
            0 <= target <= 0xffff_ffff,
    ;
    assert(3 * c * target == 3 * (c as int * target as int)) by (nonlinear_arith);
    let scaled: u128 = rounded_quotient(3 * (c as u128 * target as u128), sum as u128);
    if scaled > 255 {
        255
    } else {
        scaled as u8
    }
}

/// Rescales every pixel of an image so that its brightness becomes the one
/// that the map assigns to its bucket.
pub fn match_brightness(image: &RasterImage, brightness_map: &Vec<u32>) -> (out: RasterImage)
    requires
        image.wf(),
        brightness_map@.len() == BUCKETS,
    ensures
        is_matched(out, *image, brightness_map@),
{
    let pixels: usize = image.bytes.len() / 3;
    let mut new_bytes: Vec<u8> = Vec::new();
    let mut i: usize = 0;
    while i < pixels
        invariant
            i <= pixels,
            pixels == image.pixel_count(),
            image.wf(),
            brightness_map@.len() == BUCKETS,
            new_bytes@.len() == 3 * i,
            forall|k: int|
                0 <= k < i ==> rgb_ints(#[trigger] pixel_of(new_bytes@, k)) == matched_pixel(
                    pixel_of(image.bytes@, k),
                    brightness_map@,
                ),
        decreases pixels - i,
    {
        let p: Rgb = pixel_at_index(image.bytes.as_slice(), i);
        let sum: u32 = p.0 as u32 + p.1 as u32 + p.2 as u32;
        let target: u32 = brightness_map[((sum + 1) / 3) as usize];
        let red: u8 = match_channel(p.0, sum, target);
        let green: u8 = match_channel(p.1, sum, target);
        let blue: u8 = match_channel(p.2, sum, target);
        let ghost before = new_bytes@;
        new_bytes.push(red);
        new_bytes.push(green);
        new_bytes.push(blue);
        assert forall|k: int| 0 <= k < i + 1 implies rgb_ints(#[trigger] pixel_of(new_bytes@, k))
            == matched_pixel(pixel_of(image.bytes@, k), brightness_map@) by {
            if k < i {
                assert(pixel_of(new_bytes@, k) == pixel_of(before, k));
            }
        }
        i = i + 1;
    }
    RasterImage { width: image.width, height: image.height, bytes: new_bytes }
}

} // verus!
