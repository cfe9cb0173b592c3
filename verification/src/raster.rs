//! Interleaved 8-bit RGB pixel buffers and per-pixel arithmetic.

use vstd::prelude::*;
use crate::ratio::lemma_mul_u32;

verus! {

/// One pixel: red, green, blue.
pub type Rgb = (u8, u8, u8);

/// Absolute difference of two channel values.
pub open spec fn channel_distance(a: u8, b: u8) -> int {
    if a >= b {
        a - b
    } else {
        b - a
    }
}

/// Sum of absolute per-channel differences between two pixels.
pub open spec fn pixel_distance(a: Rgb, b: Rgb) -> int {
    channel_distance(a.0, b.0) + channel_distance(a.1, b.1) + channel_distance(a.2, b.2)
}

/// The pixel stored at position `i` of an interleaved RGB byte sequence.
pub open spec fn pixel_of(bytes: Seq<u8>, i: int) -> Rgb {
    (bytes[3 * i], bytes[3 * i + 1], bytes[3 * i + 2])
}

/// A pixel's channels as integers.
pub open spec fn rgb_ints(p: Rgb) -> (int, int, int) {
    (p.0 as int, p.1 as int, p.2 as int)
}

/// An owned RGB raster, three bytes per pixel, rows stored top to bottom.
#[derive(Debug)]
pub struct RasterImage {
    pub width: u32,
    pub height: u32,
    pub bytes: Vec<u8>,
}

impl Clone for RasterImage {
    fn clone(&self) -> (out: Self)
        ensures
            out.width == self.width,
            out.height == self.height,
            out.bytes@ == self.bytes@,
    {
        let bytes = self.bytes.clone();
        assert(bytes@ =~= self.bytes@);
        RasterImage { width: self.width, height: self.height, bytes }
    }
}

impl RasterImage {
    /// The buffer holds exactly `width * height` pixels.
    pub open spec fn wf(&self) -> bool {
        self.bytes@.len() == 3 * (self.width as int * self.height as int)
    }

    /// Number of pixels in the raster.
    pub open spec fn pixel_count(&self) -> int {
        self.width as int * self.height as int
    }

    /// The pixel at column `x`, row `y`.
    pub open spec fn pixel(&self, x: int, y: int) -> Rgb {
        pixel_of(self.bytes@, self.width as int * y + x)
    }

    /// Wraps a byte buffer as a raster if it holds exactly `width * height`
    /// pixels.
    pub fn from_raw(width: u32, height: u32, bytes: Vec<u8>) -> (image: Option<RasterImage>)
        ensures
            image is Some <==> bytes@.len() == 3 * (width as int * height as int),
            image matches Some(img) ==> img.width == width && img.height == height && img.bytes@
                == bytes@,
    {
        proof {
            lemma_mul_u32(width, height);
        }
        let expected: u128 = 3 * (width as u128 * height as u128);
        if bytes.len() as u128 == expected {
            Some(RasterImage { width, height, bytes })
        } else {
            None
        }
    }

    /// A raster of one colour.
    pub fn solid(width: u32, height: u32, color: Rgb) -> (image: RasterImage)
        requires
            3 * (width as int * height as int) <= usize::MAX,
        ensures
            image.wf(),
            image.width == width,
            image.height == height,
            forall|i: int| 0 <= i < image.pixel_count() ==> pixel_of(image.bytes@, i) == color,
    {
        proof {
            lemma_mul_u32(width, height);
        }
        let count: u64 = width as u64 * height as u64;
        let mut bytes: Vec<u8> = Vec::new();
        let mut i: u64 = 0;
        while i < count
            invariant
                i <= count,
                3 * count <= usize::MAX,
                bytes@.len() == 3 * i,
                forall|k: int| 0 <= k < i ==> pixel_of(bytes@, k) == color,
            decreases count - i,
        {
            let ghost before = bytes@;
            bytes.push(color.0);
            bytes.push(color.1);
            bytes.push(color.2);
            assert forall|k: int| 0 <= k < i + 1 implies pixel_of(bytes@, k) == color by {
                if k < i {
                    assert(pixel_of(before, k) == color);
                }
            }
            i = i + 1;
        }
        RasterImage { width, height, bytes }
    }

    /// Reads the pixel at column `x`, row `y`.
    pub fn get(&self, x: u32, y: u32) -> (p: Rgb)
        requires
            self.wf(),
            x < self.width,
            y < self.height,
        ensures
            p == self.pixel(x as int, y as int),
    {
        proof {
            lemma_pixel_index_in_range(self.width as int, self.height as int, x as int, y as int);
        }
        pixel_at(self.bytes.as_slice(), self.width, x, y)
    }
}

/// A pixel inside a `width * height` raster lies inside its buffer.
pub proof fn lemma_pixel_index_in_range(width: int, height: int, x: int, y: int)
    requires
        0 <= x < width,
        0 <= y < height,
    ensures
        0 <= width * y + x < width * height,
        3 * (width * y + x) + 2 < 3 * (width * height),
{
    assert(width * y + x < width * height) by (nonlinear_arith)
        requires
            0 <= x < width,
            0 <= y < height,
    {
        assert(width * (y + 1) <= width * height);
    }
    assert(0 <= width * y) by (nonlinear_arith)
        requires
            0 <= width,
            0 <= y,
    ;
}

/// Reads the pixel at column `x`, row `y` of a row-major RGB buffer whose rows
/// hold `width` pixels.
pub fn pixel_at(bytes: &[u8], width: u32, x: u32, y: u32) -> (p: Rgb)
    requires
        3 * (width as int * y as int + x as int) + 2 < bytes@.len(),
    ensures
        p == pixel_of(bytes@, width as int * y as int + x as int),
{
    let len: usize = bytes.len();
    proof {
        lemma_mul_u32(width, y);
    }
    let base: usize = (3 * (width as u64 * y as u64 + x as u64)) as usize;
    (bytes[base], bytes[base + 1], bytes[base + 2])
}

/// Reads pixel number `i` of an interleaved RGB buffer.
pub fn pixel_at_index(bytes: &[u8], i: usize) -> (p: Rgb)
    requires
        3 * i + 2 < bytes@.len(),
    ensures
        p == pixel_of(bytes@, i as int),
{
    let len: usize = bytes.len();
    (bytes[3 * i], bytes[3 * i + 1], bytes[3 * i + 2])
}

/// Sum of the absolute differences of the three channels of two pixels.
pub fn pixel_difference(pixel0: Rgb, pixel1: Rgb) -> (d: u32)
    ensures
        d == pixel_distance(pixel0, pixel1),
        d <= 765,
{
    let r: u32 = if pixel0.0 >= pixel1.0 {
        (pixel0.0 - pixel1.0) as u32
    } else {
        (pixel1.0 - pixel0.0) as u32
    };
    let g: u32 = if pixel0.1 >= pixel1.1 {
        (pixel0.1 - pixel1.1) as u32
    } else {
        (pixel1.1 - pixel0.1) as u32
    };
    let b: u32 = if pixel0.2 >= pixel1.2 {
        (pixel0.2 - pixel1.2) as u32
    } else {
        (pixel1.2 - pixel0.2) as u32
    };
    r + g + b
}

} // verus!
