//! Rasters of integer RGB pixels, and their trimming to even dimensions.

use vstd::prelude::*;
use vstd::arithmetic::div_mod::{lemma_fundamental_div_mod, lemma_mod_bound};

verus! {

/// An RGB pixel: three channel values, each counted against the denominator
/// of its image.
#[derive(Clone, Copy, Debug, PartialEq, Eq, Structural)]
pub struct Rgb {
    pub red: u16,
    pub green: u16,
    pub blue: u16,
}

impl Rgb {
    /// No channel of the pixel exceeds `denominator`.
    pub open spec fn within(&self, denominator: u16) -> bool {
        self.red <= denominator && self.green <= denominator && self.blue <= denominator
    }
}

/// A raster of RGB pixels in row-major order, with the largest value that a
/// channel may take.
#[derive(Clone, Debug)]
pub struct RgbImage {
    pub pixels: Vec<Rgb>,
    pub width: u32,
    pub height: u32,
    pub denominator: u16,
}

impl RgbImage {
    /// The image holds exactly one pixel for each of its coordinates.
    pub open spec fn is_complete(&self) -> bool {
        self.pixels@.len() == self.width * self.height
    }

    /// No channel of any pixel exceeds the denominator of the image.
    pub open spec fn within_denominator(&self) -> bool {
        forall|i: int|
            0 <= i < self.pixels@.len() ==> (#[trigger] self.pixels@[i]).within(self.denominator)
    }

    /// The pixels that are left when the image is trimmed to even
    /// dimensions, in row-major order.
    pub open spec fn trimmed_pixels(&self) -> Seq<Rgb> {
        cropped(
            self.pixels@,
            self.width as int,
            even_part(self.width as int),
            even_part(self.height as int),
        )
    }
}

/// The largest even number that is at most `n`.
pub open spec fn even_part(n: int) -> int {
    n - n % 2
}

/// Where the pixel at place `i` of a raster cropped to `new_width` columns
/// lies in the uncropped raster of `width` columns.
pub open spec fn source_index(i: int, width: int, new_width: int) -> int {
    (i / new_width) * width + i % new_width
}

/// The top-left part of a raster of `width` columns: `new_height` rows of
/// `new_width` pixels each, in row-major order.
pub open spec fn cropped(pixels: Seq<Rgb>, width: int, new_width: int, new_height: int) -> Seq<
    Rgb,
> {
    Seq::new(
        (new_width * new_height) as nat,
        |i: int| pixels[source_index(i, width, new_width)],
    )
}

/// Trims a dimension to an even number of pixels: an odd dimension loses its
/// last row or column.
pub fn trim(n: u32) -> (trimmed: u32)
    ensures
        trimmed == even_part(n as int),
        trimmed % 2 == 0,
        trimmed <= n < trimmed + 2,
{
    if n % 2 != 0 {
        n - 1
    } else {
        n
    }
}

/// Every pixel of a cropped raster comes from inside the uncropped one.
pub proof fn lemma_source_index_in_range(
    i: int,
    width: int,
    height: int,
    new_width: int,
    new_height: int,
)
    requires
        0 <= new_width <= width,
        0 <= new_height <= height,
        0 <= i < new_width * new_height,
    ensures
        0 <= source_index(i, width, new_width) < width * height,
{
    assert(new_width > 0) by (nonlinear_arith)
        requires
            0 <= i < new_width * new_height,
            0 <= new_width,
    ;
    let row = i / new_width;
    let column = i % new_width;
    lemma_fundamental_div_mod(i, new_width);
    lemma_mod_bound(i, new_width);
    assert(0 <= row < new_height) by (nonlinear_arith)
        requires
            i == new_width * row + column,
            0 <= column < new_width,
            0 <= i < new_width * new_height,
    ;
    assert(0 <= row * width && row * width + width <= width * height) by (nonlinear_arith)
        requires
            0 <= row < height,
            0 <= width,
    ;
}

} // verus!
