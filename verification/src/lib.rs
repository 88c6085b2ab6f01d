//! A lossy still-image codec.
//!
//! A raster of RGB pixels is trimmed to even dimensions and cut into 2x2
//! blocks; each block becomes six small numbers, which are packed into the
//! bit fields of one 32-bit word. Decompression goes the same way back.
//!
//! * [`bitpack`]: bit fields of a 64-bit word.
//! * [`word`]: the packed word of one block.
//! * [`raster`], [`array2`]: rasters and grids.
//! * [`blocks`]: the block grid of a raster.
//! * [`compress_decompress`]: cropping, and packing whole streams.
//! * [`codec`]: compression and decompression from end to end.

pub mod array2;
pub mod bitpack;
pub mod blocks;
pub mod codec;
pub mod compress_decompress;
pub mod error;
pub mod raster;
pub mod word;

use vstd::prelude::*;
use crate::array2::Array2;
use crate::raster::{even_part, source_index, trim, Rgb, RgbImage};

verus! {

/// Trims `image` to even dimensions, dropping its last column if the width
/// is odd and its last row if the height is odd, and gives the pixels that
/// are left as a grid.
pub fn prepare_ppm(image: &RgbImage) -> (grid: Array2<Rgb>)
    requires
        image.is_complete(),
    ensures
        grid.wf(),
        grid.width == even_part(image.width as int),
        grid.height == even_part(image.height as int),
        forall|c: int, r: int|
            grid.in_bounds(c, r) ==> #[trigger] grid.at(c, r) == image.pixels@[r * image.width + c],
{
    let width: u32 = trim(image.width);
    let height: u32 = trim(image.height);
    let pixel_data: Vec<Rgb> = compress_decompress::prepare_ppm(image, width, height);
    let grid = Array2::from_row_major(pixel_data, width as usize, height as usize);
    proof {
        assert(grid.linear_array@.len() == width * height);
        assert forall|c: int, r: int| grid.in_bounds(c, r) implies #[trigger] grid.at(c, r)
            == image.pixels@[r * image.width + c] by {
            grid.lemma_index_in_range(c, r);
            let i = grid.index_of(c, r);
            vstd::arithmetic::div_mod::lemma_fundamental_div_mod_converse(i, width as int, r, c);
            assert(source_index(i, image.width as int, width as int) == r * image.width + c);
        }
    }
    grid
}

} // verus!
