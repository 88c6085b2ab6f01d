//! The block grid: how a raster of even dimensions is cut into 2x2 blocks and
//! how blocks are put back into a raster.
//!
//! Blocks are numbered left to right, then top to bottom. Within a block the
//! pixels are numbered 0 = top-left, 1 = top-right, 2 = bottom-left,
//! 3 = bottom-right.

use vstd::prelude::*;
use vstd::arithmetic::div_mod::{
    lemma_fundamental_div_mod, lemma_fundamental_div_mod_converse, lemma_mod_bound,
};
use crate::error::CodecError;

verus! {

/// Both dimensions are even, as cutting into 2x2 blocks needs them.
pub open spec fn even_dimensions(width: int, height: int) -> bool {
    width % 2 == 0 && height % 2 == 0
}

/// The number of 2x2 blocks of a raster of the given dimensions.
pub open spec fn block_count(width: int, height: int) -> int {
    (width / 2) * (height / 2)
}

/// The place in a row-major raster of `width` columns of pixel `j` of block `k`.
pub open spec fn block_pixel_index(width: int, k: int, j: int) -> int {
    (2 * (k / (width / 2)) + j / 2) * width + 2 * (k % (width / 2)) + j % 2
}

/// The number of the block that holds the pixel at place `i` of a row-major
/// raster of `width` columns.
pub open spec fn block_of_pixel(width: int, i: int) -> int {
    ((i / width) / 2) * (width / 2) + (i % width) / 2
}

/// The number within its block of the pixel at place `i` of a row-major
/// raster of `width` columns.
pub open spec fn place_in_block(width: int, i: int) -> int {
    ((i / width) % 2) * 2 + (i % width) % 2
}

/// `blocks` are the 2x2 blocks of the raster `pixels`, in block order.
pub open spec fn is_partition<T>(
    blocks: Seq<[T; 4]>,
    pixels: Seq<T>,
    width: int,
    height: int,
) -> bool {
    &&& blocks.len() == block_count(width, height)
    &&& forall|k: int, j: int|
        0 <= k < blocks.len() && 0 <= j < 4 ==> #[trigger] blocks[k]@[j]
            == pixels[block_pixel_index(width, k, j)]
}

/// `pixels` is the row-major raster whose 2x2 blocks are `blocks`.
pub open spec fn is_assembly<T>(
    pixels: Seq<T>,
    blocks: Seq<[T; 4]>,
    width: int,
    height: int,
) -> bool {
    &&& pixels.len() == width * height
    &&& forall|i: int|
        0 <= i < pixels.len() ==> #[trigger] pixels[i]
            == blocks[block_of_pixel(width, i)]@[place_in_block(width, i)]
}

/// Cuts a raster into its 2x2 blocks, in block order. Fails with malformed
/// input iff a dimension is odd or `pixels` does not hold `width * height`
/// elements.
pub fn split_into_blocks<T: Copy>(pixels: &Vec<T>, width: usize, height: usize) -> (result:
    Result<Vec<[T; 4]>, CodecError>)
    ensures
        result.is_ok() <==> even_dimensions(width as int, height as int)
            && pixels@.len() == width * height,
        result matches Ok(blocks) ==> is_partition(blocks@, pixels@, width as int, height as int),
        result matches Err(error) ==> error == CodecError::MalformedInput,
{
    assert(width * height <= 0xffff_ffff_ffff_ffff * 0xffff_ffff_ffff_ffff) by (nonlinear_arith)
        requires
            0 <= width <= 0xffff_ffff_ffff_ffff,
            0 <= height <= 0xffff_ffff_ffff_ffff,
    ;
    if width % 2 != 0 || height % 2 != 0
        || (width as u128) * (height as u128) != pixels.len() as u128 {
        return Err(CodecError::MalformedInput);
    }
    let half_width: usize = width / 2;
    let half_height: usize = height / 2;
    let mut blocks: Vec<[T; 4]> = Vec::new();
    let mut block_row: usize = 0;
    while block_row < half_height
        invariant
            even_dimensions(width as int, height as int),
            pixels@.len() == width * height,
            half_width == width / 2,
            half_height == height / 2,
            block_row <= half_height,
            blocks@.len() == block_row * half_width,
            forall|k: int, j: int|
                0 <= k < blocks@.len() && 0 <= j < 4 ==> #[trigger] blocks@[k]@[j]
                    == pixels@[block_pixel_index(width as int, k, j)],
        decreases half_height - block_row,
    {
        let mut block_column: usize = 0;
        while block_column < half_width
            invariant
                even_dimensions(width as int, height as int),
                pixels@.len() == width * height,
                half_width == width / 2,
                half_height == height / 2,
                block_row < half_height,
                block_column <= half_width,
                blocks@.len() == block_row * half_width + block_column,
                forall|k: int, j: int|
                    0 <= k < blocks@.len() && 0 <= j < 4 ==> #[trigger] blocks@[k]@[j]
                        == pixels@[block_pixel_index(width as int, k, j)],
            decreases half_width - block_column,
        {
            let ghost k = block_row * half_width + block_column;
            proof {
                assert(0 <= block_row * half_width
                    && block_row * half_width + half_width <= half_width * half_height)
                    by (nonlinear_arith)
                    requires
                        0 <= block_row < half_height,
                        0 <= half_width,
                ;
                lemma_fundamental_div_mod_converse(
                    k,
                    half_width as int,
                    block_row as int,
                    block_column as int,
                );
                lemma_block_pixel_index(width as int, height as int, k, 0);
                lemma_block_pixel_index(width as int, height as int, k, 1);
                lemma_block_pixel_index(width as int, height as int, k, 2);
                lemma_block_pixel_index(width as int, height as int, k, 3);
                assert(2 * block_row * width >= 0
                    && (2 * block_row + 1) * width == 2 * block_row * width + width)
                    by (nonlinear_arith)
                    requires
                        0 <= block_row,
                        0 <= width,
                ;
                assert(block_pixel_index(width as int, k, 0)
                    == 2 * block_row * width + 2 * block_column);
                assert(block_pixel_index(width as int, k, 1)
                    == 2 * block_row * width + 2 * block_column + 1);
                assert(block_pixel_index(width as int, k, 2)
                    == (2 * block_row + 1) * width + 2 * block_column);
                assert(block_pixel_index(width as int, k, 3)
                    == (2 * block_row + 1) * width + 2 * block_column + 1);
                assert(pixels.len() <= usize::MAX);
            }
            let top: usize = 2 * block_row * width + 2 * block_column;
            let bottom: usize = (2 * block_row + 1) * width + 2 * block_column;
            let block: [T; 4] = [pixels[top], pixels[top + 1], pixels[bottom], pixels[bottom + 1]];
            blocks.push(block);
            block_column += 1;
        }
        assert((block_row + 1) * half_width == block_row * half_width + half_width)
            by (nonlinear_arith);
        block_row += 1;
    }
    assert(half_height * half_width == block_count(width as int, height as int))
        by (nonlinear_arith)
        requires
            half_width == width / 2,
            half_height == height / 2,
    ;
    Ok(blocks)
}

/// Checks that `count` blocks are what a raster of the given dimensions is
/// made of. Fails with malformed input iff a dimension is odd or `count` is
/// not `(width / 2) * (height / 2)`.
pub fn check_dimensions(count: usize, width: usize, height: usize) -> (result: Result<
    (),
    CodecError,
>)
    ensures
        result.is_ok() <==> even_dimensions(width as int, height as int)
            && count == block_count(width as int, height as int),
        result matches Err(error) ==> error == CodecError::MalformedInput,
{
    let half_width: usize = width / 2;
    let half_height: usize = height / 2;
    assert(half_width * half_height <= 0xffff_ffff_ffff_ffff * 0xffff_ffff_ffff_ffff)
        by (nonlinear_arith)
        requires
            0 <= half_width <= 0xffff_ffff_ffff_ffff,
            0 <= half_height <= 0xffff_ffff_ffff_ffff,
    ;
    if width % 2 != 0 || height % 2 != 0
        || (half_width as u128) * (half_height as u128) != count as u128 {
        Err(CodecError::MalformedInput)
    } else {
        Ok(())
    }
}

/// Puts 2x2 blocks, given in block order, back into a row-major raster of
/// the given dimensions. Fails with malformed input iff a dimension is odd
/// or the number of blocks is not `(width / 2) * (height / 2)`.
pub fn join_blocks<T: Copy>(blocks: &Vec<[T; 4]>, width: usize, height: usize) -> (result:
    Result<Vec<T>, CodecError>)
    ensures
        result.is_ok() <==> even_dimensions(width as int, height as int)
            && blocks@.len() == block_count(width as int, height as int),
        result matches Ok(pixels) ==> is_assembly(pixels@, blocks@, width as int, height as int),
        result matches Err(error) ==> error == CodecError::MalformedInput,
{
    match check_dimensions(blocks.len(), width, height) {
        Err(error) => { return Err(error); },
        Ok(()) => {},
    }
    let half_width: usize = width / 2;
    let mut pixels: Vec<T> = Vec::new();
    let mut row: usize = 0;
    while row < height
        invariant
            even_dimensions(width as int, height as int),
            blocks@.len() == block_count(width as int, height as int),
            half_width == width / 2,
            row <= height,
            pixels@.len() == row * width,
            forall|i: int|
                0 <= i < pixels@.len() ==> #[trigger] pixels@[i]
                    == blocks@[block_of_pixel(width as int, i)]@[place_in_block(width as int, i)],
        decreases height - row,
    {
        let mut column: usize = 0;
        while column < width
            invariant
                even_dimensions(width as int, height as int),
                blocks@.len() == block_count(width as int, height as int),
                half_width == width / 2,
                row < height,
                column <= width,
                pixels@.len() == row * width + column,
                forall|i: int|
                    0 <= i < pixels@.len() ==> #[trigger] pixels@[i] == blocks@[block_of_pixel(
                        width as int,
                        i,
                    )]@[place_in_block(width as int, i)],
            decreases width - column,
        {
            let ghost i = row * width + column;
            proof {
                assert(0 <= row * width && row * width + width <= width * height)
                    by (nonlinear_arith)
                    requires
                        0 <= row < height,
                        0 <= width,
                ;
                lemma_fundamental_div_mod_converse(i, width as int, row as int, column as int);
                lemma_block_of_pixel(width as int, height as int, i);
                assert((row / 2) * half_width >= 0) by (nonlinear_arith)
                    requires
                        0 <= row,
                        0 <= half_width,
                ;
                assert(block_of_pixel(width as int, i) == (row / 2) * half_width + column / 2);
                assert(place_in_block(width as int, i) == (row % 2) * 2 + column % 2);
                assert(blocks.len() <= usize::MAX);
            }
            let block: usize = (row / 2) * half_width + column / 2;
            let place: usize = (row % 2) * 2 + column % 2;
            pixels.push(blocks[block][place]);
            column += 1;
        }
        assert((row + 1) * width == row * width + width) by (nonlinear_arith);
        row += 1;
    }
    assert(height * width == width * height) by (nonlinear_arith);
    Ok(pixels)
}

/// Cutting a raster into blocks and putting the blocks back gives the
/// raster.
pub proof fn lemma_join_inverts_split<T>(
    pixels: Seq<T>,
    blocks: Seq<[T; 4]>,
    joined: Seq<T>,
    width: int,
    height: int,
)
    requires
        0 <= width,
        0 <= height,
        even_dimensions(width, height),
        pixels.len() == width * height,
        is_partition(blocks, pixels, width, height),
        is_assembly(joined, blocks, width, height),
    ensures
        joined == pixels,
{
    assert forall|i: int| 0 <= i < pixels.len() implies joined[i] == pixels[i] by {
        lemma_block_of_pixel(width, height, i);
        let k = block_of_pixel(width, i);
        let j = place_in_block(width, i);
        assert(blocks[k]@[j] == pixels[block_pixel_index(width, k, j)]);
    }
    assert(joined =~= pixels);
}

/// Putting blocks into a raster and cutting the raster into blocks gives
/// the blocks.
pub proof fn lemma_split_inverts_join<T>(
    blocks: Seq<[T; 4]>,
    pixels: Seq<T>,
    parts: Seq<[T; 4]>,
    width: int,
    height: int,
)
    requires
        0 <= width,
        0 <= height,
        even_dimensions(width, height),
        blocks.len() == block_count(width, height),
        is_assembly(pixels, blocks, width, height),
        is_partition(parts, pixels, width, height),
    ensures
        parts.len() == blocks.len(),
        forall|k: int| 0 <= k < blocks.len() ==> (#[trigger] parts[k])@ == blocks[k]@,
{
    assert forall|k: int| 0 <= k < blocks.len() implies (#[trigger] parts[k])@ == blocks[k]@ by {
        assert forall|j: int| 0 <= j < 4 implies parts[k]@[j] == blocks[k]@[j] by {
            lemma_block_pixel_index(width, height, k, j);
            let i = block_pixel_index(width, k, j);
            assert(parts[k]@[j] == pixels[i]);
            assert(pixels[i] == blocks[block_of_pixel(width, i)]@[place_in_block(width, i)]);
        }
        assert(parts[k]@ =~= blocks[k]@);
    }
}

/// Each pixel of each block lies inside the raster, in the block and at the
/// place that name it.
pub proof fn lemma_block_pixel_index(width: int, height: int, k: int, j: int)
    requires
        0 <= width,
        0 <= height,
        even_dimensions(width, height),
        0 <= k < block_count(width, height),
        0 <= j < 4,
    ensures
        0 <= block_pixel_index(width, k, j) < width * height,
        block_of_pixel(width, block_pixel_index(width, k, j)) == k,
        place_in_block(width, block_pixel_index(width, k, j)) == j,
{
    let half = width / 2;
    assert(half > 0) by (nonlinear_arith)
        requires
            0 <= k < half * (height / 2),
            0 <= half,
    ;
    let block_row = k / half;
    let block_column = k % half;
    lemma_fundamental_div_mod(k, half);
    lemma_mod_bound(k, half);
    assert(0 <= block_row < height / 2) by (nonlinear_arith)
        requires
            k == half * block_row + block_column,
            0 <= block_column < half,
            0 <= k < half * (height / 2),
    ;
    let row = 2 * block_row + j / 2;
    let column = 2 * block_column + j % 2;
    let i = block_pixel_index(width, k, j);
    assert(i == row * width + column);
    assert(0 <= row * width && row * width + width <= width * height) by (nonlinear_arith)
        requires
            0 <= row < height,
            0 <= width,
    ;
    lemma_fundamental_div_mod_converse(i, width, row, column);
    assert(block_row * half + block_column == k) by (nonlinear_arith)
        requires
            k == half * block_row + block_column,
    ;
}

/// Each pixel of the raster lies in one block, at one place, and is the
/// pixel of that block at that place.
pub proof fn lemma_block_of_pixel(width: int, height: int, i: int)
    requires
        0 <= width,
        0 <= height,
        even_dimensions(width, height),
        0 <= i < width * height,
    ensures
        0 <= block_of_pixel(width, i) < block_count(width, height),
        0 <= place_in_block(width, i) < 4,
        block_pixel_index(width, block_of_pixel(width, i), place_in_block(width, i)) == i,
{
    assert(width > 0) by (nonlinear_arith)
        requires
            0 <= i < width * height,
            0 <= width,
    ;
    let half = width / 2;
    let row = i / width;
    let column = i % width;
    lemma_fundamental_div_mod(i, width);
    lemma_mod_bound(i, width);
    assert(0 <= row < height) by (nonlinear_arith)
        requires
            i == width * row + column,
            0 <= column < width,
            0 <= i < width * height,
    ;
    let k = block_of_pixel(width, i);
    assert(k == (row / 2) * half + column / 2);
    assert(0 <= (row / 2) * half && (row / 2) * half + half <= half * (height / 2))
        by (nonlinear_arith)
        requires
            0 <= row / 2 < height / 2,
            0 <= half,
    ;
    lemma_fundamental_div_mod_converse(k, half, row / 2, column / 2);
    let j = place_in_block(width, i);
    assert(j / 2 == row % 2 && j % 2 == column % 2);
    assert(block_pixel_index(width, k, j) == row * width + column);
    assert(row * width == width * row) by (nonlinear_arith);
}

} // verus!
