//! Compression and decompression: the way from a raster to a stream of
//! packed words and back.
//!
//! The arithmetic that turns the four pixels of a block into a quantized
//! record, and a record into four pixels, is the caller's: it is handed in
//! as a function. Everything around it is done here: trimming, cutting into
//! blocks, packing, and the checks on what comes in.

use vstd::prelude::*;
use crate::blocks::{
    block_count, block_of_pixel, check_dimensions, even_dimensions, is_assembly, is_partition,
    join_blocks, lemma_block_of_pixel, place_in_block, split_into_blocks,
};
use crate::compress_decompress::{
    all_valid, convert_rgb_to_rgb_image, is_packing, is_unpacking, pack_as_32_bit, prepare_ppm,
    unpack_to_pixel_values,
};
use crate::error::CodecError;
use crate::raster::{even_part, trim, Rgb, RgbImage};
use crate::word::PixelBlockValues;

verus! {

/// A compressed image: one big-endian word per 2x2 block, in block order,
/// and the even dimensions of the raster that the blocks were cut from.
#[derive(Clone, Debug)]
pub struct CompressedImage {
    pub words: Vec<[u8; 4]>,
    pub width: u32,
    pub height: u32,
}

/// `records` are results of `encode`, one for each of `blocks` and in their
/// order, each for pixels counted against `denominator`.
pub open spec fn is_encoding<F: Fn([Rgb; 4], u16) -> PixelBlockValues>(
    encode: F,
    denominator: u16,
    blocks: Seq<[Rgb; 4]>,
    records: Seq<PixelBlockValues>,
) -> bool {
    &&& records.len() == blocks.len()
    &&& forall|k: int|
        0 <= k < blocks.len() ==> call_ensures(
            encode,
            (blocks[k], denominator),
            #[trigger] records[k],
        )
}

/// `blocks` are results of `decode`, one for each of `records` and in their
/// order, each in pixels counted against `denominator`.
pub open spec fn is_decoding<F: Fn(PixelBlockValues, u16) -> [Rgb; 4]>(
    decode: F,
    denominator: u16,
    records: Seq<PixelBlockValues>,
    blocks: Seq<[Rgb; 4]>,
) -> bool {
    &&& blocks.len() == records.len()
    &&& forall|k: int|
        0 <= k < records.len() ==> call_ensures(
            decode,
            (records[k], denominator),
            #[trigger] blocks[k],
        )
}

/// Every pixel that `decode` gives for `denominator` has its channels within
/// that denominator.
pub open spec fn decodes_within<F: Fn(PixelBlockValues, u16) -> [Rgb; 4]>(
    decode: F,
    denominator: u16,
) -> bool {
    forall|record: PixelBlockValues, block: [Rgb; 4], j: int|
        #![trigger call_ensures(decode, (record, denominator), block), block@[j]]
        call_ensures(decode, (record, denominator), block) && 0 <= j < 4 ==> block@[j].within(
            denominator,
        )
}

/// Compresses `image`: trims it to even dimensions, cuts what is left into
/// 2x2 blocks, has `encode` turn each block into its quantized record, and
/// packs each record into a big-endian word.
///
/// Fails with malformed input iff the image does not hold
/// `width * height` pixels, and with a range violation iff `encode` gave a
/// record with a value that does not fit its field.
pub fn compress<F: Fn([Rgb; 4], u16) -> PixelBlockValues>(image: &RgbImage, encode: F) -> (result:
    Result<CompressedImage, CodecError>)
    requires
        forall|block: [Rgb; 4]| call_requires(encode, (block, image.denominator)),
    ensures
        !image.is_complete() <==> result == Err::<CompressedImage, CodecError>(
            CodecError::MalformedInput,
        ),
        result matches Ok(compressed) ==> {
            &&& compressed.width == even_part(image.width as int)
            &&& compressed.height == even_part(image.height as int)
            &&& even_dimensions(compressed.width as int, compressed.height as int)
            &&& compressed.words@.len() == block_count(
                compressed.width as int,
                compressed.height as int,
            )
        },
        image.is_complete() ==> exists|blocks: Seq<[Rgb; 4]>, records: Seq<PixelBlockValues>|
            {
                &&& is_partition(
                    blocks,
                    image.trimmed_pixels(),
                    even_part(image.width as int),
                    even_part(image.height as int),
                )
                &&& #[trigger] is_encoding(encode, image.denominator, blocks, records)
                &&& match result {
                    Ok(compressed) => all_valid(records) && is_packing(compressed.words@, records),
                    Err(error) => !all_valid(records) && error == CodecError::RangeViolation,
                }
            },
{
    assert(image.width * image.height <= 0xffff_ffff * 0xffff_ffff) by (nonlinear_arith)
        requires
            0 <= image.width <= 0xffff_ffff,
            0 <= image.height <= 0xffff_ffff,
    ;
    if (image.width as u64) * (image.height as u64) != image.pixels.len() as u64 {
        return Err(CodecError::MalformedInput);
    }
    let width: u32 = trim(image.width);
    let height: u32 = trim(image.height);
    let pixels: Vec<Rgb> = prepare_ppm(image, width, height);
    let blocks: Vec<[Rgb; 4]> = match split_into_blocks(&pixels, width as usize, height as usize) {
        Ok(blocks) => blocks,
        Err(error) => { return Err(error); },
    };
    let mut records: Vec<PixelBlockValues> = Vec::new();
    let mut k: usize = 0;
    while k < blocks.len()
        invariant
            forall|block: [Rgb; 4]| call_requires(encode, (block, image.denominator)),
            k <= blocks@.len(),
            records@.len() == k,
            forall|i: int|
                0 <= i < k ==> call_ensures(
                    encode,
                    (blocks@[i], image.denominator),
                    #[trigger] records@[i],
                ),
        decreases blocks@.len() - k,
    {
        records.push(encode(blocks[k], image.denominator));
        k += 1;
    }
    assert(is_encoding(encode, image.denominator, blocks@, records@));
    match pack_as_32_bit(&records) {
        Ok(words) => Ok(CompressedImage { words, width, height }),
        Err(error) => Err(error),
    }
}

/// Decompresses a stream of big-endian words declared with the given
/// dimensions: unpacks each word into its quantized record, has `decode`
/// turn each record into the four pixels of its block, and puts the blocks
/// into a raster of `width` by `height` pixels with the given denominator.
///
/// Fails with malformed input iff a dimension is odd or the number of words
/// is not `(width / 2) * (height / 2)`. Where `decode` keeps every channel
/// within the denominator, so does the image.
pub fn decompress<F: Fn(PixelBlockValues, u16) -> [Rgb; 4]>(
    words: &Vec<[u8; 4]>,
    width: u32,
    height: u32,
    denominator: u16,
    decode: F,
) -> (result: Result<RgbImage, CodecError>)
    requires
        forall|record: PixelBlockValues|
            record.valid() ==> call_requires(decode, (record, denominator)),
    ensures
        result.is_ok() <==> even_dimensions(width as int, height as int)
            && words@.len() == block_count(width as int, height as int),
        result matches Err(error) ==> error == CodecError::MalformedInput,
        result matches Ok(image) ==> {
            &&& image.width == width
            &&& image.height == height
            &&& image.denominator == denominator
            &&& image.is_complete()
            &&& exists|records: Seq<PixelBlockValues>, blocks: Seq<[Rgb; 4]>|
                {
                    &&& is_unpacking(records, words@)
                    &&& #[trigger] is_decoding(decode, denominator, records, blocks)
                    &&& is_assembly(image.pixels@, blocks, width as int, height as int)
                }
            &&& decodes_within(decode, denominator) ==> image.within_denominator()
        },
{
    let records: Vec<PixelBlockValues> = match unpack_stream(
        words,
        width as usize,
        height as usize,
    ) {
        Ok(records) => records,
        Err(error) => { return Err(error); },
    };
    let mut blocks: Vec<[Rgb; 4]> = Vec::new();
    let mut k: usize = 0;
    while k < records.len()
        invariant
            forall|record: PixelBlockValues|
                record.valid() ==> call_requires(decode, (record, denominator)),
            all_valid(records@),
            k <= records@.len(),
            blocks@.len() == k,
            forall|i: int|
                0 <= i < k ==> call_ensures(
                    decode,
                    (records@[i], denominator),
                    #[trigger] blocks@[i],
                ),
        decreases records@.len() - k,
    {
        assert(records@[k as int].valid());
        blocks.push(decode(records[k], denominator));
        k += 1;
    }
    assert(is_decoding(decode, denominator, records@, blocks@));
    match join_blocks(&blocks, width as usize, height as usize) {
        Ok(pixels) => {
            proof {
                if decodes_within(decode, denominator) {
                    assert forall|i: int| 0 <= i < pixels@.len() implies (
                    #[trigger] pixels@[i]).within(denominator) by {
                        lemma_block_of_pixel(width as int, height as int, i);
                        let k = block_of_pixel(width as int, i);
                        let j = place_in_block(width as int, i);
                        assert(call_ensures(decode, (records@[k], denominator), blocks@[k]));
                        assert(blocks@[k]@[j].within(denominator));
                    }
                }
            }
            Ok(convert_rgb_to_rgb_image(&pixels, width, height, denominator))
        },
        Err(error) => Err(error),
    }
}

/// Reads the quantized blocks of a stream of big-endian words that was
/// declared with the given dimensions. Fails with malformed input iff a
/// dimension is odd or the number of words is not
/// `(width / 2) * (height / 2)`.
pub fn unpack_stream(words: &Vec<[u8; 4]>, width: usize, height: usize) -> (result: Result<
    Vec<PixelBlockValues>,
    CodecError,
>)
    ensures
        result.is_ok() <==> even_dimensions(width as int, height as int)
            && words@.len() == block_count(width as int, height as int),
        result matches Ok(records) ==> is_unpacking(records@, words@) && all_valid(records@),
        result matches Err(error) ==> error == CodecError::MalformedInput,
{
    match check_dimensions(words.len(), width, height) {
        Err(error) => Err(error),
        Ok(()) => Ok(unpack_to_pixel_values(words)),
    }
}

} // verus!
