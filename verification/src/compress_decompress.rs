//! The integer steps of compression and decompression: cropping a raster to
//! even dimensions, packing quantized blocks into big-endian words, and the
//! way back.

use vstd::prelude::*;
use vstd::arithmetic::div_mod::lemma_fundamental_div_mod_converse;
use vstd::slice::slice_to_vec;
use crate::error::CodecError;
use crate::raster::{cropped, lemma_source_index_in_range, source_index, Rgb, RgbImage};
use crate::word::{
    big_endian, from_big_endian, lemma_big_endian_of_bytes, lemma_bytes_of_big_endian,
    lemma_pack_inverts_unpack, lemma_unpack_inverts_pack, pack, packed, unpack, unpacked,
    word_from_bytes, word_to_bytes,
};

pub use crate::word::PixelBlockValues;

verus! {

/// `words` are the big-endian words of `records`, one for one and in order.
pub open spec fn is_packing(words: Seq<[u8; 4]>, records: Seq<PixelBlockValues>) -> bool {
    &&& words.len() == records.len()
    &&& forall|i: int|
        0 <= i < words.len() ==> (#[trigger] words[i])@ == big_endian(packed(records[i]) as u32)
}

/// `records` are what the big-endian `words` hold, one for one and in order.
pub open spec fn is_unpacking(records: Seq<PixelBlockValues>, words: Seq<[u8; 4]>) -> bool {
    &&& records.len() == words.len()
    &&& forall|i: int|
        0 <= i < records.len() ==> #[trigger] records[i] == unpacked(
            from_big_endian(words[i]@) as u32,
        )
}

/// Every record of the sequence has each value in the range of its field.
pub open spec fn all_valid(records: Seq<PixelBlockValues>) -> bool {
    forall|i: int| 0 <= i < records.len() ==> (#[trigger] records[i]).valid()
}

/// Copies the top-left `trimmed_width` by `trimmed_height` pixels of `image`
/// into a new vector in row-major order, dropping the columns and rows
/// beyond them.
pub fn prepare_ppm(image: &RgbImage, trimmed_width: u32, trimmed_height: u32) -> (pixel_data: Vec<
    Rgb,
>)
    requires
        image.is_complete(),
        trimmed_width <= image.width,
        trimmed_height <= image.height,
    ensures
        pixel_data@ == cropped(
            image.pixels@,
            image.width as int,
            trimmed_width as int,
            trimmed_height as int,
        ),
        image.within_denominator() ==> forall|i: int|
            0 <= i < pixel_data@.len() ==> (#[trigger] pixel_data@[i]).within(image.denominator),
{
    let width: usize = image.width as usize;
    let new_width: usize = trimmed_width as usize;
    let new_height: usize = trimmed_height as usize;
    let mut pixel_data: Vec<Rgb> = Vec::new();
    let mut i: usize = 0;
    while i < new_height
        invariant
            image.is_complete(),
            width == image.width,
            new_width == trimmed_width,
            new_height == trimmed_height,
            new_width <= width,
            new_height <= image.height,
            i <= new_height,
            pixel_data@.len() == i * new_width,
            forall|k: int|
                #![trigger pixel_data@[k]]
                0 <= k < pixel_data@.len() ==> pixel_data@[k] == image.pixels@[source_index(
                    k,
                    width as int,
                    new_width as int,
                )],
        decreases new_height - i,
    {
        let mut j: usize = 0;
        while j < new_width
            invariant
                image.is_complete(),
                width == image.width,
                new_width == trimmed_width,
                new_height == trimmed_height,
                new_width <= width,
                new_height <= image.height,
                i < new_height,
                j <= new_width,
                pixel_data@.len() == i * new_width + j,
                forall|k: int|
                    #![trigger pixel_data@[k]]
                    0 <= k < pixel_data@.len() ==> pixel_data@[k] == image.pixels@[source_index(
                        k,
                        width as int,
                        new_width as int,
                    )],
            decreases new_width - j,
        {
            proof {
                lemma_fundamental_div_mod_converse(
                    i * new_width + j,
                    new_width as int,
                    i as int,
                    j as int,
                );
                assert(0 <= i * width && i * width + width <= image.height * width)
                    by (nonlinear_arith)
                    requires
                        0 <= i < image.height,
                        0 <= width,
                ;
                assert(image.height * width == width * image.height) by (nonlinear_arith);
                assert(image.pixels.len() <= usize::MAX);
            }
            pixel_data.push(image.pixels[i * width + j]);
            j += 1;
        }
        assert((i + 1) * new_width == i * new_width + new_width) by (nonlinear_arith);
        i += 1;
    }
    assert(new_height * new_width == new_width * new_height) by (nonlinear_arith);
    assert forall|k: int| 0 <= k < pixel_data@.len() implies 0 <= #[trigger] source_index(
        k,
        width as int,
        new_width as int,
    ) < image.pixels@.len() by {
        lemma_source_index_in_range(
            k,
            width as int,
            image.height as int,
            new_width as int,
            new_height as int,
        );
    }
    assert(pixel_data@ =~= cropped(
        image.pixels@,
        image.width as int,
        trimmed_width as int,
        trimmed_height as int,
    ));
    pixel_data
}

/// Makes an image of a vector of pixels in row-major order, its dimensions
/// and its denominator.
pub fn convert_rgb_to_rgb_image(
    rgb_vec: &Vec<Rgb>,
    discovered_width: u32,
    discovered_height: u32,
    discovered_denominator: u16,
) -> (image: RgbImage)
    ensures
        image.pixels@ == rgb_vec@,
        image.width == discovered_width,
        image.height == discovered_height,
        image.denominator == discovered_denominator,
{
    RgbImage {
        pixels: slice_to_vec(rgb_vec.as_slice()),
        width: discovered_width,
        height: discovered_height,
        denominator: discovered_denominator,
    }
}

/// Packs every quantized block into its 32-bit word and gives the words as
/// big-endian bytes, in the order of the blocks. Fails with a range
/// violation iff some block holds a value that does not fit its field.
pub fn pack_as_32_bit(compression_vec: &Vec<PixelBlockValues>) -> (result: Result<
    Vec<[u8; 4]>,
    CodecError,
>)
    ensures
        result.is_ok() <==> all_valid(compression_vec@),
        result matches Ok(final_image) ==> is_packing(final_image@, compression_vec@),
        result matches Err(error) ==> error == CodecError::RangeViolation,
{
    let mut final_image: Vec<[u8; 4]> = Vec::new();
    let mut i: usize = 0;
    while i < compression_vec.len()
        invariant
            i <= compression_vec@.len(),
            final_image@.len() == i,
            forall|k: int| 0 <= k < i ==> (#[trigger] compression_vec@[k]).valid(),
            forall|k: int|
                0 <= k < i ==> (#[trigger] final_image@[k])@ == big_endian(
                    packed(compression_vec@[k]) as u32,
                ),
        decreases compression_vec@.len() - i,
    {
        match pack(&compression_vec[i]) {
            Ok(word) => {
                final_image.push(word_to_bytes(word));
            },
            Err(error) => {
                assert(!compression_vec@[i as int].valid());
                return Err(error);
            },
        }
        i += 1;
    }
    Ok(final_image)
}

/// Reads the quantized block that each big-endian word holds, in the order
/// of the words. Every word holds a valid block.
pub fn unpack_to_pixel_values(decompression_vec: &Vec<[u8; 4]>) -> (unpacked_pixel_vec: Vec<
    PixelBlockValues,
>)
    ensures
        is_unpacking(unpacked_pixel_vec@, decompression_vec@),
        all_valid(unpacked_pixel_vec@),
{
    let mut unpacked_pixel_vec: Vec<PixelBlockValues> = Vec::new();
    let mut i: usize = 0;
    while i < decompression_vec.len()
        invariant
            i <= decompression_vec@.len(),
            unpacked_pixel_vec@.len() == i,
            forall|k: int|
                0 <= k < i ==> {
                    &&& #[trigger] unpacked_pixel_vec@[k] == unpacked(
                        from_big_endian(decompression_vec@[k]@) as u32,
                    )
                    &&& unpacked_pixel_vec@[k].valid()
                },
        decreases decompression_vec@.len() - i,
    {
        let word: u32 = word_from_bytes(&decompression_vec[i]);
        unpacked_pixel_vec.push(unpack(word));
        i += 1;
    }
    unpacked_pixel_vec
}

/// Unpacking the words of valid records gives the records back.
pub proof fn lemma_unpacking_inverts_packing(
    records: Seq<PixelBlockValues>,
    words: Seq<[u8; 4]>,
    back: Seq<PixelBlockValues>,
)
    requires
        all_valid(records),
        is_packing(words, records),
        is_unpacking(back, words),
    ensures
        back == records,
{
    assert forall|i: int| 0 <= i < records.len() implies back[i] == records[i] by {
        assert(records[i].valid());
        assert(words[i]@ == big_endian(packed(records[i]) as u32));
        lemma_unpack_inverts_pack(records[i]);
        lemma_bytes_of_big_endian(packed(records[i]) as u32);
    }
    assert(back =~= records);
}

/// Every stream of words holds valid records, and packing them gives the
/// bytes of the stream back.
pub proof fn lemma_packing_inverts_unpacking(
    words: Seq<[u8; 4]>,
    records: Seq<PixelBlockValues>,
    again: Seq<[u8; 4]>,
)
    requires
        is_unpacking(records, words),
        is_packing(again, records),
    ensures
        all_valid(records),
        again.len() == words.len(),
        forall|i: int| 0 <= i < words.len() ==> (#[trigger] again[i])@ == words[i]@,
{
    assert forall|i: int| 0 <= i < words.len() implies (#[trigger] records[i]).valid()
        && again[i]@ == words[i]@ by {
        let word = from_big_endian(words[i]@) as u32;
        assert(records[i] == unpacked(word));
        assert(again[i]@ == big_endian(packed(records[i]) as u32));
        lemma_big_endian_of_bytes(words[i]@);
        lemma_pack_inverts_unpack(word);
    }
}

} // verus!
