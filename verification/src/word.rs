//! The 32-bit packed word that stands for one 2x2 block.
//!
//! | bits  | width | field    | encoding        |
//! |-------|-------|----------|-----------------|
//! | 31-23 | 9     | `a`      | unsigned, 0-511 |
//! | 22-18 | 5     | `b`      | signed, -16..15 |
//! | 17-13 | 5     | `c`      | signed, -16..15 |
//! | 12-8  | 5     | `d`      | signed, -16..15 |
//! | 7-4   | 4     | `avg_pb` | index 0-15      |
//! | 3-0   | 4     | `avg_pr` | index 0-15      |

use vstd::prelude::*;
use vstd::arithmetic::div_mod::{
    lemma_div_denominator, lemma_fundamental_div_mod, lemma_fundamental_div_mod_converse,
};
use vstd::arithmetic::power2::lemma2_to64;
use crate::bitpack::{
    gets, getu, lemma_append_field, lemma_field_value, lemma_twos_complement_value, news, newu,
};
use crate::error::CodecError;

verus! {

/// The quantized coefficients of one block: the scaled average luma `a`, the
/// scaled luma gradients `b`, `c` and `d`, and the codebook indices of the
/// two averaged chroma values.
#[derive(Clone, Copy, Debug, PartialEq, Eq, Structural)]
pub struct PixelBlockValues {
    pub a: u64,
    pub b: i64,
    pub c: i64,
    pub d: i64,
    pub avg_pb: usize,
    pub avg_pr: usize,
}

impl PixelBlockValues {
    /// Every value lies in the range of its bit field.
    pub open spec fn valid(&self) -> bool {
        &&& self.a <= 511
        &&& -16 <= self.b <= 15
        &&& -16 <= self.c <= 15
        &&& -16 <= self.d <= 15
        &&& self.avg_pb <= 15
        &&& self.avg_pr <= 15
    }
}

/// The five-bit two's-complement pattern of `value`.
pub open spec fn five_bit_pattern(value: int) -> int {
    value % 32
}

/// The number that a five-bit pattern stands for in two's complement.
pub open spec fn five_bit_value(pattern: int) -> int {
    if pattern >= 16 {
        pattern - 32
    } else {
        pattern
    }
}

/// The word that holds `record`, field by field.
pub open spec fn packed(record: PixelBlockValues) -> int {
    record.a * 0x80_0000
        + five_bit_pattern(record.b as int) * 0x4_0000
        + five_bit_pattern(record.c as int) * 0x2000
        + five_bit_pattern(record.d as int) * 0x100
        + record.avg_pb * 0x10
        + record.avg_pr
}

/// The record that `word` holds, field by field.
pub open spec fn unpacked(word: u32) -> PixelBlockValues {
    PixelBlockValues {
        a: (word as int / 0x80_0000) as u64,
        b: five_bit_value((word as int / 0x4_0000) % 32) as i64,
        c: five_bit_value((word as int / 0x2000) % 32) as i64,
        d: five_bit_value((word as int / 0x100) % 32) as i64,
        avg_pb: ((word as int / 0x10) % 16) as usize,
        avg_pr: (word as int % 16) as usize,
    }
}

/// The four bytes of `word`, most significant first.
pub open spec fn big_endian(word: u32) -> Seq<u8> {
    seq![
        (word as int / 0x100_0000) as u8,
        ((word as int / 0x1_0000) % 0x100) as u8,
        ((word as int / 0x100) % 0x100) as u8,
        (word as int % 0x100) as u8,
    ]
}

/// The number whose four bytes, most significant first, are `bytes`.
pub open spec fn from_big_endian(bytes: Seq<u8>) -> int {
    bytes[0] * 0x100_0000 + bytes[1] * 0x1_0000 + bytes[2] * 0x100 + bytes[3]
}

/// Packs one quantized record into its word. Fails with a range violation
/// iff some value of the record does not fit its field.
pub fn pack(record: &PixelBlockValues) -> (result: Result<u32, CodecError>)
    ensures
        result.is_ok() <==> record.valid(),
        result matches Ok(word) ==> word == packed(*record),
        result matches Err(error) ==> error == CodecError::RangeViolation,
{
    let ghost b = five_bit_pattern(record.b as int);
    let ghost c = five_bit_pattern(record.c as int);
    let ghost d = five_bit_pattern(record.d as int);
    proof {
        lemma2_to64();
        lemma_twos_complement_value(record.b as int, 5, 0x20);
        lemma_twos_complement_value(record.c as int, 5, 0x20);
        lemma_twos_complement_value(record.d as int, 5, 0x20);
    }
    let word: u64 = 0;
    let word: u64 = match newu(word, 9, 23, record.a) {
        Some(updated) => {
            proof {
                lemma_append_field(0, 9, 23, record.a as nat, 0x80_0000, 0x200);
            }
            updated
        },
        None => { return Err(CodecError::RangeViolation); },
    };
    let ghost a = record.a as nat;
    assert(word == a * 0x80_0000);
    let word: u64 = match news(word, 5, 18, record.b) {
        Some(updated) => {
            proof {
                lemma_append_field(a, 5, 18, b as nat, 0x4_0000, 0x20);
            }
            updated
        },
        None => { return Err(CodecError::RangeViolation); },
    };
    let ghost ab = (a * 0x20 + b) as nat;
    assert(word == ab * 0x4_0000);
    let word: u64 = match news(word, 5, 13, record.c) {
        Some(updated) => {
            proof {
                lemma_append_field(ab, 5, 13, c as nat, 0x2000, 0x20);
            }
            updated
        },
        None => { return Err(CodecError::RangeViolation); },
    };
    let ghost abc = (ab * 0x20 + c) as nat;
    assert(word == abc * 0x2000);
    let word: u64 = match news(word, 5, 8, record.d) {
        Some(updated) => {
            proof {
                lemma_append_field(abc, 5, 8, d as nat, 0x100, 0x20);
            }
            updated
        },
        None => { return Err(CodecError::RangeViolation); },
    };
    let ghost abcd = (abc * 0x20 + d) as nat;
    assert(word == abcd * 0x100);
    let word: u64 = match newu(word, 4, 4, record.avg_pb as u64) {
        Some(updated) => {
            proof {
                lemma_append_field(abcd, 4, 4, record.avg_pb as nat, 0x10, 0x10);
            }
            updated
        },
        None => { return Err(CodecError::RangeViolation); },
    };
    let ghost all_but_pr = (abcd * 0x10 + record.avg_pb) as nat;
    assert(word == all_but_pr * 0x10);
    let word: u64 = match newu(word, 4, 0, record.avg_pr as u64) {
        Some(updated) => {
            proof {
                lemma_append_field(all_but_pr, 4, 0, record.avg_pr as nat, 0x1, 0x10);
            }
            updated
        },
        None => { return Err(CodecError::RangeViolation); },
    };
    assert(word == all_but_pr * 0x10 + record.avg_pr);
    assert(word == packed(*record));
    Ok(word as u32)
}

/// Reads the quantized record that `word` holds, sign-extending `b`, `c`
/// and `d`.
pub fn unpack(word: u32) -> (record: PixelBlockValues)
    ensures
        record == unpacked(word),
        record.valid(),
        packed(record) == word,
{
    proof {
        lemma_pack_inverts_unpack(word);
        lemma2_to64();
        lemma_field_value(word as nat, 9, 23, 0x80_0000, 0x200);
        lemma_field_value(word as nat, 5, 18, 0x4_0000, 0x20);
        lemma_field_value(word as nat, 5, 13, 0x2000, 0x20);
        lemma_field_value(word as nat, 5, 8, 0x100, 0x20);
        lemma_field_value(word as nat, 4, 4, 0x10, 0x10);
        lemma_field_value(word as nat, 4, 0, 0x1, 0x10);
    }
    let word: u64 = word as u64;
    PixelBlockValues {
        a: getu(word, 9, 23),
        b: gets(word, 5, 18),
        c: gets(word, 5, 13),
        d: gets(word, 5, 8),
        avg_pb: getu(word, 4, 4) as usize,
        avg_pr: getu(word, 4, 0) as usize,
    }
}

/// Splits a word into its four bytes in big-endian order.
pub fn word_to_bytes(word: u32) -> (bytes: [u8; 4])
    ensures
        bytes@ == big_endian(word),
{
    let bytes: [u8; 4] = [
        (word / 0x100_0000) as u8,
        ((word / 0x1_0000) % 0x100) as u8,
        ((word / 0x100) % 0x100) as u8,
        (word % 0x100) as u8,
    ];
    assert(bytes@ =~= big_endian(word));
    bytes
}

/// Makes a word of four bytes given in big-endian order.
pub fn word_from_bytes(bytes: &[u8; 4]) -> (word: u32)
    ensures
        word == from_big_endian(bytes@),
        big_endian(word) == bytes@,
{
    proof {
        lemma_big_endian_of_bytes(bytes@);
    }
    (bytes[0] as u32) * 0x100_0000 + (bytes[1] as u32) * 0x1_0000 + (bytes[2] as u32) * 0x100
        + (bytes[3] as u32)
}

/// Unpacking the word of a valid record gives the record back, whatever the
/// six values are.
pub proof fn lemma_unpack_inverts_pack(record: PixelBlockValues)
    requires
        record.valid(),
    ensures
        0 <= packed(record) <= u32::MAX,
        unpacked(packed(record) as u32) == record,
{
    let a = record.a as int;
    let b = five_bit_pattern(record.b as int);
    let c = five_bit_pattern(record.c as int);
    let d = five_bit_pattern(record.d as int);
    let pb = record.avg_pb as int;
    let pr = record.avg_pr as int;
    lemma_five_bit_pattern(record.b as int);
    lemma_five_bit_pattern(record.c as int);
    lemma_five_bit_pattern(record.d as int);
    let w = packed(record);
    let ab = a * 0x20 + b;
    let abc = ab * 0x20 + c;
    let abcd = abc * 0x20 + d;
    let all_but_pr = abcd * 0x10 + pb;
    assert(w == all_but_pr * 0x10 + pr);
    lemma_split_at(w, 0x10, all_but_pr, pr);
    lemma_split_at(all_but_pr, 0x10, abcd, pb);
    lemma_split_at(abcd, 0x20, abc, d);
    lemma_split_at(abc, 0x20, ab, c);
    lemma_split_at(ab, 0x20, a, b);
    lemma_div_denominator(w, 0x10, 0x10);
    lemma_div_denominator(w, 0x100, 0x20);
    lemma_div_denominator(w, 0x2000, 0x20);
    lemma_div_denominator(w, 0x4_0000, 0x20);
    assert(w / 0x10 == all_but_pr);
    assert(w / 0x100 == abcd);
    assert(w / 0x2000 == abc);
    assert(w / 0x4_0000 == ab);
    assert(w / 0x80_0000 == a);
    let back = unpacked(w as u32);
    assert(back.a == record.a);
    assert(back.b == record.b);
    assert(back.c == record.c);
    assert(back.d == record.d);
    assert(back.avg_pb == record.avg_pb);
    assert(back.avg_pr == record.avg_pr);
}

/// Packing what a word holds gives the word back: every 32-bit word holds a
/// valid record and is the only word that holds it.
pub proof fn lemma_pack_inverts_unpack(word: u32)
    ensures
        unpacked(word).valid(),
        packed(unpacked(word)) == word,
{
    let w = word as int;
    let record = unpacked(word);
    lemma_word_parts(w);
    lemma_five_bit_round_trip((w / 0x4_0000) % 32);
    lemma_five_bit_round_trip((w / 0x2000) % 32);
    lemma_five_bit_round_trip((w / 0x100) % 32);
    assert(record.a == w / 0x80_0000);
    assert(record.b == five_bit_value((w / 0x4_0000) % 32));
    assert(record.c == five_bit_value((w / 0x2000) % 32));
    assert(record.d == five_bit_value((w / 0x100) % 32));
    assert(record.avg_pb == (w / 0x10) % 16);
    assert(record.avg_pr == w % 16);
}

/// The bytes of a word, read most significant first, make the word.
pub proof fn lemma_bytes_of_big_endian(word: u32)
    ensures
        big_endian(word).len() == 4,
        from_big_endian(big_endian(word)) == word,
{
    let w = word as int;
    assert(w == (w / 0x100) * 0x100 + w % 0x100);
    assert(w / 0x100 == (w / 0x1_0000) * 0x100 + (w / 0x100) % 0x100);
    assert(w / 0x1_0000 == (w / 0x100_0000) * 0x100 + (w / 0x1_0000) % 0x100);
}

/// Four bytes, read most significant first, make a 32-bit word whose bytes
/// they are.
pub proof fn lemma_big_endian_of_bytes(bytes: Seq<u8>)
    requires
        bytes.len() == 4,
    ensures
        0 <= from_big_endian(bytes) <= u32::MAX,
        big_endian(from_big_endian(bytes) as u32) == bytes,
{
    let w = from_big_endian(bytes);
    assert(w % 0x100 == bytes[3] as int);
    assert(w / 0x100 == bytes[0] * 0x1_0000 + bytes[1] * 0x100 + bytes[2]);
    assert(w / 0x1_0000 == bytes[0] * 0x100 + bytes[1]);
    assert(w / 0x100_0000 == bytes[0] as int);
    assert(big_endian(w as u32) =~= bytes);
}

/// A five-bit pattern is the pattern of the value it stands for, and that
/// value lies in -16..15.
proof fn lemma_five_bit_round_trip(pattern: int)
    requires
        0 <= pattern < 32,
    ensures
        -16 <= five_bit_value(pattern) <= 15,
        five_bit_pattern(five_bit_value(pattern)) == pattern,
{
}

/// The value that a five-bit pattern of a value in -16..15 stands for is
/// that value.
proof fn lemma_five_bit_pattern(value: int)
    requires
        -16 <= value <= 15,
    ensures
        0 <= five_bit_pattern(value) < 32,
        five_bit_value(five_bit_pattern(value)) == value,
{
}

/// Splitting a number at a power of two: if `x` is `rest * size + low` with
/// `low` below `size`, then `rest` is the quotient and `low` the remainder.
proof fn lemma_split_at(x: int, size: int, rest: int, low: int)
    requires
        0 <= low < size,
        x == rest * size + low,
    ensures
        x / size == rest,
        x % size == low,
{
    lemma_fundamental_div_mod_converse(x, size, rest, low);
}

/// The parts of a word: what lies above each field and what each field holds
/// make up the word, and each field holds less than its size.
proof fn lemma_word_parts(w: int)
    requires
        0 <= w <= u32::MAX,
    ensures
        w == ((((((w / 0x80_0000) * 0x20 + (w / 0x4_0000) % 0x20) * 0x20 + (w / 0x2000) % 0x20)
            * 0x20 + (w / 0x100) % 0x20) * 0x10 + (w / 0x10) % 0x10) * 0x10 + w % 0x10),
        0 <= w / 0x80_0000 <= 511,
{
    lemma_fundamental_div_mod(w, 0x10);
    lemma_fundamental_div_mod(w / 0x10, 0x10);
    lemma_div_denominator(w, 0x10, 0x10);
    lemma_fundamental_div_mod(w / 0x100, 0x20);
    lemma_div_denominator(w, 0x100, 0x20);
    lemma_fundamental_div_mod(w / 0x2000, 0x20);
    lemma_div_denominator(w, 0x2000, 0x20);
    lemma_fundamental_div_mod(w / 0x4_0000, 0x20);
    lemma_div_denominator(w, 0x4_0000, 0x20);
}

} // verus!
