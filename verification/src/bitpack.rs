//! Bit fields of a 64-bit word: range checks, extraction and insertion.
//!
//! A field is given by its `width` in bits and the position `lsb` of its
//! least-significant bit. All contracts are stated over mathematical integers
//! and powers of two.

use vstd::prelude::*;
use vstd::arithmetic::div_mod::{
    lemma_basic_div, lemma_div_by_multiple, lemma_div_denominator, lemma_div_nonincreasing,
    lemma_div_pos_is_pos, lemma_fundamental_div_mod, lemma_fundamental_div_mod_converse,
    lemma_mod_bound, lemma_mod_decreases, lemma_mod_multiples_basic, lemma_mod_multiples_vanish,
    lemma_multiply_divide_lt, lemma_small_mod,
};
use vstd::arithmetic::mul::{
    lemma_mul_inequality, lemma_mul_is_commutative, lemma_mul_strict_inequality,
};
use vstd::arithmetic::power2::{
    lemma2_to64, lemma2_to64_rest, lemma_pow2_adds, lemma_pow2_pos, lemma_pow2_strictly_increases,
    lemma_pow2_unfold, pow2,
};
use vstd::bits::{
    lemma_u64_low_bits_mask_is_mod, lemma_u64_pow2_no_overflow, lemma_u64_shl_is_mul,
    lemma_u64_shr_is_div,
};

verus! {

/// `n` is representable as an unsigned number of `width` bits.
pub open spec fn fits_unsigned(n: int, width: nat) -> bool {
    0 <= n < pow2(width)
}

/// `n` is representable as a two's-complement number of `width` bits.
/// Nothing fits in a signed field of width zero.
pub open spec fn fits_signed(n: int, width: nat) -> bool {
    width >= 1 && -pow2((width - 1) as nat) <= n < pow2((width - 1) as nat)
}

/// The unsigned number held by the `width` bits of `word` that start at bit
/// `lsb`. Bits beyond the word read as zero.
pub open spec fn field_unsigned(word: nat, width: nat, lsb: nat) -> nat {
    (word / pow2(lsb)) % pow2(width)
}

/// How many bits of the field given by `width` and `lsb` lie inside a 64-bit word.
pub open spec fn bits_in_word(width: nat, lsb: nat) -> nat {
    if lsb >= 64 {
        0
    } else if width >= 64 - lsb {
        (64 - lsb) as nat
    } else {
        width
    }
}

/// The two's-complement reading of a `width`-bit pattern.
pub open spec fn as_signed(pattern: nat, width: nat) -> int {
    if width >= 1 && pattern >= pow2((width - 1) as nat) {
        pattern - pow2(width)
    } else {
        pattern as int
    }
}

/// The signed number held by the field given by `width` and `lsb`: the part of
/// the field that lies inside the word, read in two's complement.
pub open spec fn field_signed(word: nat, width: nat, lsb: nat) -> int {
    as_signed(field_unsigned(word, width, lsb), bits_in_word(width, lsb))
}

/// The field given by `width` and `lsb` lies wholly inside a 64-bit word.
pub open spec fn field_in_word(width: nat, lsb: nat) -> bool {
    width + lsb <= 64
}

/// The word made of the bits of `word` above the field, `pattern` in the
/// field, and the bits of `word` below the field.
pub open spec fn with_field(word: nat, width: nat, lsb: nat, pattern: nat) -> nat {
    (word / pow2(lsb + width)) * pow2(lsb + width) + pattern * pow2(lsb) + word % pow2(lsb)
}

/// The `width`-bit two's-complement pattern of `value`.
pub open spec fn twos_complement(value: int, width: nat) -> nat {
    (value % (pow2(width) as int)) as nat
}

/// Returns true iff the unsigned value `n` fits into `width` unsigned bits.
pub fn fitsu(n: u64, width: u64) -> (fits: bool)
    ensures
        fits == fits_unsigned(n as int, width as nat),
{
    if width >= 64 {
        proof {
            lemma_pow2_beyond_u64(width as nat);
        }
        true
    } else {
        proof {
            lemma_one_shl_is_pow2(width);
        }
        n < (1u64 << width)
    }
}

/// Returns true iff the signed value `n` fits into `width` signed bits.
pub fn fitss(n: i64, width: u64) -> (fits: bool)
    ensures
        fits == fits_signed(n as int, width as nat),
{
    if width == 0 {
        false
    } else if width >= 64 {
        proof {
            lemma2_to64_rest();
            if width >= 65 {
                lemma_pow2_beyond_u64((width - 1) as nat);
            }
        }
        true
    } else {
        proof {
            lemma_one_shl_is_pow2((width - 1) as u64);
            lemma2_to64_rest();
            lemma_pow2_strictly_increases((width - 1) as nat, 63);
        }
        let bound: i64 = (1u64 << (width - 1)) as i64;
        -bound <= n && n < bound
    }
}

/// Retrieves an unsigned value from `word`, represented by `width` bits
/// beginning at least-significant bit `lsb`. A field that reaches beyond the
/// word is cut off at bit 63.
pub fn getu(word: u64, width: u64, lsb: u64) -> (value: u64)
    ensures
        value == field_unsigned(word as nat, width as nat, lsb as nat),
{
    proof {
        lemma_field_bound(word, width as nat, lsb as nat);
        lemma2_to64();
    }
    if lsb >= 64 {
        0
    } else {
        let shifted: u64 = word >> lsb;
        proof {
            lemma_u64_shr_is_div(word, lsb);
        }
        let ones: u64 = low_ones(width);
        proof {
            lemma_and_low_ones(shifted, width, ones);
        }
        shifted & ones
    }
}

/// Retrieves a signed value from `word`, represented by `width` bits
/// beginning at least-significant bit `lsb`. A field that reaches beyond the
/// word is cut off at bit 63, which is then its sign bit.
pub fn gets(word: u64, width: u64, lsb: u64) -> (value: i64)
    ensures
        value == field_signed(word as nat, width as nat, lsb as nat),
{
    proof {
        lemma_field_bound(word, width as nat, lsb as nat);
        lemma2_to64();
    }
    if lsb >= 64 || width == 0 {
        return 0;
    }
    let bits: u64 = if width >= 64 - lsb { 64 - lsb } else { width };
    let pattern: u64 = getu(word, width, lsb);
    let sign: u64 = 1u64 << (bits - 1);
    proof {
        lemma_one_shl_is_pow2((bits - 1) as u64);
        lemma_pow2_unfold(bits as nat);
        lemma2_to64_rest();
        if bits < 64 {
            lemma_pow2_strictly_increases((bits - 1) as nat, 63);
        }
    }
    if pattern < sign {
        pattern as i64
    } else {
        let ones: u64 = (sign - 1) + sign;
        let below: u64 = ones - pattern;
        -(below as i64) - 1
    }
}

/// Returns a modified version of `word` in which the `width` bits beginning
/// at least-significant bit `lsb` hold the unsigned `value`, and every other
/// bit is unchanged. Returns `None` iff `value` does not fit in `width`
/// unsigned bits or the field does not lie inside the word.
pub fn newu(word: u64, width: u64, lsb: u64, value: u64) -> (result: Option<u64>)
    ensures
        result.is_some() <==> fits_unsigned(value as int, width as nat) && field_in_word(
            width as nat,
            lsb as nat,
        ),
        result matches Some(updated) ==> updated == with_field(
            word as nat,
            width as nat,
            lsb as nat,
            value as nat,
        ) && field_unsigned(updated as nat, width as nat, lsb as nat) == value,
{
    if width <= 64 && lsb <= 64 - width && fitsu(value, width) {
        proof {
            lemma_extract_inserted_unsigned(word, width as nat, lsb as nat, value as nat);
        }
        Some(insert_pattern(word, width, lsb, value))
    } else {
        None
    }
}

/// Returns a modified version of `word` in which the `width` bits beginning
/// at least-significant bit `lsb` hold the two's-complement pattern of the
/// signed `value`, and every other bit is unchanged. Returns `None` iff
/// `value` does not fit in `width` signed bits or the field does not lie
/// inside the word.
pub fn news(word: u64, width: u64, lsb: u64, value: i64) -> (result: Option<u64>)
    ensures
        result.is_some() <==> fits_signed(value as int, width as nat) && field_in_word(
            width as nat,
            lsb as nat,
        ),
        result matches Some(updated) ==> updated == with_field(
            word as nat,
            width as nat,
            lsb as nat,
            twos_complement(value as int, width as nat),
        ) && field_signed(updated as nat, width as nat, lsb as nat) == value,
{
    if width <= 64 && lsb <= 64 - width && fitss(value, width) {
        proof {
            lemma_twos_complement(value as int, width as nat);
            lemma_extract_inserted_signed(word, width as nat, lsb as nat, value as int);
            lemma2_to64_rest();
        }
        let pattern: u64 = if value >= 0 {
            value as u64
        } else {
            let ones: u64 = low_ones(width);
            proof {
                lemma_pow2_unfold(width as nat);
            }
            ones - ((-(value + 1)) as u64)
        };
        Some(insert_pattern(word, width, lsb, pattern))
    } else {
        None
    }
}

/// A word whose lowest `width` bits are set: all of them for a width of 64 or more.
fn low_ones(width: u64) -> (ones: u64)
    ensures
        width < 64 ==> ones == pow2(width as nat) - 1,
        width >= 64 ==> ones == u64::MAX,
{
    if width >= 64 {
        u64::MAX
    } else {
        proof {
            lemma_one_shl_is_pow2(width);
            lemma_pow2_pos(width as nat);
        }
        (1u64 << width) - 1
    }
}

/// Puts `pattern` into the field given by `width` and `lsb`.
fn insert_pattern(word: u64, width: u64, lsb: u64, pattern: u64) -> (result: u64)
    requires
        field_in_word(width as nat, lsb as nat),
        pattern < pow2(width as nat),
    ensures
        result == with_field(word as nat, width as nat, lsb as nat, pattern as nat),
{
    proof {
        lemma_split_word(word as nat, width as nat, lsb as nat);
        lemma_field_bound(word, width as nat, lsb as nat);
        lemma2_to64();
    }
    if lsb >= 64 {
        return word;
    }
    let ones: u64 = low_ones(width);
    let cleared: u64 = word & !(ones << lsb);
    let result: u64 = cleared | (pattern << lsb);
    proof {
        let old_pattern: u64 = (word >> lsb) & ones;
        lemma_u64_shr_is_div(word, lsb);
        lemma_and_low_ones(word >> lsb, width, ones);
        lemma_and_low_ones(pattern, width, ones);
        lemma_small_mod(pattern as nat, pow2(width as nat));
        assert(old_pattern == field_unsigned(word as nat, width as nat, lsb as nat));
        assert(cleared == word - (old_pattern << lsb)) by (bit_vector)
            requires
                lsb < 64,
                cleared == word & !(ones << lsb),
                old_pattern == (word >> lsb) & ones,
        ;
        assert(result == cleared + (pattern << lsb)) by (bit_vector)
            requires
                lsb < 64,
                cleared == word & !(ones << lsb),
                result == cleared | (pattern << lsb),
                pattern & ones == pattern,
        ;
        lemma_pow2_pos(lsb as nat);
        assert(old_pattern * pow2(lsb as nat) <= word) by {
            lemma_fundamental_div_mod(word as int, pow2(lsb as nat) as int);
            lemma_pow2_pos(width as nat);
            lemma_mod_decreases(
                word as nat / pow2(lsb as nat),
                pow2(width as nat),
            );
            lemma_mul_inequality(
                old_pattern as int,
                word as int / pow2(lsb as nat) as int,
                pow2(lsb as nat) as int,
            );
            lemma_mul_is_commutative(
                word as int / pow2(lsb as nat) as int,
                pow2(lsb as nat) as int,
            );
        }
        lemma_u64_shl_is_mul(old_pattern, lsb);
        assert(pattern * pow2(lsb as nat) <= u64::MAX) by {
            lemma_pow2_adds(width as nat, lsb as nat);
            lemma2_to64_rest();
            if width + lsb < 64 {
                lemma_pow2_strictly_increases((width + lsb) as nat, 64);
            }
            lemma_mul_strict_inequality(
                pattern as int,
                pow2(width as nat) as int,
                pow2(lsb as nat) as int,
            );
        }
        lemma_u64_shl_is_mul(pattern, lsb);
    }
    result
}

/// The numbers that fit in nine unsigned bits are those from 0 to 511.
pub proof fn lemma_nine_bits_unsigned(n: int)
    ensures
        fits_unsigned(n, 9) <==> 0 <= n <= 511,
{
    lemma2_to64();
}

/// The numbers that fit in five signed bits are those from -16 to 15.
pub proof fn lemma_five_bits_signed(n: int)
    ensures
        fits_signed(n, 5) <==> -16 <= n <= 15,
{
    lemma2_to64();
}

/// Reading a field into which an unsigned value was put gives that value
/// back, for every word, every field that lies inside the word and every
/// value that fits in the field.
pub proof fn lemma_extract_inserted_unsigned(word: u64, width: nat, lsb: nat, value: nat)
    requires
        fits_unsigned(value as int, width),
        field_in_word(width, lsb),
    ensures
        with_field(word as nat, width, lsb, value) <= u64::MAX,
        field_unsigned(with_field(word as nat, width, lsb, value), width, lsb) == value,
{
    lemma_with_field_parts(word as nat, width, lsb, value);
    lemma_with_field_bound(word, width, lsb, value);
}

/// Reading a field into which a signed value was put gives that value back,
/// for every word, every field that lies inside the word and every value that
/// fits in the field.
pub proof fn lemma_extract_inserted_signed(word: u64, width: nat, lsb: nat, value: int)
    requires
        fits_signed(value, width),
        field_in_word(width, lsb),
    ensures
        with_field(word as nat, width, lsb, twos_complement(value, width)) <= u64::MAX,
        field_signed(
            with_field(word as nat, width, lsb, twos_complement(value, width)),
            width,
            lsb,
        ) == value,
{
    lemma_twos_complement(value, width);
    lemma_with_field_parts(word as nat, width, lsb, twos_complement(value, width));
    lemma_with_field_bound(word, width, lsb, twos_complement(value, width));
}

/// Putting a pattern into one field changes no bit outside it: every field
/// that does not overlap it reads as before, unsigned and signed.
pub proof fn lemma_insert_keeps_other_fields(
    word: nat,
    width: nat,
    lsb: nat,
    pattern: nat,
    other_width: nat,
    other_lsb: nat,
)
    requires
        pattern < pow2(width),
        other_lsb + other_width <= lsb || lsb + width <= other_lsb,
    ensures
        field_unsigned(with_field(word, width, lsb, pattern), other_width, other_lsb)
            == field_unsigned(word, other_width, other_lsb),
        field_signed(with_field(word, width, lsb, pattern), other_width, other_lsb)
            == field_signed(word, other_width, other_lsb),
{
    let updated = with_field(word, width, lsb, pattern);
    lemma_with_field_parts(word, width, lsb, pattern);
    if other_lsb + other_width <= lsb {
        lemma_low_field(word, other_width, other_lsb, lsb);
        lemma_low_field(updated, other_width, other_lsb, lsb);
    } else {
        lemma_high_field(word, other_width, other_lsb, lsb + width);
        lemma_high_field(updated, other_width, other_lsb, lsb + width);
    }
}

/// What a field reads, written out with the two powers of two as known
/// numbers: `low` is two to the `lsb`, `size` two to the `width`.
pub proof fn lemma_field_value(word: nat, width: nat, lsb: nat, low: nat, size: nat)
    requires
        low == pow2(lsb),
        size == pow2(width),
    ensures
        field_unsigned(word, width, lsb) == (word / low) % size,
{
}

/// Putting a pattern into a field below which the word is empty, and above
/// which it holds `prefix`, appends the pattern to the prefix. The two powers
/// of two are given as known numbers: `low` is two to the `lsb`, `size` two to
/// the `width`.
pub proof fn lemma_append_field(
    prefix: nat,
    width: nat,
    lsb: nat,
    pattern: nat,
    low: nat,
    size: nat,
)
    requires
        low == pow2(lsb),
        size == pow2(width),
    ensures
        with_field(prefix * size * low, width, lsb, pattern) == (prefix * size + pattern) * low,
{
    let word = prefix * size * low;
    let high = pow2(lsb + width);
    lemma_pow2_pos(lsb);
    lemma_pow2_pos(width);
    lemma_pow2_pos(lsb + width);
    lemma_pow2_adds(lsb, width);
    assert(word == prefix * high && word == (prefix * size) * low) by (nonlinear_arith)
        requires
            word == prefix * size * low,
            high == low * size,
    ;
    lemma_div_by_multiple(prefix as int, high as int);
    lemma_mod_multiples_basic((prefix * size) as int, low as int);
    assert((word / high) * high + pattern * low + word % low == (prefix * size + pattern) * low)
        by (nonlinear_arith)
        requires
            word / high == prefix,
            word % low == 0,
            high == low * size,
    ;
}

/// The two's-complement pattern of a value, written out with the power of
/// two as a known number: `size` is two to the `width`.
pub proof fn lemma_twos_complement_value(value: int, width: nat, size: nat)
    requires
        size == pow2(width),
    ensures
        twos_complement(value, width) == value % (size as int),
{
    lemma_pow2_pos(width);
    lemma_mod_bound(value, size as int);
}

/// Every power of two with an exponent of at least 64 exceeds each `u64`.
proof fn lemma_pow2_beyond_u64(e: nat)
    requires
        e >= 64,
    ensures
        pow2(e) > u64::MAX,
{
    lemma2_to64_rest();
    if e > 64 {
        lemma_pow2_strictly_increases(64, e);
    }
}

/// `1 << e` is the power of two with exponent `e`, for every exponent below 64.
proof fn lemma_one_shl_is_pow2(e: u64)
    requires
        e < 64,
    ensures
        (1u64 << e) == pow2(e as nat),
{
    lemma_u64_pow2_no_overflow(e as nat);
    lemma_u64_shl_is_mul(1u64, e);
}

/// Masking with the lowest `width` bits is the remainder modulo two to the `width`.
proof fn lemma_and_low_ones(x: u64, width: u64, ones: u64)
    requires
        width < 64 ==> ones == pow2(width as nat) - 1,
        width >= 64 ==> ones == u64::MAX,
    ensures
        x & ones == x as nat % pow2(width as nat),
{
    if width >= 64 {
        lemma_pow2_beyond_u64(width as nat);
        lemma_small_mod(x as nat, pow2(width as nat));
        assert(x & 0xffff_ffff_ffff_ffff == x) by (bit_vector);
    } else {
        lemma_u64_pow2_no_overflow(width as nat);
        lemma_u64_low_bits_mask_is_mod(x, width as nat);
    }
}

/// A field holds less than two to the number of its bits that lie inside the word.
proof fn lemma_field_bound(word: u64, width: nat, lsb: nat)
    ensures
        field_unsigned(word as nat, width, lsb) < pow2(bits_in_word(width, lsb)),
        field_unsigned(word as nat, width, lsb) <= word,
{
    let shifted = word as nat / pow2(lsb);
    lemma_pow2_pos(lsb);
    lemma_pow2_pos(width);
    lemma2_to64();
    lemma2_to64_rest();
    lemma_mod_bound(shifted as int, pow2(width) as int);
    if lsb >= 64 {
        lemma_pow2_beyond_u64(lsb);
        lemma_basic_div(word as int, pow2(lsb) as int);
        assert(shifted == 0);
        lemma_small_mod(0, pow2(width));
    } else {
        lemma_pow2_adds(lsb, (64 - lsb) as nat);
        lemma_multiply_divide_lt(word as int, pow2(lsb) as int, pow2((64 - lsb) as nat) as int);
        if width >= 64 - lsb {
            if width > 64 - lsb {
                lemma_pow2_strictly_increases((64 - lsb) as nat, width);
            }
            lemma_small_mod(shifted, pow2(width));
        }
    }
    assert(shifted <= word) by {
        lemma_div_nonincreasing(word as int, pow2(lsb) as int);
    }
    assert(field_unsigned(word as nat, width, lsb) <= shifted) by {
        lemma_mod_decreases(shifted, pow2(width));
    }
}

/// A word is the sum of the bits above a field, the field and the bits below it.
proof fn lemma_split_word(word: nat, width: nat, lsb: nat)
    ensures
        word == (word / pow2(lsb + width)) * pow2(lsb + width) + field_unsigned(word, width, lsb)
            * pow2(lsb) + word % pow2(lsb),
{
    let p = pow2(lsb) as int;
    let m = pow2(width) as int;
    let q = word as int / p;
    lemma_pow2_pos(lsb);
    lemma_pow2_pos(width);
    lemma_pow2_adds(lsb, width);
    lemma_fundamental_div_mod(word as int, p);
    lemma_fundamental_div_mod(q, m);
    lemma_div_denominator(word as int, p, m);
    let h = q / m;
    let f = q % m;
    let r = word as int % p;
    assert(word as int == (p * m) * h + f * p + r) by (nonlinear_arith)
        requires
            word as int == p * q + r,
            q == m * h + f,
    ;
    assert(h * (p * m) == (p * m) * h) by (nonlinear_arith);
}

/// The two's-complement pattern of a value that fits: the value itself, or
/// the value raised by two to the `width` where it is negative.
proof fn lemma_twos_complement(value: int, width: nat)
    requires
        fits_signed(value, width),
    ensures
        twos_complement(value, width) == if value >= 0 {
            value
        } else {
            value + pow2(width)
        },
        twos_complement(value, width) < pow2(width),
        as_signed(twos_complement(value, width), width) == value,
{
    let m = pow2(width) as int;
    lemma_pow2_unfold(width);
    lemma_pow2_pos((width - 1) as nat);
    if value >= 0 {
        lemma_small_mod(value as nat, pow2(width));
    } else {
        lemma_fundamental_div_mod_converse(value, m, -1, value + m);
    }
}

/// What a word is made of once `pattern` stands in one of its fields: the
/// bits above and below the field are those of `word`, and the field reads
/// `pattern`.
proof fn lemma_with_field_parts(word: nat, width: nat, lsb: nat, pattern: nat)
    requires
        pattern < pow2(width),
    ensures
        with_field(word, width, lsb, pattern) / pow2(lsb + width) == word / pow2(lsb + width),
        with_field(word, width, lsb, pattern) % pow2(lsb) == word % pow2(lsb),
        field_unsigned(with_field(word, width, lsb, pattern), width, lsb) == pattern,
{
    let p = pow2(lsb) as int;
    let m = pow2(width) as int;
    let h = word as int / (pow2(lsb + width) as int);
    let r = word as int % p;
    let updated = with_field(word, width, lsb, pattern) as int;
    lemma_pow2_pos(lsb);
    lemma_pow2_pos(width);
    lemma_pow2_pos(lsb + width);
    lemma_pow2_adds(lsb, width);
    lemma_mod_bound(word as int, p);
    assert(h >= 0) by {
        lemma_div_pos_is_pos(word as int, pow2(lsb + width) as int);
    }
    assert(updated == (m * h + pattern) * p + r) by (nonlinear_arith)
        requires
            updated == h * (p * m) + pattern * p + r,
    ;
    lemma_fundamental_div_mod_converse(updated, p, m * h + pattern, r);
    assert(m * h + pattern == h * m + pattern) by (nonlinear_arith);
    lemma_fundamental_div_mod_converse(m * h + pattern, m, h, pattern as int);
    lemma_div_denominator(updated, p, m);
}

/// Putting a pattern that fits into a field that lies inside a 64-bit word
/// gives a 64-bit word.
proof fn lemma_with_field_bound(word: u64, width: nat, lsb: nat, pattern: nat)
    requires
        pattern < pow2(width),
        field_in_word(width, lsb),
    ensures
        with_field(word as nat, width, lsb, pattern) <= u64::MAX,
{
    let p = pow2(lsb) as int;
    let m = pow2(width) as int;
    let rest = pow2((64 - lsb - width) as nat) as int;
    let h = word as int / (pow2(lsb + width) as int);
    let r = word as int % p;
    lemma_pow2_pos(lsb);
    lemma_pow2_pos(lsb + width);
    lemma_pow2_adds(lsb, width);
    lemma_pow2_adds(lsb + width, (64 - lsb - width) as nat);
    lemma2_to64_rest();
    lemma_mod_bound(word as int, p);
    lemma_multiply_divide_lt(word as int, pow2(lsb + width) as int, rest);
    assert(h * (p * m) + pattern * p + r < (p * m) * rest) by (nonlinear_arith)
        requires
            0 <= h < rest,
            0 <= pattern < m,
            0 <= r < p,
    ;
}

/// A field that ends below bit `lsb` is read from the lowest `lsb` bits alone.
proof fn lemma_low_field(word: nat, width: nat, lsb: nat, below: nat)
    requires
        lsb + width <= below,
    ensures
        field_unsigned(word, width, lsb) == field_unsigned(word % pow2(below), width, lsb),
{
    let a = pow2(lsb) as int;
    let b = pow2(width) as int;
    let c = pow2((below - lsb - width) as nat) as int;
    let p = pow2(below) as int;
    let q = word as int / p;
    let r = word as int % p;
    lemma_pow2_pos(lsb);
    lemma_pow2_pos(width);
    lemma_pow2_pos(below);
    lemma_pow2_adds(lsb, width);
    lemma_pow2_adds(lsb + width, (below - lsb - width) as nat);
    lemma_fundamental_div_mod(word as int, p);
    lemma_fundamental_div_mod(r, a);
    lemma_mod_bound(r, a);
    assert(word as int == (b * (c * q) + r / a) * a + r % a) by (nonlinear_arith)
        requires
            word as int == p * q + r,
            p == (a * b) * c,
            r == a * (r / a) + r % a,
    ;
    lemma_fundamental_div_mod_converse(word as int, a, b * (c * q) + r / a, r % a);
    lemma_mod_multiples_vanish(c * q, r / a, b);
}

/// A field that starts at or above bit `above` is read from the bits of the
/// word from `above` upwards alone.
proof fn lemma_high_field(word: nat, width: nat, lsb: nat, above: nat)
    requires
        above <= lsb,
    ensures
        field_unsigned(word, width, lsb) == ((word / pow2(above)) / pow2((lsb - above) as nat))
            % pow2(width),
{
    lemma_pow2_pos(above);
    lemma_pow2_pos((lsb - above) as nat);
    lemma_pow2_adds(above, (lsb - above) as nat);
    lemma_div_denominator(word as int, pow2(above) as int, pow2((lsb - above) as nat) as int);
}

} // verus!
