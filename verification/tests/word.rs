use rpeg::error::CodecError;
use rpeg::word::{pack, unpack, word_from_bytes, word_to_bytes, PixelBlockValues};

fn record(a: u64, b: i64, c: i64, d: i64, avg_pb: usize, avg_pr: usize) -> PixelBlockValues {
    PixelBlockValues { a, b, c, d, avg_pb, avg_pr }
}

#[test]
fn pack_then_unpack_gives_the_six_values_back() {
    let before = record(300, -10, 5, 12, 3, 9);
    let word = pack(&before).unwrap();
    let back = unpack(word);
    assert_eq!(back.a, 300);
    assert_eq!(back.b, -10);
    assert_eq!(back.c, 5);
    assert_eq!(back.d, 12);
    assert_eq!(back.avg_pb, 3);
    assert_eq!(back.avg_pr, 9);
    assert_eq!(back, before);
}

#[test]
fn pack_lays_the_fields_out_from_the_top() {
    let word = pack(&record(300, -10, 5, 12, 3, 9)).unwrap();
    assert_eq!(word, (300 << 23) | (22 << 18) | (5 << 13) | (12 << 8) | (3 << 4) | 9);
    assert_eq!(word, 0x9658_ac39);
    assert_eq!(pack(&record(0, 0, 0, 0, 0, 0)), Ok(0));
    assert_eq!(pack(&record(511, -1, -1, -1, 15, 15)), Ok(u32::MAX));
    assert_eq!(pack(&record(1, 0, 0, 0, 0, 0)), Ok(1 << 23));
    assert_eq!(pack(&record(0, 1, 0, 0, 0, 0)), Ok(1 << 18));
    assert_eq!(pack(&record(0, 0, 1, 0, 0, 0)), Ok(1 << 13));
    assert_eq!(pack(&record(0, 0, 0, 1, 0, 0)), Ok(1 << 8));
    assert_eq!(pack(&record(0, 0, 0, 0, 1, 0)), Ok(1 << 4));
    assert_eq!(pack(&record(0, 0, 0, 0, 0, 1)), Ok(1));
    assert_eq!(pack(&record(0, -16, 15, -16, 0, 0)), Ok((16 << 18) | (15 << 13) | (16 << 8)));
}

#[test]
fn unpack_reads_each_field() {
    assert_eq!(unpack(0x9658_ac39), record(300, -10, 5, 12, 3, 9));
    assert_eq!(unpack(0), record(0, 0, 0, 0, 0, 0));
    assert_eq!(unpack(u32::MAX), record(511, -1, -1, -1, 15, 15));
    assert_eq!(unpack(0x10 << 13), record(0, 0, -16, 0, 0, 0));
}

#[test]
fn pack_refuses_values_out_of_range() {
    assert_eq!(pack(&record(512, 0, 0, 0, 0, 0)), Err(CodecError::RangeViolation));
    assert_eq!(pack(&record(0, 16, 0, 0, 0, 0)), Err(CodecError::RangeViolation));
    assert_eq!(pack(&record(0, -17, 0, 0, 0, 0)), Err(CodecError::RangeViolation));
    assert_eq!(pack(&record(0, 0, 16, 0, 0, 0)), Err(CodecError::RangeViolation));
    assert_eq!(pack(&record(0, 0, 0, -17, 0, 0)), Err(CodecError::RangeViolation));
    assert_eq!(pack(&record(0, 0, 0, 0, 16, 0)), Err(CodecError::RangeViolation));
    assert_eq!(pack(&record(0, 0, 0, 0, 0, 16)), Err(CodecError::RangeViolation));
    assert_eq!(
        pack(&record(u64::MAX, i64::MIN, i64::MAX, 0, usize::MAX, 0)),
        Err(CodecError::RangeViolation)
    );
}

#[test]
fn every_record_in_range_survives_the_word() {
    for a in [0_u64, 1, 255, 256, 511] {
        for b in -16..=15_i64 {
            for c in [-16_i64, -1, 0, 15] {
                for d in [-16_i64, -7, 0, 15] {
                    for avg_pb in [0_usize, 7, 15] {
                        for avg_pr in [0_usize, 8, 15] {
                            let before = record(a, b, c, d, avg_pb, avg_pr);
                            assert_eq!(unpack(pack(&before).unwrap()), before);
                        }
                    }
                }
            }
        }
    }
}

#[test]
fn every_word_survives_the_record() {
    let mut word: u32 = 0;
    loop {
        assert_eq!(pack(&unpack(word)), Ok(word));
        match word.checked_add(0x0001_0203) {
            Some(next) => word = next,
            None => break,
        }
    }
    assert_eq!(pack(&unpack(u32::MAX)), Ok(u32::MAX));
}

#[test]
fn words_are_written_big_endian() {
    assert_eq!(word_to_bytes(0x0011_2233), [0x00, 0x11, 0x22, 0x33]);
    assert_eq!(word_to_bytes(0x9658_ac39), [0x96, 0x58, 0xac, 0x39]);
    assert_eq!(word_to_bytes(u32::MAX), [0xff; 4]);
    assert_eq!(word_to_bytes(1), [0, 0, 0, 1]);
    assert_eq!(word_to_bytes(0x9658_ac39), 0x9658_ac39_u32.to_be_bytes());
}

#[test]
fn words_are_read_big_endian() {
    assert_eq!(word_from_bytes(&[0x44, 0x55, 0x66, 0x77]), 0x4455_6677);
    assert_eq!(word_from_bytes(&[0xff; 4]), u32::MAX);
    assert_eq!(word_from_bytes(&[0, 0, 1, 0]), 256);
    for word in [0_u32, 1, 0x8000_0000, 0xdead_beef, u32::MAX] {
        assert_eq!(word_from_bytes(&word_to_bytes(word)), word);
        assert_eq!(word_from_bytes(&word.to_be_bytes()), u32::from_be_bytes(word.to_be_bytes()));
    }
}
