use rpeg::bitpack::{fitss, fitsu, gets, getu, news, newu};

#[test]
fn fitss_range_test() {
    assert_eq!(fitss(7, 5), true);
    assert_eq!(fitss(-4, 3), true);
    assert_eq!(fitss(9001, 5), false);
    assert_eq!(fitss(31, 5), false);
}

#[test]
fn fitsu_range_test() {
    assert_eq!(fitsu(17, 5), true);
    assert_eq!(fitsu(7, 3), true);
    assert_eq!(fitsu(9001, 5), false);
    assert_eq!(fitsu(31, 5), true);
}

#[test]
fn gets_test() {
    let test_case: i64 = gets(!0_u64, 64, 0);
    assert_eq!(test_case, -1_i64);
    assert_eq!(gets(9998212, 24, 6), 156222);
}

#[test]
fn getu_test() {
    let test_case: u64 = getu(!0_u64, 64, 0);
    assert_eq!(test_case, !0_u64);
    assert_eq!(getu(9998212, 24, 6), 156222);
}

#[test]
fn newu_test() {
    assert_eq!(newu(255, 4, 1, 7 as u64).unwrap(), 239);
}

#[test]
fn news_test() {
    assert_eq!(news(0_u64, 9, 23, -0.98 as i64).unwrap(), 0);
}

#[test]
fn nine_unsigned_bits_hold_0_to_511() {
    for v in 0..512_u64 {
        assert!(fitsu(v, 9));
    }
    assert!(!fitsu(512, 9));
    assert!(!fitsu(u64::MAX, 9));
}

#[test]
fn five_signed_bits_hold_minus_16_to_15() {
    for v in -16..=15_i64 {
        assert!(fitss(v, 5));
    }
    assert!(!fitss(16, 5));
    assert!(!fitss(-17, 5));
}

#[test]
fn fits_at_the_edges_of_the_width() {
    assert!(fitsu(0, 0));
    assert!(!fitsu(1, 0));
    assert!(fitsu(u64::MAX, 64));
    assert!(fitsu(u64::MAX, 200));
    assert!(!fitsu(u64::MAX, 63));
    assert!(fitsu((1 << 63) - 1, 63));
    assert!(!fitss(0, 0));
    assert!(fitss(0, 1));
    assert!(fitss(-1, 1));
    assert!(!fitss(1, 1));
    assert!(fitss(i64::MIN, 64));
    assert!(fitss(i64::MAX, 64));
    assert!(fitss(i64::MIN, 65));
    assert!(!fitss(i64::MIN, 63));
    assert!(fitss(-(1 << 62), 63));
    assert!(!fitss(1 << 62, 63));
}

#[test]
fn getu_reads_the_named_bits() {
    assert_eq!(getu(0b1011_0100, 4, 2), 0b1101);
    assert_eq!(getu(0xdead_beef_0123_4567, 16, 32), 0xbeef);
    assert_eq!(getu(0xdead_beef_0123_4567, 64, 0), 0xdead_beef_0123_4567);
    assert_eq!(getu(0xdead_beef_0123_4567, 0, 17), 0);
    assert_eq!(getu(1 << 63, 1, 63), 1);
}

#[test]
fn gets_extends_the_sign() {
    assert_eq!(gets(0b1011_0100, 4, 2), -3);
    assert_eq!(gets(0b0111_0100, 4, 2), -3);
    assert_eq!(gets(0b0101_0100, 4, 2), 5);
    assert_eq!(gets(0x1f << 18, 5, 18), -1);
    assert_eq!(gets(0x10 << 18, 5, 18), -16);
    assert_eq!(gets(0x0f << 18, 5, 18), 15);
    assert_eq!(gets(1 << 63, 64, 0), i64::MIN);
    assert_eq!(gets(u64::MAX >> 1, 64, 0), i64::MAX);
    assert_eq!(gets(u64::MAX, 0, 5), 0);
}

#[test]
fn fields_beyond_the_word_are_cut_off() {
    assert_eq!(getu(u64::MAX, 10, 60), 0b1111);
    assert_eq!(getu(u64::MAX, 70, 0), u64::MAX);
    assert_eq!(getu(u64::MAX, 8, 64), 0);
    assert_eq!(getu(u64::MAX, 8, 1000), 0);
    assert_eq!(gets(u64::MAX, 10, 60), -1);
    assert_eq!(gets(0b0111 << 60, 10, 60), 7);
    assert_eq!(gets(u64::MAX, 70, 0), -1);
    assert_eq!(gets(u64::MAX, 8, 64), 0);
}

#[test]
fn newu_replaces_the_field_and_nothing_else() {
    assert_eq!(newu(0, 9, 23, 300), Some(300 << 23));
    assert_eq!(newu(u64::MAX, 4, 8, 0), Some(u64::MAX & !0xf00));
    assert_eq!(newu(0xffff, 4, 4, 0b1010), Some(0xffaf));
    assert_eq!(newu(0x1234_5678_9abc_def0, 64, 0, 42), Some(42));
    assert_eq!(newu(0x1234, 0, 7, 0), Some(0x1234));
    assert_eq!(newu(0x1234, 0, 64, 0), Some(0x1234));
    assert_eq!(newu(0, 1, 63, 1), Some(1 << 63));
}

#[test]
fn news_stores_twos_complement() {
    assert_eq!(news(0, 5, 18, -10), Some(22 << 18));
    assert_eq!(news(0, 5, 0, -1), Some(0x1f));
    assert_eq!(news(0, 5, 0, -16), Some(0x10));
    assert_eq!(news(u64::MAX, 5, 8, 3), Some(u64::MAX & !(0x1f << 8) | (3 << 8)));
    assert_eq!(news(0, 64, 0, -1), Some(u64::MAX));
    assert_eq!(news(0, 64, 0, i64::MIN), Some(1 << 63));
    assert_eq!(news(7, 1, 3, -1), Some(15));
}

#[test]
fn values_that_do_not_fit_are_refused() {
    assert_eq!(newu(0, 9, 23, 512), None);
    assert_eq!(newu(0, 0, 3, 1), None);
    assert_eq!(news(0, 5, 18, 16), None);
    assert_eq!(news(0, 5, 18, -17), None);
    assert_eq!(news(0, 0, 18, 0), None);
}

#[test]
fn fields_that_leave_the_word_are_refused() {
    assert_eq!(newu(0, 4, 61, 1), None);
    assert_eq!(newu(0, 65, 0, 1), None);
    assert_eq!(newu(0, 1, 64, 0), None);
    assert_eq!(news(0, 4, 61, 1), None);
    assert_eq!(news(0, 65, 0, 1), None);
    assert_eq!(newu(0, 4, 60, 15), Some(15 << 60));
    assert_eq!(news(0, 4, 60, -8), Some(8 << 60));
}

#[test]
fn extract_gives_back_what_insert_put() {
    let words = [0_u64, u64::MAX, 0x0123_4567_89ab_cdef, 0xaaaa_aaaa_aaaa_aaaa];
    for &word in words.iter() {
        for width in 0..=64_u64 {
            for lsb in 0..=(64 - width) {
                let top: u64 = if width == 64 { u64::MAX } else { (1 << width) - 1 };
                for &value in [0, 1, top / 2, top].iter() {
                    if fitsu(value, width) {
                        let updated = newu(word, width, lsb, value).unwrap();
                        assert_eq!(getu(updated, width, lsb), value);
                    }
                }
                if width >= 1 {
                    let low: i64 = if width == 64 { i64::MIN } else { -(1 << (width - 1)) };
                    let high: i64 = -(low + 1);
                    for &value in [low, -1, 0, high].iter() {
                        assert!(fitss(value, width));
                        let updated = news(word, width, lsb, value).unwrap();
                        assert_eq!(gets(updated, width, lsb), value);
                    }
                }
            }
        }
    }
}

#[test]
fn insert_leaves_other_fields_alone() {
    let word: u64 = 0x0123_4567_89ab_cdef;
    let updated = newu(word, 8, 24, 0x5a).unwrap();
    assert_eq!(updated, 0x0123_4567_5aab_cdef);
    assert_eq!(getu(updated, 24, 0), getu(word, 24, 0));
    assert_eq!(getu(updated, 32, 32), getu(word, 32, 32));
    assert_eq!(gets(updated, 12, 12), gets(word, 12, 12));
    let signed = news(word, 8, 24, -2).unwrap();
    assert_eq!(signed, 0x0123_4567_feab_cdef);
    assert_eq!(getu(signed, 24, 0), getu(word, 24, 0));
    assert_eq!(getu(signed, 32, 32), getu(word, 32, 32));
}
