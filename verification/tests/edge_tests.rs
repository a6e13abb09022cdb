use bitpack::{fitss, fitsu, gets, getu, news, newu};

#[test]
fn fitsu_zero_width_rejects_zero() {
    assert_eq!(fitsu(0, 0), false);
}

#[test]
fn fitss_zero_width_rejects_zero() {
    assert_eq!(fitss(0, 0), false);
    assert_eq!(fitss(-1, 0), false);
}

#[test]
fn fitsu_boundaries() {
    // 2^width - 1 fits, 2^width does not, over a spread of widths.
    let widths: [u64; 5] = [1, 2, 8, 31, 63];
    for &w in widths.iter() {
        let max: u64 = (1u64 << w) - 1;
        assert!(fitsu(max, w));
        assert!(!fitsu(max + 1, w));
    }
}

#[test]
fn fitsu_full_width() {
    assert!(fitsu(u64::MAX, 64));
    assert!(fitsu(0, 64));
}

#[test]
fn fitss_boundaries() {
    // 2^(width-1) - 1 fits, 2^(width-1) does not, and the negative
    // end -2^(width-1) fits while -2^(width-1) - 1 does not.
    let widths: [u64; 5] = [2, 3, 8, 32, 63];
    for &w in widths.iter() {
        let max: i64 = (1i64 << (w - 1)) - 1;
        assert!(fitss(max, w));
        assert!(!fitss(max + 1, w));
        let min: i64 = -(1i64 << (w - 1));
        assert!(fitss(min, w));
        assert!(!fitss(min - 1, w));
    }
}

#[test]
fn fitss_width_one() {
    assert!(fitss(0, 1));
    assert!(fitss(-1, 1));
    assert!(!fitss(1, 1));
    assert!(!fitss(-2, 1));
}

#[test]
fn fitss_full_width() {
    assert!(fitss(i64::MAX, 64));
    assert!(fitss(i64::MIN, 64));
    assert!(fitss(0, 64));
}

#[test]
fn getu_zero_width_reads_zero() {
    assert_eq!(getu(u64::MAX, 0, 17), 0);
    assert_eq!(gets(u64::MAX, 0, 17), 0);
}

#[test]
fn getu_full_word() {
    assert_eq!(getu(0xDEAD_BEEF_0BAD_F00D, 64, 0), 0xDEAD_BEEF_0BAD_F00D);
    assert_eq!(getu(u64::MAX, 64, 0), u64::MAX);
}

#[test]
fn gets_full_word() {
    assert_eq!(gets(u64::MAX, 64, 0), -1);
    assert_eq!(gets(0x8000_0000_0000_0000, 64, 0), i64::MIN);
    assert_eq!(gets(0x7FFF_FFFF_FFFF_FFFF, 64, 0), i64::MAX);
}

#[test]
fn gets_sign_extends() {
    // The single set bit is the field's sign bit: the field reads as -1.
    assert_eq!(gets(0b1000, 1, 3), -1);
    assert_eq!(gets(0b1000, 2, 2), -2);
}

#[test]
fn getu_top_of_word() {
    assert_eq!(getu(0xF000_0000_0000_0000, 4, 60), 0xF);
    assert_eq!(gets(0xF000_0000_0000_0000, 4, 60), -1);
}

#[test]
fn newu_rejects_too_wide_values() {
    assert_eq!(newu(0, 3, 0, 8), None);
    assert_eq!(newu(u64::MAX, 0, 5, 0), None);
    assert_eq!(newu(0, 63, 1, u64::MAX), None);
}

#[test]
fn news_rejects_too_wide_values() {
    assert_eq!(news(0, 3, 0, 4), None);
    assert_eq!(news(0, 3, 0, -5), None);
    assert_eq!(news(u64::MAX, 0, 5, 0), None);
}

#[test]
fn newu_leaves_outside_bits_alone() {
    assert_eq!(newu(u64::MAX, 8, 8, 0).unwrap(), 0xFFFF_FFFF_FFFF_00FF);
    assert_eq!(newu(0, 8, 8, 0xAB).unwrap(), 0x0000_0000_0000_AB00);
}

#[test]
fn news_leaves_outside_bits_alone() {
    assert_eq!(news(0, 4, 60, -1).unwrap(), 0xF000_0000_0000_0000);
    assert_eq!(news(u64::MAX, 4, 0, 0).unwrap(), 0xFFFF_FFFF_FFFF_FFF0);
}

#[test]
fn newu_full_word() {
    assert_eq!(newu(0xDEAD_BEEF_0BAD_F00D, 64, 0, 42).unwrap(), 42);
    assert_eq!(newu(7, 64, 0, u64::MAX).unwrap(), u64::MAX);
}

#[test]
fn news_full_word() {
    assert_eq!(news(0xDEAD_BEEF_0BAD_F00D, 64, 0, -1).unwrap(), u64::MAX);
    assert_eq!(news(7, 64, 0, i64::MIN).unwrap(), 0x8000_0000_0000_0000);
}

#[test]
fn unsigned_round_trip() {
    // Writing a fitting value and reading it back returns the value, for
    // every width, at both ends of the representable range.
    let word: u64 = 0x0123_4567_89AB_CDEF;
    for w in 1u64..=64 {
        for lsb in [0u64, 64 - w].iter().copied() {
            let max: u64 = if w == 64 { u64::MAX } else { (1u64 << w) - 1 };
            for &v in [0u64, max].iter() {
                let put: u64 = newu(word, w, lsb, v).unwrap();
                assert_eq!(getu(put, w, lsb), v);
            }
        }
    }
}

#[test]
fn signed_round_trip() {
    let word: u64 = 0x0123_4567_89AB_CDEF;
    for w in 1u64..=64 {
        for lsb in [0u64, 64 - w].iter().copied() {
            let max: i64 = if w == 64 {
                i64::MAX
            } else {
                (1i64 << (w - 1)) - 1
            };
            let min: i64 = if w == 64 { i64::MIN } else { -(1i64 << (w - 1)) };
            for cand in [min, -1, 0, max].iter().copied() {
                let v: i64 = cand.max(min).min(max);
                let put: u64 = news(word, w, lsb, v).unwrap();
                assert_eq!(gets(put, w, lsb), v);
            }
        }
    }
}

#[test]
fn round_trip_middle_of_word() {
    for lsb in 0u64..=52 {
        let put: u64 = newu(u64::MAX, 12, lsb, 0x5A5).unwrap();
        assert_eq!(getu(put, 12, lsb), 0x5A5);
        let put: u64 = news(0, 12, lsb, -91).unwrap();
        assert_eq!(gets(put, 12, lsb), -91);
    }
}

#[test]
fn insertion_then_extraction_elsewhere() {
    // Writing one field does not disturb a neighbouring field.
    let word: u64 = 0xFFFF_0000_FFFF_0000;
    let put: u64 = newu(word, 16, 16, 0x1234).unwrap();
    assert_eq!(getu(put, 16, 0), 0x0000);
    assert_eq!(getu(put, 16, 16), 0x1234);
    assert_eq!(getu(put, 16, 32), 0x0000);
    assert_eq!(getu(put, 16, 48), 0xFFFF);
}
