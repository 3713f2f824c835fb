use rum::bitpack::{fitss, fitsu, gets, getu, news, newu};

// 8 bit width tests

// fitss
// n bounded by {-128, 127}
#[test]
fn fitss_lower_bound() {
    assert!(fitss(-128, 8));
    assert!(!fitss(-129, 8));
}

// n bounded by {0, 255}
#[test]
fn fitss_upper_bound() {
    assert!(fitss(127, 8));
    assert!(!fitss(128, 8));
}

// fitsu
// n bounded by {0, 255}
#[test]
fn fitsu_lower_wound() {
    assert!(fitsu(0, 8));
}

#[test]
fn fitsu_upper_bound() {
    assert!(fitsu(255, 8));
    assert!(!fitsu(256, 8));
}

// build_word and get_word are general tests
#[test]
fn build_word() {
    // original word
    // 0 x 32 ... 1 x 32
    // numbers to input (left to right)
    // -3 4 1 15 2 6 -8 -1
    let mut word: u64 = !0_u32 as u64;
    // news and newu should delete the 1's in their way
    word = news(word, 4, 28, -3).unwrap();
    word = newu(word, 4, 24, 4).unwrap();
    word = newu(word, 4, 20, 1).unwrap();
    word = newu(word, 4, 16, 15).unwrap();
    word = newu(word, 4, 12, 2).unwrap();
    word = newu(word, 4, 8, 6).unwrap();
    word = news(word, 4, 4, -8).unwrap();
    word = news(word, 4, 0, -1).unwrap();

    assert_eq!(word, 0xD41F268F);
}

#[test]
fn get_word() {
    let word: u64 = 0xD41F268F;
    assert_eq!(gets(word, 4, 28), -3);
    assert_eq!(getu(word, 4, 24), 4);
    assert_eq!(getu(word, 4, 20), 1);
    assert_eq!(getu(word, 4, 16), 15);
    assert_eq!(getu(word, 4, 12), 2);
    assert_eq!(getu(word, 4, 8), 6);
    assert_eq!(gets(word, 4, 4), -8);
    assert_eq!(gets(word, 4, 0), -1);
}

// following tests check if user gives maximum width of 64
#[test]
fn newu_bounds() {
    let mut word: u64 = 0;
    word = newu(word, 64, 0, !0_u64).unwrap();
    assert_eq!(word, !0_u64);
}

#[test]
fn news_bounds() {
    let mut word: u64 = 0;
    word = news(word, 64, 0, -1_i64).unwrap();
    assert_eq!(word, !0_u64);
}

#[test]
fn getu_bounds() {
    let word: u64 = !0_u64;
    assert_eq!(getu(word, 64, 0), !0_u64);
}

#[test]
fn geti_bounds() {
    let word: u64 = !0_u64;
    assert_eq!(gets(word, 64, 0), -1_i64);
}

// round trips on ordinary interior fields
#[test]
fn round_trip_unsigned() {
    let word: u64 = 0b0111_1100_0101_0110;
    let built = newu(word, 4, 5, 11).unwrap();
    assert_eq!(getu(built, 4, 5), 11);
    // the rest of the word is untouched
    assert_eq!(built & !(0xF << 5), word & !(0xF << 5));
}

#[test]
fn round_trip_signed() {
    let word: u64 = 0b0111_1100_0101_0100;
    let built = news(word, 6, 2, -7).unwrap();
    assert_eq!(gets(built, 6, 2), -7);
    assert_eq!(built & !(0x3F << 2), word & !(0x3F << 2));
}

// a value that does not fit is refused, one too small and one too large
#[test]
fn new_refuses_unfit_values() {
    assert_eq!(newu(0, 8, 0, 256), None);
    assert!(newu(0, 8, 0, 255).is_some());
    assert_eq!(news(0, 8, 0, 128), None);
    assert_eq!(news(0, 8, 0, -129), None);
    assert!(news(0, 8, 0, -128).is_some());
}

// extraction of a field from the middle of a word
#[test]
fn get_interior_field() {
    assert_eq!(getu(0x3F4, 6, 2), 61);
    assert_eq!(gets(0x3F4, 6, 2), -3);
}

// the shift helpers
#[test]
fn shift_helpers() {
    assert_eq!(rum::bitpack::shl(0x1, 63), 0x8000_0000_0000_0000);
    assert_eq!(rum::bitpack::shl(0xFF, 60), 0xF000_0000_0000_0000);
    assert_eq!(rum::bitpack::shr(0x8000_0000_0000_0000, 63), 1);
    assert_eq!(rum::bitpack::shr(0xFF, 4), 0xF);
}
