use rpeg::bitpack::{fitss, fitsu, gets, getu, news, newu};

#[test]
fn it_works() {
    let mut word: u64 = 0;
    let a = 133;
    let b = -1;
    let c = -1;
    let d = 0;
    let pb = 2;
    let pr = 3;
    word = newu(word, 4, 0, pr).unwrap();
    word = newu(word, 4, 4, pb).unwrap();
    word = news(word, 5, 8, d).unwrap();
    word = news(word, 5, 13, c).unwrap();
    word = news(word, 5, 18, b).unwrap();
    word = newu(word, 9, 23, a).unwrap();
    assert_eq!(1124065315, word)
}

#[test]
fn fitsu_bounds() {
    assert!(fitsu(0, 0));
    assert!(!fitsu(1, 0));
    assert!(fitsu(15, 4));
    assert!(!fitsu(16, 4));
    assert!(fitsu(u64::MAX, 64));
    assert!(fitsu(u64::MAX, 100));
    assert!(!fitsu(u64::MAX, 63));
}

#[test]
fn fitss_bounds() {
    assert!(fitss(0, 0));
    assert!(!fitss(-1, 0));
    assert!(fitss(-1, 1));
    assert!(!fitss(1, 1));
    assert!(fitss(-16, 5));
    assert!(fitss(15, 5));
    assert!(!fitss(16, 5));
    assert!(!fitss(-17, 5));
    assert!(fitss(i64::MIN, 64));
    assert!(fitss(i64::MAX, 64));
    assert!(!fitss(i64::MIN, 63));
    assert!(fitss(i64::MIN, 70));
}

#[test]
fn getu_reads_fields() {
    let word: u64 = 1124065315;
    assert_eq!(getu(word, 4, 0), 3);
    assert_eq!(getu(word, 4, 4), 2);
    assert_eq!(getu(word, 9, 23), 133);
    assert_eq!(getu(word, 0, 10), 0);
    assert_eq!(getu(0x3f00_0000_0000_0000, 8, 56), 0x3f);
    assert_eq!(getu(u64::MAX, 64, 0), u64::MAX);
}

#[test]
fn gets_reads_fields() {
    let word: u64 = 1124065315;
    assert_eq!(gets(word, 5, 8), 0);
    assert_eq!(gets(word, 5, 13), -1);
    assert_eq!(gets(word, 5, 18), -1);
    assert_eq!(gets(word, 4, 4), 2);
    assert_eq!(gets(word, 0, 64), 0);
    assert_eq!(gets(0xf000_0000_0000_0000, 4, 60), -1);
    assert_eq!(gets(u64::MAX, 64, 0), -1);
    assert_eq!(gets(0x8000_0000_0000_0000, 64, 0), i64::MIN);
    assert_eq!(gets(0x10, 5, 0), -16);
}

#[test]
fn newu_refuses_values_too_wide() {
    assert_eq!(newu(0, 4, 0, 16), None);
    assert_eq!(newu(7, 0, 64, 1), None);
    assert_eq!(newu(7, 0, 64, 0), Some(7));
}

#[test]
fn news_refuses_values_too_wide() {
    assert_eq!(news(0, 5, 8, 16), None);
    assert_eq!(news(0, 5, 8, -17), None);
    assert_eq!(news(0, 0, 3, -1), None);
}

#[test]
fn newu_replaces_the_field_only() {
    let word: u64 = 0xffff_ffff_ffff_ffff;
    let w = newu(word, 8, 8, 0x12).unwrap();
    assert_eq!(w, 0xffff_ffff_ffff_12ff);
    assert_eq!(getu(w, 8, 8), 0x12);
    assert_eq!(getu(w, 8, 0), 0xff);
    assert_eq!(getu(w, 48, 16), 0xffff_ffff_ffff);
    assert_eq!(newu(0, 64, 0, 42), Some(42));
}

#[test]
fn news_replaces_the_field_only() {
    let word: u64 = 0;
    let w = news(word, 6, 58, -3).unwrap();
    assert_eq!(gets(w, 6, 58), -3);
    assert_eq!(getu(w, 58, 0), 0);
    let w2 = news(u64::MAX, 3, 0, 2).unwrap();
    assert_eq!(w2, 0xffff_ffff_ffff_fffa);
    assert_eq!(news(0, 64, 0, -1), Some(u64::MAX));
}

#[test]
fn rewriting_a_field_with_itself_changes_nothing() {
    let word: u64 = 0x0123_4567_89ab_cdef;
    assert_eq!(newu(word, 12, 20, getu(word, 12, 20)), Some(word));
    assert_eq!(news(word, 12, 20, gets(word, 12, 20)), Some(word));
}
