use puffin::ngram::{split_ngrams, Ngram, NgramError};

#[test]
fn ngram_from_runes() {
    assert_eq!(
        Ngram::from(['T', 'e', 's']),
        // 'T' == 84 == 0b01010100
        // 'e' == 101 == 0b01100101
        // 's' == 115 == 0b01110011
        Ngram::from(0b1010100000000000000001100101000000000000001110011u64)
    );

    assert_eq!(
        Ngram::from(['\u{1F4A9}', 'e', 's']),
        // U+1F4A9 == 128169 == 0b11111010010101001
        // 'e' == 101 == 0b01100101
        // 's' == 115 == 0b01110011
        Ngram::from(0b11111010010101001000000000000001100101000000000000001110011u64)
    );
}

#[test]
fn test_split_ngrams() {
    assert_eq!(
        vec![(Ngram::from("Tes"), 0), (Ngram::from("est"), 1),],
        split_ngrams("Test")
    );
}

#[test]
fn split_ngrams_short_text_has_none() {
    assert!(split_ngrams("").is_empty());
    assert!(split_ngrams("ab").is_empty());
    assert_eq!(split_ngrams("abc").len(), 1);
}

#[test]
fn runes_round_trip() {
    let g = Ngram::from(['\u{1F4A9}', 'z', '\u{e9}']);
    assert_eq!(g.to_runes(), ['\u{1F4A9}', 'z', '\u{e9}']);
    assert_eq!(g.to_string(), "\u{1F4A9}z\u{e9}");
}

#[test]
fn encoding_keeps_order() {
    let a = Ngram::from(['a', 'b', 'c']);
    let b = Ngram::from(['a', 'b', 'd']);
    let c = Ngram::from(['b', 'a', 'a']);
    assert!(a < b);
    assert!(b < c);
    assert!(a.0 < b.0 && b.0 < c.0);
}

#[test]
fn code_points_out_of_range_are_rejected() {
    assert_eq!(
        Ngram::from_code_points(0x20_0000, 1, 2),
        Err(NgramError::CodePointOutOfRange)
    );
    assert_eq!(
        Ngram::from_code_points(1, 2, 3),
        Ok(Ngram((1u64 << 42) | (2u64 << 21) | 3))
    );
    assert!(Ngram::from_code_points(0x1f_ffff, 0x1f_ffff, 0x1f_ffff).is_ok());
}

#[test]
fn raw_bytes_round_trip() {
    let g = Ngram::from(['T', 'e', 's']);
    let raw = g.to_le_bytes();
    assert_eq!(raw, g.0.to_le_bytes().to_vec());
    assert_eq!(Ngram::from_le_bytes(&raw), g);
}

#[test]
fn low_bytes_of_runes() {
    assert_eq!(Ngram::from(['T', 'e', 's']).to_bytes(), [b'T', b'e', b's']);
    assert_eq!(Ngram::from(['\u{1F4A9}', 'e', 's']).to_bytes(), [0xa9, b'e', b's']);
}
