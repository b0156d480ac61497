use lc3sim::loader::{words_from_bit_text, words_from_bytes, Filetype, LoadError};

#[test]
fn packed_words_are_big_endian() {
    let m = words_from_bytes(&[0x12, 0x34, 0xf0, 0x25]).unwrap();
    assert_eq!(m.len(), 65536);
    assert_eq!(m[0x3000] as u16, 0x1234);
    assert_eq!(m[0x3001] as u16, 0xf025);
    assert_eq!(m[0x3002], 0);
    assert_eq!(m[0x2fff], 0);
}

#[test]
fn packed_odd_length_rejected() {
    assert_eq!(words_from_bytes(&[1, 2, 3]), Err(LoadError::OddByteCount(3)));
}

#[test]
fn packed_too_long_rejected() {
    let bytes = vec![0u8; (0xFE00 - 0x3000) * 2 + 2];
    assert_eq!(words_from_bytes(&bytes), Err(LoadError::TooLong(0xFE00 - 0x3000 + 1)));
    let bytes = vec![0u8; (0xFE00 - 0x3000) * 2];
    assert!(words_from_bytes(&bytes).is_ok());
}

#[test]
fn text_words_ignore_white_space() {
    let text: Vec<char> = "0001 0000 0100 0010\n1111000000100101\n".chars().collect();
    let m = words_from_bit_text(&text).unwrap();
    assert_eq!(m[0x3000] as u16, 0x1042);
    assert_eq!(m[0x3001] as u16, 0xf025);
    assert_eq!(m[0x3002], 0);
}

#[test]
fn text_incomplete_word_rejected() {
    let text: Vec<char> = "0101".chars().collect();
    assert_eq!(words_from_bit_text(&text), Err(LoadError::IncompleteWord(4)));
}

#[test]
fn text_bad_digit_reports_first_word() {
    let text: Vec<char> = "0000000000000000 0000000020000000 000000000000000x".chars().collect();
    assert_eq!(words_from_bit_text(&text), Err(LoadError::BadDigit(1)));
}

#[test]
fn filetype_path() {
    assert_eq!(Filetype::Asm("a.asm").path(), "a.asm");
    assert_eq!(Filetype::PlaintextBinary("b.txt").path(), "b.txt");
    assert_eq!(Filetype::EncodedBinary("c.bin").path(), "c.bin");
}
