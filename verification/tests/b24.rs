use captu::ts::b24::{decode_arib_b24, tokenize, Token};

#[test]
fn kanji_is_the_first_set() {
    // Two low bytes, and the same two as high bytes after the set is called up.
    assert_eq!(decode_arib_b24(&[0x46, 0x7C, 0x4B, 0x5C]), "日本");
    assert_eq!(
        decode_arib_b24(&[0x1B, 0x24, 0x2A, 0x42, 0xC6, 0xFC, 0xCB, 0xDC]),
        "日本"
    );
}

#[test]
fn high_bytes_are_hiragana_at_first() {
    assert_eq!(decode_arib_b24(&[0xA2, 0xA4, 0xF9, 0xFD, 0xFE]), "あいー、・");
}

#[test]
fn katakana_by_locking_shift() {
    assert_eq!(decode_arib_b24(&[0x1B, 0x6F, 0x22, 0x24, 0x79]), "アイー");
    assert_eq!(decode_arib_b24(&[0x1B, 0x7C, 0xA2, 0xA4]), "アイ");
}

#[test]
fn alphanumeric_by_shift_and_by_escape() {
    assert_eq!(decode_arib_b24(&[0x0E, 0x41, 0x42, 0x0F, 0x46, 0x7C]), "AB日");
    assert_eq!(decode_arib_b24(&[0x1B, 0x28, 0x42, 0x41, 0x20, 0x42]), "A B");
    assert_eq!(decode_arib_b24(&[0x1B, 0x28, 0x4A, 0x41, 0x20, 0x42]), "A B");
}

#[test]
fn escapes_into_other_sets() {
    // G1 becomes katakana, then is shifted in.
    assert_eq!(decode_arib_b24(&[0x1B, 0x29, 0x31, 0x0E, 0x22]), "ア");
    // The last byte 0x4A names no set for G1: it stays alphanumeric.
    assert_eq!(decode_arib_b24(&[0x1B, 0x29, 0x4A, 0x0E, 0x41]), "A");
    // G3 becomes hiragana, then is called up for the high bytes.
    assert_eq!(decode_arib_b24(&[0x1B, 0x2B, 0x30, 0x1B, 0x7C, 0xA2]), "あ");
}

#[test]
fn signs_without_text_are_dropped() {
    assert_eq!(decode_arib_b24(&[0x7A, 0x50, 0x46, 0x7C]), "日");
    assert_eq!(decode_arib_b24(&[0x7A, 0x00, 0x46, 0x7C]), "日");
}

#[test]
fn odd_ends_are_dropped() {
    assert_eq!(decode_arib_b24(&[0x46]), "");
    assert_eq!(decode_arib_b24(&[0x46, 0x7C, 0x1B]), "日");
    assert_eq!(decode_arib_b24(&[0x46, 0x7C, 0x1B, 0x24]), "日");
    assert_eq!(decode_arib_b24(&[0x46, 0x7C, 0x1B, 0x28]), "日");
    assert_eq!(decode_arib_b24(&[]), "");
}

#[test]
fn lines_spaces_and_other_bytes() {
    assert_eq!(
        decode_arib_b24(&[0x20, 0x0E, 0x41, 0x0D, 0x00, 0x89, 0x42, 0x20]),
        "A\nB"
    );
}

#[test]
fn tokens_before_any_table() {
    assert_eq!(
        tokenize(&[0x46, 0x7C, 0x0E, 0x41, 0xA2, 0xF7]),
        vec![
            Token::Euc(0xC6, 0xFC),
            Token::Plain('A'),
            Token::Euc(0xA4, 0xA2),
            Token::Plain('ヷ'),
        ]
    );
}
