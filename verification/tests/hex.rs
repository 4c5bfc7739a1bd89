use damf2joc::hex::{hex_bytes, parse_key_text, HexError};

#[test]
fn plain_and_spaced() {
    assert_eq!(hex_bytes("DEADBEEF"), Ok(vec![0xDE, 0xAD, 0xBE, 0xEF]));
    assert_eq!(hex_bytes("de ad\tbe\nef"), Ok(vec![0xDE, 0xAD, 0xBE, 0xEF]));
    assert_eq!(hex_bytes("\u{a0}1f \u{3000}84"), Ok(vec![0x1F, 0x84]));
    assert_eq!(hex_bytes(""), Ok(vec![]));
    assert_eq!(hex_bytes("+a0F"), Ok(vec![0x0A, 0x0F]));
}

#[test]
fn refused_texts() {
    assert_eq!(hex_bytes("abc"), Err(HexError::OddLength));
    assert_eq!(hex_bytes("0x10"), Err(HexError::InvalidDigit));
    assert_eq!(hex_bytes("g0"), Err(HexError::InvalidDigit));
    assert_eq!(hex_bytes("a+"), Err(HexError::InvalidDigit));
    assert_eq!(hex_bytes("\u{e9}"), Err(HexError::InvalidDigit)); // two bytes, one character
    assert_eq!(hex_bytes("1\u{e9}"), Err(HexError::OddLength)); // three bytes
}

#[test]
fn key_texts() {
    assert_eq!(parse_key_text("00:ff-7F\n"), Ok(vec![0x00, 0xFF, 0x7F]));
    assert_eq!(parse_key_text("xyz"), Err(HexError::Empty));
    assert_eq!(parse_key_text("abc"), Err(HexError::OddLength));
    assert_eq!(parse_key_text("0xDEADbeef"), Ok(vec![0xDE, 0xAD, 0xBE, 0xEF]));
    assert_eq!(parse_key_text("0x01, 0xa0"), Ok(vec![0x01, 0xA0]));
    assert_eq!(parse_key_text("0x1"), Err(HexError::OddLength));
    assert_eq!(parse_key_text("0x"), Err(HexError::Empty));
}
