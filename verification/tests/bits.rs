use crc15::bits::{parse_bit_string, ParseError};
use crc15::crc::CRC;

#[test]
fn parse_single_byte() {
    assert_eq!(parse_bit_string(b"10000111"), Ok(vec![0x87]));
}

#[test]
fn parse_ignores_spaces() {
    assert_eq!(parse_bit_string(b" 1000 0111 "), Ok(vec![0x87]));
}

#[test]
fn parse_two_bytes() {
    assert_eq!(parse_bit_string(b"1000011100000001"), Ok(vec![0x87, 0x01]));
}

#[test]
fn parse_partial_last_chunk() {
    assert_eq!(parse_bit_string(b"101"), Ok(vec![0b101]));
    assert_eq!(parse_bit_string(b"111111111"), Ok(vec![0xFF, 0x01]));
}

#[test]
fn parse_empty_and_spaces_only() {
    assert_eq!(parse_bit_string(b""), Ok(vec![]));
    assert_eq!(parse_bit_string(b"   "), Ok(vec![]));
}

#[test]
fn parse_at_the_96_bit_limit() {
    let ones = [b'1'; 96];
    assert_eq!(parse_bit_string(&ones), Ok(vec![0xFF; 12]));
}

#[test]
fn parse_rejects_over_96_bits() {
    let ones = [b'1'; 97];
    assert_eq!(parse_bit_string(&ones), Err(ParseError::TooLong));
}

#[test]
fn parse_rejects_other_characters() {
    assert_eq!(parse_bit_string(b"1020"), Err(ParseError::InvalidCharacter));
    assert_eq!(parse_bit_string(b"abc"), Err(ParseError::InvalidCharacter));
}

#[test]
fn too_long_wins_over_bad_characters() {
    let mut input = vec![b'2'];
    input.extend_from_slice(&[b'1'; 96]);
    assert_eq!(parse_bit_string(&input), Err(ParseError::TooLong));
}

#[test]
fn parse_then_calculate() {
    let engine = CRC::new();
    let bytes = parse_bit_string(b"10000111").unwrap();
    assert_eq!(engine.calculate(&bytes), 0x71EE);
}
