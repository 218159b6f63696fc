use rust_state_machine::account::{account_from_hex, account_to_hex};
use rust_state_machine::codec::{
    decode_compact_u32, decode_le, decode_string, encode_compact_u32, encode_le, encode_string,
};
use rust_state_machine::keyring::AccountKeyring::Alice;

fn compact_roundtrip(v: u32) {
    let mut out: Vec<u8> = Vec::new();
    encode_compact_u32(v, &mut out);
    let (back, end) = decode_compact_u32(&out, 0).expect("compact decodes");
    assert_eq!(back, v);
    assert_eq!(end, out.len());
}

#[test]
fn compact_u32_roundtrip_at_width_boundaries() {
    for v in [0u32, 1, 63, 64, 16_383, 16_384, 0x3FFF_FFFF, 0x4000_0000, u32::MAX] {
        compact_roundtrip(v);
    }
}

#[test]
fn compact_u32_width_matches_value_range() {
    let mut one: Vec<u8> = Vec::new();
    encode_compact_u32(63, &mut one);
    assert_eq!(one.len(), 1);
    let mut two: Vec<u8> = Vec::new();
    encode_compact_u32(64, &mut two);
    assert_eq!(two.len(), 2);
    let mut four: Vec<u8> = Vec::new();
    encode_compact_u32(16_384, &mut four);
    assert_eq!(four.len(), 4);
    let mut five: Vec<u8> = Vec::new();
    encode_compact_u32(0x4000_0000, &mut five);
    assert_eq!(five.len(), 5);
}

#[test]
fn compact_decode_rejects_truncated_input() {
    let mut out: Vec<u8> = Vec::new();
    encode_compact_u32(16_384, &mut out);
    out.truncate(2);
    assert!(decode_compact_u32(&out, 0).is_none());
    assert!(decode_compact_u32(&Vec::new(), 0).is_none());
}

#[test]
fn little_endian_integers_roundtrip() {
    for v in [0u128, 1, 255, 256, u64::MAX as u128, u128::MAX] {
        let mut out: Vec<u8> = Vec::new();
        encode_le(v, 16, &mut out);
        assert_eq!(out.len(), 16);
        let (back, end) = decode_le(&out, 0, 16).unwrap();
        assert_eq!(back, v);
        assert_eq!(end, 16);
    }
}

#[test]
fn little_endian_u32_layout_is_low_byte_first() {
    let mut out: Vec<u8> = Vec::new();
    encode_le(0x0403_0201, 4, &mut out);
    assert_eq!(out, vec![0x01, 0x02, 0x03, 0x04]);
}

#[test]
fn strings_roundtrip_with_length_prefix() {
    for text in ["", "doc", "a longer claim with spaces", "snowman \u{2603} claim"] {
        let mut out: Vec<u8> = Vec::new();
        encode_string(&text.to_string(), &mut out);
        let (back, end) = decode_string(&out, 0).expect("string decodes");
        assert_eq!(back, text);
        assert_eq!(end, out.len());
    }
}

#[test]
fn string_decode_rejects_invalid_utf8() {
    // A length prefix of 2 followed by an invalid UTF-8 sequence.
    let bytes: Vec<u8> = vec![2 << 2, 0xC0, 0x20];
    assert!(decode_string(&bytes, 0).is_none());
}

#[test]
fn account_hex_roundtrip() {
    let a = Alice.public();
    let hex_bytes = account_to_hex(&a);
    let s = String::from_utf8(hex_bytes).unwrap();
    assert_eq!(s.len(), 64);
    assert_eq!(account_from_hex(&s), Some(a));
    assert_eq!(account_from_hex(&s.to_uppercase()), Some(a));
    assert_eq!(account_from_hex("zz"), None);
    assert_eq!(account_from_hex(&s[..62]), None);
}
