use sailfish::be64::{push_u64_be, read_u64_be};
use sailfish::numstr::{format_u64, parse_u64};
use sailfish::token::{assemble_token, assemble_event_id, parse_token, parse_event_id};

#[test]
fn be64_roundtrip_exact_bytes() {
    let mut v: Vec<u8> = Vec::new();
    push_u64_be(&mut v, 0x0102030405060708);
    assert_eq!(v, vec![1, 2, 3, 4, 5, 6, 7, 8]);
    assert_eq!(read_u64_be(&v, 0), 0x0102030405060708);
    push_u64_be(&mut v, u64::MAX);
    assert_eq!(read_u64_be(&v, 8), u64::MAX);
    assert_eq!(&v[8..], &[0xff; 8]);
}

#[test]
fn format_u64_renders_decimal() {
    assert_eq!(format_u64(0), "0");
    assert_eq!(format_u64(7), "7");
    assert_eq!(format_u64(10), "10");
    assert_eq!(format_u64(1000000000), "1000000000");
    assert_eq!(format_u64(u64::MAX), "18446744073709551615");
}

#[test]
fn parse_u64_accepts_digits_only() {
    assert_eq!(parse_u64("0"), Some(0));
    assert_eq!(parse_u64("0013"), Some(13));
    assert_eq!(parse_u64("18446744073709551615"), Some(u64::MAX));
    assert_eq!(parse_u64("18446744073709551616"), None);
    assert_eq!(parse_u64(""), None);
    assert_eq!(parse_u64("12a"), None);
    assert_eq!(parse_u64("-1"), None);
    assert_eq!(parse_u64(" 5"), None);
}

#[test]
fn token_roundtrip_with_dashes_in_key() {
    let t = assemble_token(66, "0a1b2c3d-4e5f-6071-8293-a4b5c6d7e8f9");
    assert_eq!(t, "66-0a1b2c3d-4e5f-6071-8293-a4b5c6d7e8f9");
    let parsed = parse_token(&t).unwrap();
    assert_eq!(parsed.0, 66);
    assert_eq!(parsed.1, "0a1b2c3d-4e5f-6071-8293-a4b5c6d7e8f9");
}

#[test]
fn token_rejects_malformed() {
    assert!(parse_token("").is_none());
    assert!(parse_token("nodash").is_none());
    assert!(parse_token("-key").is_none());
    assert!(parse_token("5-").is_none());
    assert!(parse_token("x5-key").is_none());
    assert!(parse_token("99999999999999999999-key").is_none());
}

#[test]
fn event_id_roundtrip() {
    let id = assemble_event_id(13, 0);
    assert_eq!(id, "13-0");
    assert_eq!(parse_event_id(&id), Some((13, 0)));
    assert_eq!(parse_event_id("0-2"), Some((0, 2)));
    assert_eq!(parse_event_id("5-3-2"), None);
    assert_eq!(parse_event_id("13-"), None);
}
