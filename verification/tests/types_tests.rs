use replica_search::error::ErrorKind;
use replica_search::types::{DateTime, Epoch, InfoHash, NormalizedToken};

#[test]
fn test_parse_from_s3() {
    let parsed = DateTime::parse_from_s3("2020-01-30T10:32:16.123Z").expect("parses");
    println!("{:?}", parsed);
    assert_ne!(parsed, DateTime::now());
}

#[test]
fn parse_from_s3_exact_instant() {
    let parsed = DateTime::parse_from_s3("2020-01-30T10:32:16.123Z").expect("parses");
    assert_eq!(parsed.unix_secs, 1580380336);
    assert_eq!(parsed.subsec_nanos, 123_000_000);
}

#[test]
fn parse_from_s3_rejects_garbage() {
    assert_eq!(DateTime::parse_from_s3("not a timestamp"), Err(ErrorKind::Parse));
}

#[test]
fn datetime_from_epoch() {
    let t = DateTime::from_epoch(Epoch(1580380336));
    assert_eq!(t.unix_secs, 1580380336);
    assert_eq!(t.subsec_nanos, 0);
}

#[test]
fn infohash_wants_twenty_bytes() {
    assert!(InfoHash::new(vec![0u8; 19]).is_err());
    assert!(InfoHash::new(vec![0u8; 20]).is_ok());
}

#[test]
fn infohash_hex_is_lowercase_two_digits_per_byte() {
    let mut bytes = vec![0u8; 20];
    bytes[0] = 0xAB;
    bytes[1] = 0x01;
    bytes[19] = 0xFF;
    let h = InfoHash::new(bytes).unwrap();
    let hex = h.hex();
    assert_eq!(hex.len(), 40);
    assert!(hex.starts_with("ab01"));
    assert!(hex.ends_with("ff"));
    assert_eq!(&hex[4..38], "0000000000000000000000000000000000");
}

#[test]
fn normalize_folds_ascii_only() {
    assert_eq!(NormalizedToken::new("AbC09_Z").as_str(), "abc09_z");
    assert_eq!(NormalizedToken::new("ÜNT").as_str(), "Ünt");
    assert_eq!(NormalizedToken::new("").as_str(), "");
}
