use station_stats::records::parse_measurement;
use station_stats::text::is_valid_utf8;
use station_stats::text::normalize_key;

#[test]
fn parses_plain_integers_and_decimals() {
    assert_eq!(parse_measurement(b"10"), Some(100_000));
    assert_eq!(parse_measurement(b"10.0"), Some(100_000));
    assert_eq!(parse_measurement(b"25.5"), Some(255_000));
    assert_eq!(parse_measurement(b"-5.5"), Some(-55_000));
    assert_eq!(parse_measurement(b"+3"), Some(30_000));
    assert_eq!(parse_measurement(b"0.25"), Some(2_500));
    assert_eq!(parse_measurement(b"-0.0001"), Some(-1));
    assert_eq!(parse_measurement(b"007"), Some(70_000));
}

#[test]
fn rejects_malformed_value_texts() {
    assert_eq!(parse_measurement(b""), None);
    assert_eq!(parse_measurement(b"-"), None);
    assert_eq!(parse_measurement(b"+"), None);
    assert_eq!(parse_measurement(b"abc"), None);
    assert_eq!(parse_measurement(b"5."), None);
    assert_eq!(parse_measurement(b".5"), None);
    assert_eq!(parse_measurement(b"1.2.3"), None);
    assert_eq!(parse_measurement(b"1e5"), None);
    assert_eq!(parse_measurement(b"1 2"), None);
    assert_eq!(parse_measurement(b"4.12345"), None);
    assert_eq!(parse_measurement(b"3\r"), None);
}

#[test]
fn rejects_values_out_of_range() {
    // the largest accepted magnitude, and one past it
    assert_eq!(parse_measurement(b"10000000000000"), Some(100_000_000_000_000_000));
    assert_eq!(parse_measurement(b"10000000000000.0001"), None);
    assert_eq!(parse_measurement(b"99999999999999999999"), None);
    assert_eq!(parse_measurement(b"-10000000000000"), Some(-100_000_000_000_000_000));
}

#[test]
fn utf8_validation_matches_the_standard_forms() {
    assert!(is_valid_utf8(b""));
    assert!(is_valid_utf8(b"plain ascii"));
    assert!(is_valid_utf8("käse".as_bytes()));
    assert!(is_valid_utf8("日本".as_bytes()));
    assert!(is_valid_utf8("🙂".as_bytes()));
    assert!(!is_valid_utf8(b"\xff"));
    assert!(!is_valid_utf8(b"\x80abc"));
    assert!(!is_valid_utf8(b"\xc0\xaf"));
    assert!(!is_valid_utf8(b"\xed\xa0\x80"));
    assert!(!is_valid_utf8(b"\xe2\x82"));
    assert_eq!(std::str::from_utf8(b"\xf4\x90\x80\x80").is_ok(), is_valid_utf8(b"\xf4\x90\x80\x80"));
}

#[test]
fn key_normalization_is_lenient() {
    assert_eq!(normalize_key(b"station"), b"station".to_vec());
    assert_eq!(normalize_key("zürich".as_bytes()), "zürich".as_bytes().to_vec());
    assert_eq!(normalize_key(b"\xff\xfe"), Vec::<u8>::new());
}
