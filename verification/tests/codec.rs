use slackbase::bytes::{bytes_equal, find_byte, has_byte, order_of, split_bytes, starts_with, Order};
use slackbase::codec::{decode, encode, is_valid_key, Record};
use slackbase::decimal::{format_u64, parse_u64};
use slackbase::types::Error;

#[test]
fn encode_put_without_expiry_ends_with_tab() {
    let r = Record::Put { key: b"k".to_vec(), value: b"dg==".to_vec(), expiry: None };
    assert_eq!(encode(&r), b"put\tk\tdg==\t".to_vec());
}

#[test]
fn encode_put_with_expiry_writes_decimal_seconds() {
    let r = Record::Put { key: b"k".to_vec(), value: b"dg==".to_vec(), expiry: Some(1700000000) };
    assert_eq!(encode(&r), b"put\tk\tdg==\t1700000000".to_vec());
}

#[test]
fn encode_del_has_one_field() {
    let r = Record::Del { key: b"gone".to_vec() };
    assert_eq!(encode(&r), b"del\tgone".to_vec());
}

#[test]
fn decode_gives_back_what_encode_wrote() {
    let r = Record::Put { key: b"user:1".to_vec(), value: b"QWxpY2U=".to_vec(), expiry: Some(42) };
    match decode(&encode(&r)) {
        Ok(Record::Put { key, value, expiry }) => {
            assert_eq!(key, b"user:1".to_vec());
            assert_eq!(value, b"QWxpY2U=".to_vec());
            assert_eq!(expiry, Some(42));
        }
        other => panic!("unexpected {:?}", other),
    }
    match decode(b"del\tuser:1") {
        Ok(Record::Del { key }) => assert_eq!(key, b"user:1".to_vec()),
        other => panic!("unexpected {:?}", other),
    }
}

#[test]
fn decode_put_with_empty_expiry_has_none() {
    match decode(b"put\tk\tdg==\t") {
        Ok(Record::Put { expiry, .. }) => assert_eq!(expiry, None),
        other => panic!("unexpected {:?}", other),
    }
}

#[test]
fn decode_rejects_unknown_lead_token() {
    assert!(matches!(decode(b"set\tk\tv\t"), Err(Error::InvalidRecord)));
    assert!(matches!(decode(b""), Err(Error::InvalidRecord)));
    assert!(matches!(decode(b"BEGIN"), Err(Error::InvalidRecord)));
}

#[test]
fn decode_rejects_wrong_field_counts() {
    assert!(matches!(decode(b"put\tk\tv"), Err(Error::InvalidRecord)));
    assert!(matches!(decode(b"put\tk\tv\t1\t2"), Err(Error::InvalidRecord)));
    assert!(matches!(decode(b"del"), Err(Error::InvalidRecord)));
    assert!(matches!(decode(b"del\tk\textra"), Err(Error::InvalidRecord)));
}

#[test]
fn decode_rejects_expiry_that_is_no_number() {
    assert!(matches!(decode(b"put\tk\tv\tsoon"), Err(Error::InvalidRecord)));
    assert!(matches!(decode(b"put\tk\tv\t18446744073709551616"), Err(Error::InvalidRecord)));
    assert!(matches!(decode(b"put\tk\tv\t-1"), Err(Error::InvalidRecord)));
}

#[test]
fn decode_rejects_key_that_is_not_utf8() {
    assert!(matches!(decode(b"del\t\xff\xfe"), Err(Error::InvalidRecord)));
    assert!(matches!(decode(b"put\t\xc3\tdg==\t"), Err(Error::InvalidRecord)));
}

#[test]
fn valid_keys_have_no_tab_and_no_newline() {
    assert!(is_valid_key(b"plain"));
    assert!(is_valid_key(b""));
    assert!(is_valid_key("caf\u{e9}".as_bytes()));
    assert!(!is_valid_key(b"a\tb"));
    assert!(!is_valid_key(b"a\nb"));
    assert!(!is_valid_key(b"\xff"));
}

#[test]
fn parse_u64_reads_plain_decimal() {
    assert_eq!(parse_u64(b"0"), Some(0));
    assert_eq!(parse_u64(b"007"), Some(7));
    assert_eq!(parse_u64(b"+5"), Some(5));
    assert_eq!(parse_u64(b"18446744073709551615"), Some(u64::MAX));
}

#[test]
fn parse_u64_rejects_what_is_no_number() {
    assert_eq!(parse_u64(b""), None);
    assert_eq!(parse_u64(b"+"), None);
    assert_eq!(parse_u64(b"12a"), None);
    assert_eq!(parse_u64(b" 1"), None);
    assert_eq!(parse_u64(b"-1"), None);
    assert_eq!(parse_u64(b"18446744073709551616"), None);
    assert_eq!(parse_u64(b"99999999999999999999999"), None);
}

#[test]
fn format_u64_writes_without_leading_zeros() {
    assert_eq!(format_u64(0), b"0".to_vec());
    assert_eq!(format_u64(9), b"9".to_vec());
    assert_eq!(format_u64(10), b"10".to_vec());
    assert_eq!(format_u64(1700000000), b"1700000000".to_vec());
    assert_eq!(format_u64(u64::MAX), b"18446744073709551615".to_vec());
}

#[test]
fn format_then_parse_is_identity() {
    for n in [0u64, 1, 9, 10, 99, 100, 12345, u64::MAX - 1, u64::MAX] {
        assert_eq!(parse_u64(&format_u64(n)), Some(n));
    }
}

#[test]
fn split_bytes_keeps_empty_pieces() {
    assert_eq!(split_bytes(b"a\tb\tc", 9), vec![b"a".to_vec(), b"b".to_vec(), b"c".to_vec()]);
    assert_eq!(split_bytes(b"", 9), vec![Vec::<u8>::new()]);
    assert_eq!(split_bytes(b"\t", 9), vec![Vec::<u8>::new(), Vec::<u8>::new()]);
    assert_eq!(split_bytes(b"a\t\tb\t", 9), vec![b"a".to_vec(), vec![], b"b".to_vec(), vec![]]);
}

#[test]
fn find_byte_gives_first_position_or_length() {
    assert_eq!(find_byte(b"hello", 0, b'l'), 2);
    assert_eq!(find_byte(b"hello", 3, b'l'), 3);
    assert_eq!(find_byte(b"hello", 4, b'l'), 5);
    assert_eq!(find_byte(b"", 0, b'l'), 0);
    assert!(has_byte(b"hello", b'o'));
    assert!(!has_byte(b"hello", b'x'));
}

#[test]
fn order_of_is_lexicographic_on_bytes() {
    assert_eq!(order_of(b"a", b"b"), Order::Before);
    assert_eq!(order_of(b"b", b"a"), Order::After);
    assert_eq!(order_of(b"a", b"a"), Order::Same);
    assert_eq!(order_of(b"", b"a"), Order::Before);
    assert_eq!(order_of(b"ab", b"a"), Order::After);
    assert_eq!(order_of(b"a\xff", b"b"), Order::Before);
    assert_eq!(order_of(b"Z", b"a"), Order::Before);
    assert!(bytes_equal(b"same", b"same"));
    assert!(!bytes_equal(b"same", b"sane"));
    assert!(!bytes_equal(b"same", b"sam"));
}

#[test]
fn starts_with_checks_prefix() {
    assert!(starts_with(b"user:1", b"user:"));
    assert!(starts_with(b"user:1", b""));
    assert!(starts_with(b"user:1", b"user:1"));
    assert!(!starts_with(b"user:1", b"user:12"));
    assert!(!starts_with(b"user:1", b"usr"));
}
