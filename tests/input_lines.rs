use keysplit::input::{hex_digit, parse_hex, parse_line, LineError};

#[test]
fn hex_digits_of_both_cases() {
    assert_eq!(hex_digit(b'0'), Some(0));
    assert_eq!(hex_digit(b'9'), Some(9));
    assert_eq!(hex_digit(b'a'), Some(10));
    assert_eq!(hex_digit(b'F'), Some(15));
    assert_eq!(hex_digit(b'g'), None);
    assert_eq!(hex_digit(b'x'), None);
}

#[test]
fn hex_numbers() {
    assert_eq!(parse_hex(b"00DEADBEEF"), Some(0xDE_ADBE_EF));
    assert_eq!(parse_hex(b"a85a692205"), Some(0xA8_5A69_2205));
    assert_eq!(parse_hex(b"+1f"), Some(0x1F));
    assert_eq!(parse_hex(b"FFFFFFFFFFFFFFFF"), Some(u64::MAX));
    assert_eq!(parse_hex(b"0000000000000000001"), Some(1));
    assert_eq!(parse_hex(b"10000000000000000"), None);
    assert_eq!(parse_hex(b""), None);
    assert_eq!(parse_hex(b"+"), None);
    assert_eq!(parse_hex(b"12 3"), None);
    assert_eq!(parse_hex(b"-1"), None);
}

#[test]
fn line_with_two_fields() {
    assert_eq!(parse_line(b"0x00DEADBEEF,0xA85A692205"), Ok((0xDE_ADBE_EF, 0xA8_5A69_2205)));
    assert_eq!(parse_line(b"0x01,0x02,anything"), Ok((1, 2)));
}

#[test]
fn line_errors() {
    assert_eq!(parse_line(b"0x12"), Err(LineError::MissingField));
    assert_eq!(parse_line(b"0,0x12"), Err(LineError::ShortField));
    assert_eq!(parse_line(b"0x12,0"), Err(LineError::ShortField));
    assert_eq!(parse_line(b"0x12,0x"), Err(LineError::BadCiphertext));
    assert_eq!(parse_line(b"0xZZ,0x12"), Err(LineError::BadPlaintext));
    assert_eq!(parse_line(b"0x12,0x1G"), Err(LineError::BadCiphertext));
}
