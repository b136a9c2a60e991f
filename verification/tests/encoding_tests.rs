use blend_safe::encoding::{parse_u8_dec, u8_to_dec_string};

#[test]
fn parses_decimal_bytes_like_the_standard_parser() {
    assert_eq!(parse_u8_dec("0"), Some(0));
    assert_eq!(parse_u8_dec("7"), Some(7));
    assert_eq!(parse_u8_dec("42"), Some(42));
    assert_eq!(parse_u8_dec("255"), Some(255));
    assert_eq!(parse_u8_dec("007"), Some(7));
    assert_eq!(parse_u8_dec("+5"), Some(5));
    assert_eq!(parse_u8_dec("256"), None);
    assert_eq!(parse_u8_dec("9999999999999999"), None);
    assert_eq!(parse_u8_dec(""), None);
    assert_eq!(parse_u8_dec("+"), None);
    assert_eq!(parse_u8_dec("-1"), None);
    assert_eq!(parse_u8_dec("5a"), None);
    assert_eq!(parse_u8_dec(" 5"), None);
}

#[test]
fn prints_decimal_bytes_without_leading_zeros() {
    assert_eq!(u8_to_dec_string(0), "0".to_string());
    assert_eq!(u8_to_dec_string(9), "9".to_string());
    assert_eq!(u8_to_dec_string(10), "10".to_string());
    assert_eq!(u8_to_dec_string(99), "99".to_string());
    assert_eq!(u8_to_dec_string(100), "100".to_string());
    assert_eq!(u8_to_dec_string(255), "255".to_string());
}

#[test]
fn printed_bytes_parse_back() {
    for n in 0u8..=255 {
        assert_eq!(parse_u8_dec(&u8_to_dec_string(n)), Some(n));
    }
}
