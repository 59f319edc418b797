use hft_broker::util::{parse_i64_with_precision, ParseError, MAX_SCALE};

#[test]
fn test_valid_integers() {
    assert_eq!(parse_i64_with_precision(b"123", 0, 2), Ok((12300, 3)));
    assert_eq!(parse_i64_with_precision(b"-123", 0, 2), Ok((-12300, 4)));
    assert_eq!(parse_i64_with_precision(b"0", 0, 2), Ok((0, 1)));
}

#[test]
fn test_valid_decimals() {
    assert_eq!(parse_i64_with_precision(b"1.23", 0, 2), Ok((123, 4)));
    assert_eq!(parse_i64_with_precision(b"-1.23", 0, 2), Ok((-123, 5)));
    assert_eq!(parse_i64_with_precision(b"1.2", 0, 2), Ok((120, 3)));
    assert_eq!(parse_i64_with_precision(b"1.234", 0, 2), Ok((123, 5)));
    assert_eq!(parse_i64_with_precision(b"1.a", 0, 2), Ok((100, 2)));
    assert_eq!(parse_i64_with_precision(b"1.", 0, 2), Ok((100, 2)));
    assert_eq!(parse_i64_with_precision(b"-.5", 0, 2), Ok((-50, 3)));
    assert_eq!(parse_i64_with_precision(b".5", 0, 2), Ok((50, 2)));
}

#[test]
fn test_terminators() {
    assert_eq!(parse_i64_with_precision(b"123,456", 0, 0), Ok((123, 3)));
    assert_eq!(parse_i64_with_precision(b"1.23,456", 0, 2), Ok((123, 4)));
}

#[test]
fn test_errors() {
    assert_eq!(parse_i64_with_precision(b"", 0, 2), Err(ParseError::EmptyInput));
    assert_eq!(parse_i64_with_precision(b"abc", 0, 2), Err(ParseError::InvalidFirstChar));
    assert_eq!(parse_i64_with_precision(b"-", 0, 2), Err(ParseError::NoDigits));
    assert_eq!(parse_i64_with_precision(b".", 0, 2), Err(ParseError::NoDigits));
    assert_eq!(parse_i64_with_precision(b"-.", 0, 2), Err(ParseError::NoDigits));
    assert_eq!(parse_i64_with_precision(b"1.2.3", 0, 2), Err(ParseError::InvalidTerminator));
    assert_eq!(parse_i64_with_precision(b"1-2", 0, 2), Err(ParseError::InvalidTerminator));
    assert_eq!(parse_i64_with_precision(b"1.2-3", 0, 2), Err(ParseError::InvalidTerminator));
}

#[test]
fn parses_field_and_reports_terminator() {
    assert_eq!(parse_i64_with_precision(b"45.67,next", 0, 4), Ok((456700, 5)));
    assert_eq!(parse_i64_with_precision(b"45.67,next_field", 0, 4), Ok((456_700, 5)));
    assert_eq!(parse_i64_with_precision(b"1.2", 0, 8), Ok((120_000_000, 3)));
}

#[test]
fn parses_from_an_offset() {
    let buffer = b"45.67,-0.125;9";
    assert_eq!(parse_i64_with_precision(buffer, 6, 2), Ok((-12, 12)));
    assert_eq!(parse_i64_with_precision(buffer, 13, 3), Ok((9000, 14)));
    assert_eq!(parse_i64_with_precision(buffer, 14, 3), Err(ParseError::EmptyInput));
    assert_eq!(parse_i64_with_precision(buffer, 99, 3), Err(ParseError::EmptyInput));
    assert_eq!(parse_i64_with_precision(buffer, 5, 3), Err(ParseError::InvalidFirstChar));
}

#[test]
fn rejects_other_grammars() {
    assert_eq!(parse_i64_with_precision(b"+1", 0, 2), Err(ParseError::InvalidFirstChar));
    assert_eq!(parse_i64_with_precision(b" 1", 0, 2), Err(ParseError::InvalidFirstChar));
    assert_eq!(parse_i64_with_precision(b"1e5", 0, 2), Ok((100, 1)));
    assert_eq!(parse_i64_with_precision(b"1,000", 0, 0), Ok((1, 1)));
    assert_eq!(parse_i64_with_precision(b"-x", 0, 2), Err(ParseError::NoDigits));
    assert_eq!(parse_i64_with_precision(b"--1", 0, 2), Err(ParseError::InvalidTerminator));
    assert_eq!(parse_i64_with_precision(b"..", 0, 2), Err(ParseError::InvalidTerminator));
    assert_eq!(parse_i64_with_precision(b"-.-", 0, 2), Err(ParseError::InvalidTerminator));
    assert_eq!(parse_i64_with_precision(b".x", 0, 2), Err(ParseError::NoDigits));
}

#[test]
fn truncates_and_pads_at_the_scale() {
    assert_eq!(parse_i64_with_precision(b"0.999", 0, 0), Ok((0, 5)));
    assert_eq!(parse_i64_with_precision(b"-0.999", 0, 1), Ok((-9, 6)));
    assert_eq!(parse_i64_with_precision(b"7", 0, 0), Ok((7, 1)));
    assert_eq!(parse_i64_with_precision(b"7", 0, MAX_SCALE), Ok((7_000_000_000_000_000, 1)));
    assert_eq!(
        parse_i64_with_precision(b"0.123456789012345678", 0, MAX_SCALE),
        Ok((123_456_789_012_345, 20))
    );
    assert_eq!(parse_i64_with_precision(b"00012.50", 0, 3), Ok((12500, 8)));
}

#[test]
fn largest_value_is_exact() {
    assert_eq!(parse_i64_with_precision(b"9223372036854775807", 0, 0), Ok((i64::MAX, 19)));
    assert_eq!(parse_i64_with_precision(b"-9223372036854775807", 0, 0), Ok((-i64::MAX, 20)));
    assert_eq!(parse_i64_with_precision(b"92233720368547.75807", 0, 5), Ok((i64::MAX, 20)));
}

#[test]
fn value_beyond_64_bits_wraps() {
    assert_eq!(parse_i64_with_precision(b"9223372036854775808", 0, 0), Ok((i64::MIN, 19)));
    assert_eq!(parse_i64_with_precision(b"18446744073709551617", 0, 0), Ok((1, 20)));
    assert_eq!(parse_i64_with_precision(b"-18446744073709551617", 0, 0), Ok((-1, 21)));
}
