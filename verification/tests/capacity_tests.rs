use farmcfg::capacity::{parse, ParseError};

#[test]
fn parse_decimal_units() {
    assert_eq!(parse("1500G"), Ok(1_500_000_000_000));
    assert_eq!(parse("1K"), Ok(1000));
    assert_eq!(parse("1KB"), Ok(1000));
    assert_eq!(parse("10MB"), Ok(10_000_000));
    assert_eq!(parse("2T"), Ok(2_000_000_000_000));
    assert_eq!(parse("1E"), Ok(1_000_000_000_000_000_000));
}

#[test]
fn parse_binary_units() {
    assert_eq!(parse("1Ki"), Ok(1024));
    assert_eq!(parse("1KiB"), Ok(1024));
    assert_eq!(parse("1Mi"), Ok(1_048_576));
    assert_eq!(parse("3GiB"), Ok(3 * 1_073_741_824));
    assert_eq!(parse("1Ei"), Ok(1_152_921_504_606_846_976));
}

#[test]
fn parse_bare_and_byte_suffix() {
    assert_eq!(parse("0"), Ok(0));
    assert_eq!(parse("100"), Ok(100));
    assert_eq!(parse("100B"), Ok(100));
    assert_eq!(parse("18446744073709551615"), Ok(u64::MAX));
}

#[test]
fn parse_case_insensitive_units() {
    assert_eq!(parse("1g"), Ok(1_000_000_000));
    assert_eq!(parse("1gb"), Ok(1_000_000_000));
    assert_eq!(parse("1gib"), Ok(1_073_741_824));
    assert_eq!(parse("1GIB"), Ok(1_073_741_824));
}

#[test]
fn parse_fractional_magnitudes() {
    assert_eq!(parse("1.5K"), Ok(1500));
    assert_eq!(parse("1.5Ki"), Ok(1536));
    assert_eq!(parse("0.5"), Ok(1));
    assert_eq!(parse("2.25M"), Ok(2_250_000));
    assert_eq!(parse("1.0005K"), Ok(1001));
}

#[test]
fn parse_malformed_inputs() {
    assert_eq!(parse(""), Err(ParseError::Malformed));
    assert_eq!(parse("G"), Err(ParseError::Malformed));
    assert_eq!(parse("-1G"), Err(ParseError::Malformed));
    assert_eq!(parse("1 G"), Err(ParseError::Malformed));
    assert_eq!(parse("1X"), Err(ParseError::Malformed));
    assert_eq!(parse("1.G"), Err(ParseError::Malformed));
    assert_eq!(parse("1.2.3"), Err(ParseError::Malformed));
    assert_eq!(parse("1K2"), Err(ParseError::Malformed));
    assert_eq!(parse("1Kib2"), Err(ParseError::Malformed));
    assert_eq!(parse("1.0000000000000000001"), Err(ParseError::Malformed));
}

#[test]
fn parse_overflow_inputs() {
    assert_eq!(parse("999999999999999999999G"), Err(ParseError::Overflow));
    assert_eq!(parse("18446744073709551616"), Err(ParseError::Overflow));
    assert_eq!(parse("20E"), Err(ParseError::Overflow));
    assert_eq!(parse("18446744073709551615.9"), Err(ParseError::Overflow));
}

#[test]
fn format_is_exact_bytes() {
    assert_eq!(farmcfg::capacity::format(0), "0B");
    assert_eq!(farmcfg::capacity::format(1500000000000), "1500000000000B");
    assert_eq!(farmcfg::capacity::format(u64::MAX), "18446744073709551615B");
}

#[test]
fn format_parse_round_trip() {
    for n in [0u64, 1, 9, 10, 1024, 1_500_000_000_000, u64::MAX] {
        assert_eq!(parse(&farmcfg::capacity::format(n)), Ok(n));
    }
}
