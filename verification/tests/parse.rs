use fixed::from_str::{
    from_str_i128, from_str_i16, from_str_i32, from_str_i64, from_str_i8, from_str_u128,
    from_str_u16, from_str_u32, from_str_u64, from_str_u8, parse_bounds, Parse, ParseErrorKind,
    ParseFixedError,
};

fn ok_i8(s: &str, radix: u32, i: u32, f: u32, bits: i8) {
    assert_eq!(from_str_i8(s.as_bytes(), radix, i, f), Ok(bits), "parsing {}", s);
}
fn er_i8(s: &str, radix: u32, i: u32, f: u32, kind: ParseErrorKind) {
    assert_eq!(from_str_i8(s.as_bytes(), radix, i, f), Err(ParseFixedError { kind }));
}
fn ok_u8(s: &str, radix: u32, i: u32, f: u32, bits: u8) {
    assert_eq!(from_str_u8(s.as_bytes(), radix, i, f), Ok(bits), "parsing {}", s);
}
fn er_u8(s: &str, radix: u32, i: u32, f: u32, kind: ParseErrorKind) {
    assert_eq!(from_str_u8(s.as_bytes(), radix, i, f), Err(ParseFixedError { kind }));
}
fn ok_i16(s: &str, radix: u32, i: u32, f: u32, bits: i16) {
    assert_eq!(from_str_i16(s.as_bytes(), radix, i, f), Ok(bits), "parsing {}", s);
}
fn er_i16(s: &str, radix: u32, i: u32, f: u32, kind: ParseErrorKind) {
    assert_eq!(from_str_i16(s.as_bytes(), radix, i, f), Err(ParseFixedError { kind }));
}
fn ok_u16(s: &str, radix: u32, i: u32, f: u32, bits: u16) {
    assert_eq!(from_str_u16(s.as_bytes(), radix, i, f), Ok(bits), "parsing {}", s);
}
fn er_u16(s: &str, radix: u32, i: u32, f: u32, kind: ParseErrorKind) {
    assert_eq!(from_str_u16(s.as_bytes(), radix, i, f), Err(ParseFixedError { kind }));
}
fn ok_i32(s: &str, radix: u32, i: u32, f: u32, bits: i32) {
    assert_eq!(from_str_i32(s.as_bytes(), radix, i, f), Ok(bits), "parsing {}", s);
}
fn er_i32(s: &str, radix: u32, i: u32, f: u32, kind: ParseErrorKind) {
    assert_eq!(from_str_i32(s.as_bytes(), radix, i, f), Err(ParseFixedError { kind }));
}
fn ok_u32(s: &str, radix: u32, i: u32, f: u32, bits: u32) {
    assert_eq!(from_str_u32(s.as_bytes(), radix, i, f), Ok(bits), "parsing {}", s);
}
fn er_u32(s: &str, radix: u32, i: u32, f: u32, kind: ParseErrorKind) {
    assert_eq!(from_str_u32(s.as_bytes(), radix, i, f), Err(ParseFixedError { kind }));
}
fn ok_i64(s: &str, radix: u32, i: u32, f: u32, bits: i64) {
    assert_eq!(from_str_i64(s.as_bytes(), radix, i, f), Ok(bits), "parsing {}", s);
}
fn er_i64(s: &str, radix: u32, i: u32, f: u32, kind: ParseErrorKind) {
    assert_eq!(from_str_i64(s.as_bytes(), radix, i, f), Err(ParseFixedError { kind }));
}
fn ok_u64(s: &str, radix: u32, i: u32, f: u32, bits: u64) {
    assert_eq!(from_str_u64(s.as_bytes(), radix, i, f), Ok(bits), "parsing {}", s);
}
fn er_u64(s: &str, radix: u32, i: u32, f: u32, kind: ParseErrorKind) {
    assert_eq!(from_str_u64(s.as_bytes(), radix, i, f), Err(ParseFixedError { kind }));
}
fn ok_i128(s: &str, radix: u32, i: u32, f: u32, bits: i128) {
    assert_eq!(from_str_i128(s.as_bytes(), radix, i, f), Ok(bits), "parsing {}", s);
}
fn er_i128(s: &str, radix: u32, i: u32, f: u32, kind: ParseErrorKind) {
    assert_eq!(from_str_i128(s.as_bytes(), radix, i, f), Err(ParseFixedError { kind }));
}
fn ok_u128(s: &str, radix: u32, i: u32, f: u32, bits: u128) {
    assert_eq!(from_str_u128(s.as_bytes(), radix, i, f), Ok(bits), "parsing {}", s);
}
fn er_u128(s: &str, radix: u32, i: u32, f: u32, kind: ParseErrorKind) {
    assert_eq!(from_str_u128(s.as_bytes(), radix, i, f), Err(ParseFixedError { kind }));
}

#[test]
fn check_parse_bounds() {
    let Parse { neg, int, frac } = parse_bounds(b"-12.34", true, 10).unwrap();
    assert_eq!((neg, int, frac), (true, &b"12"[..], &b"34"[..]));
    let Parse { neg, int, frac } = parse_bounds(b"012.", true, 10).unwrap();
    assert_eq!((neg, int, frac), (false, &b"12"[..], &b""[..]));
    let Parse { neg, int, frac } = parse_bounds(b"+.340", false, 10).unwrap();
    assert_eq!((neg, int, frac), (false, &b""[..], &b"34"[..]));
    let Parse { neg, int, frac } = parse_bounds(b"0", false, 10).unwrap();
    assert_eq!((neg, int, frac), (false, &b""[..], &b""[..]));
    let Parse { neg, int, frac } = parse_bounds(b"-.C1A0", true, 16).unwrap();
    assert_eq!((neg, int, frac), (true, &b""[..], &b"C1A"[..]));

    let ParseFixedError { kind } = parse_bounds(b"0 ", true, 10).unwrap_err();
    assert_eq!(kind, ParseErrorKind::InvalidDigit);
    let ParseFixedError { kind } = parse_bounds(b"+.", true, 10).unwrap_err();
    assert_eq!(kind, ParseErrorKind::NoDigits);
    let ParseFixedError { kind } = parse_bounds(b".1.", true, 10).unwrap_err();
    assert_eq!(kind, ParseErrorKind::TooManyPoints);
    let ParseFixedError { kind } = parse_bounds(b"1+2", true, 10).unwrap_err();
    assert_eq!(kind, ParseErrorKind::InvalidDigit);
    let ParseFixedError { kind } = parse_bounds(b"1-2", true, 10).unwrap_err();
    assert_eq!(kind, ParseErrorKind::InvalidDigit);
    let ParseFixedError { kind } = parse_bounds(b"-12", false, 10).unwrap_err();
    assert_eq!(kind, ParseErrorKind::InvalidDigit);
}

#[test]
fn check_i8_u8_from_str() {
    er_i8("-1", 10, 0, 8, ParseErrorKind::Overflow);
    er_i8("-0.502", 10, 0, 8, ParseErrorKind::Overflow);
    ok_i8("-0.501", 10, 0, 8, -0x80);
    ok_i8("0.498", 10, 0, 8, 0x7F);
    er_i8("0.499", 10, 0, 8, ParseErrorKind::Overflow);
    er_i8("1", 10, 0, 8, ParseErrorKind::Overflow);

    er_i8("-8.04", 10, 4, 4, ParseErrorKind::Overflow);
    ok_i8("-8.03", 10, 4, 4, -0x80);
    ok_i8("7.96", 10, 4, 4, 0x7F);
    er_i8("7.97", 10, 4, 4, ParseErrorKind::Overflow);

    er_i8("-128.501", 10, 8, 0, ParseErrorKind::Overflow);
    // exact tie, round up to even
    ok_i8("-128.5", 10, 8, 0, -0x80);
    ok_i8("127.499", 10, 8, 0, 0x7F);
    // exact tie, round up to even
    er_i8("127.5", 10, 8, 0, ParseErrorKind::Overflow);

    er_u8("-0", 10, 0, 8, ParseErrorKind::InvalidDigit);
    ok_u8("0.498", 10, 0, 8, 0x7F);
    ok_u8("0.499", 10, 0, 8, 0x80);
    ok_u8("0.998", 10, 0, 8, 0xFF);
    er_u8("0.999", 10, 0, 8, ParseErrorKind::Overflow);
    er_u8("1", 10, 0, 8, ParseErrorKind::Overflow);

    ok_u8("7.96", 10, 4, 4, 0x7F);
    ok_u8("7.97", 10, 4, 4, 0x80);
    ok_u8("15.96", 10, 4, 4, 0xFF);
    er_u8("15.97", 10, 4, 4, ParseErrorKind::Overflow);

    ok_u8("127.499", 10, 8, 0, 0x7F);
    // exact tie, round up to even
    ok_u8("127.5", 10, 8, 0, 0x80);
    ok_u8("255.499", 10, 8, 0, 0xFF);
    // exact tie, round up to even
    er_u8("255.5", 10, 8, 0, ParseErrorKind::Overflow);
}

#[test]
fn check_i16_u16_from_str() {
    er_i16("-1", 10, 0, 16, ParseErrorKind::Overflow);
    er_i16("-0.500008", 10, 0, 16, ParseErrorKind::Overflow);
    ok_i16("-0.500007", 10, 0, 16, -0x8000);
    ok_i16("+0.499992", 10, 0, 16, 0x7FFF);
    er_i16("+0.499993", 10, 0, 16, ParseErrorKind::Overflow);
    er_i16("1", 10, 0, 16, ParseErrorKind::Overflow);

    er_i16("-128.002", 10, 8, 8, ParseErrorKind::Overflow);
    ok_i16("-128.001", 10, 8, 8, -0x8000);
    ok_i16("+127.998", 10, 8, 8, 0x7FFF);
    er_i16("+127.999", 10, 8, 8, ParseErrorKind::Overflow);

    er_i16("-32768.500001", 10, 16, 0, ParseErrorKind::Overflow);
    // exact tie, round up to even
    ok_i16("-32768.5", 10, 16, 0, -0x8000);
    ok_i16("+32767.499999", 10, 16, 0, 0x7FFF);
    // exact tie, round up to even
    er_i16("+32767.5", 10, 16, 0, ParseErrorKind::Overflow);

    er_u16("-0", 10, 0, 16, ParseErrorKind::InvalidDigit);
    ok_u16("0.499992", 10, 0, 16, 0x7FFF);
    ok_u16("0.499993", 10, 0, 16, 0x8000);
    ok_u16("0.999992", 10, 0, 16, 0xFFFF);
    er_u16("0.999993", 10, 0, 16, ParseErrorKind::Overflow);
    er_u16("1", 10, 0, 16, ParseErrorKind::Overflow);

    ok_u16("127.998", 10, 8, 8, 0x7FFF);
    ok_u16("127.999", 10, 8, 8, 0x8000);
    ok_u16("255.998", 10, 8, 8, 0xFFFF);
    er_u16("255.999", 10, 8, 8, ParseErrorKind::Overflow);

    ok_u16("32767.499999", 10, 16, 0, 0x7FFF);
    // exact tie, round up to even
    ok_u16("32767.5", 10, 16, 0, 0x8000);
    ok_u16("65535.499999", 10, 16, 0, 0xFFFF);
    // exact tie, round up to even
    er_u16("65535.5", 10, 16, 0, ParseErrorKind::Overflow);
}

#[test]
fn check_i32_u32_from_str() {
    er_i32("-1", 10, 0, 32, ParseErrorKind::Overflow);
    er_i32("-0.5000000002", 10, 0, 32, ParseErrorKind::Overflow);
    ok_i32("-0.5000000001", 10, 0, 32, -0x8000_0000);
    ok_i32("0.4999999998", 10, 0, 32, 0x7FFF_FFFF);
    er_i32("0.4999999999", 10, 0, 32, ParseErrorKind::Overflow);
    er_i32("1", 10, 0, 32, ParseErrorKind::Overflow);

    er_i32("-32768.000008", 10, 16, 16, ParseErrorKind::Overflow);
    ok_i32("-32768.000007", 10, 16, 16, -0x8000_0000);
    ok_i32("32767.999992", 10, 16, 16, 0x7FFF_FFFF);
    er_i32("32767.999993", 10, 16, 16, ParseErrorKind::Overflow);

    er_i32("-2147483648.5000000001", 10, 32, 0, ParseErrorKind::Overflow);
    // exact tie, round up to even
    ok_i32("-2147483648.5", 10, 32, 0, -0x8000_0000);
    ok_i32("2147483647.4999999999", 10, 32, 0, 0x7FFF_FFFF);
    // exact tie, round up to even
    er_i32("2147483647.5", 10, 32, 0, ParseErrorKind::Overflow);

    er_u32("-0", 10, 0, 32, ParseErrorKind::InvalidDigit);
    ok_u32("0.4999999998", 10, 0, 32, 0x7FFF_FFFF);
    ok_u32("0.4999999999", 10, 0, 32, 0x8000_0000);
    ok_u32("0.9999999998", 10, 0, 32, 0xFFFF_FFFF);
    er_u32("0.9999999999", 10, 0, 32, ParseErrorKind::Overflow);
    er_u32("1", 10, 0, 32, ParseErrorKind::Overflow);

    ok_u32("32767.999992", 10, 16, 16, 0x7FFF_FFFF);
    ok_u32("32767.999993", 10, 16, 16, 0x8000_0000);
    ok_u32("65535.999992", 10, 16, 16, 0xFFFF_FFFF);
    er_u32("65535.999993", 10, 16, 16, ParseErrorKind::Overflow);

    ok_u32("2147483647.4999999999", 10, 32, 0, 0x7FFF_FFFF);
    // exact tie, round up to even
    ok_u32("2147483647.5", 10, 32, 0, 0x8000_0000);
    ok_u32("4294967295.4999999999", 10, 32, 0, 0xFFFF_FFFF);
    // exact tie, round up to even
    er_u32("4294967295.5", 10, 32, 0, ParseErrorKind::Overflow);
}

#[test]
fn check_i16_u16_from_str_binary() {
    er_i16("-1", 2, 0, 16, ParseErrorKind::Overflow);
    er_i16("-0.100000000000000011", 2, 0, 16, ParseErrorKind::Overflow);
    ok_i16("-0.100000000000000010", 2, 0, 16, -0x8000);
    ok_i16("-0.011111111111111110", 2, 0, 16, -0x8000);
    ok_i16("+0.011111111111111101", 2, 0, 16, 0x7FFF);
    er_i16("+0.011111111111111110", 2, 0, 16, ParseErrorKind::Overflow);
    er_i16("1", 2, 0, 16, ParseErrorKind::Overflow);

    er_i16("-10000000.0000000011", 2, 8, 8, ParseErrorKind::Overflow);
    ok_i16("-10000000.0000000010", 2, 8, 8, -0x8000);
    ok_i16("-01111111.1111111110", 2, 8, 8, -0x8000);
    ok_i16("+01111111.1111111101", 2, 8, 8, 0x7FFF);
    er_i16("+01111111.1111111110", 2, 8, 8, ParseErrorKind::Overflow);

    er_i16("-1000000000000000.11", 2, 16, 0, ParseErrorKind::Overflow);
    ok_i16("-1000000000000000.10", 2, 16, 0, -0x8000);
    ok_i16("-0111111111111111.10", 2, 16, 0, -0x8000);
    ok_i16("+0111111111111111.01", 2, 16, 0, 0x7FFF);
    er_i16("+0111111111111111.10", 2, 16, 0, ParseErrorKind::Overflow);

    er_u16("-0", 2, 0, 16, ParseErrorKind::InvalidDigit);
    ok_u16("0.011111111111111101", 2, 0, 16, 0x7FFF);
    ok_u16("0.011111111111111110", 2, 0, 16, 0x8000);
    ok_u16("0.111111111111111101", 2, 0, 16, 0xFFFF);
    er_u16("0.111111111111111110", 2, 0, 16, ParseErrorKind::Overflow);
    er_u16("1", 2, 0, 16, ParseErrorKind::Overflow);

    ok_u16("01111111.1111111101", 2, 8, 8, 0x7FFF);
    ok_u16("01111111.1111111110", 2, 8, 8, 0x8000);
    ok_u16("11111111.1111111101", 2, 8, 8, 0xFFFF);
    er_u16("11111111.1111111110", 2, 8, 8, ParseErrorKind::Overflow);

    ok_u16("0111111111111111.01", 2, 16, 0, 0x7FFF);
    ok_u16("0111111111111111.10", 2, 16, 0, 0x8000);
    ok_u16("1111111111111111.01", 2, 16, 0, 0xFFFF);
    er_u16("1111111111111111.10", 2, 16, 0, ParseErrorKind::Overflow);
}

#[test]
fn check_i16_u16_from_str_octal() {
    er_i16("-1", 8, 0, 16, ParseErrorKind::Overflow);
    er_i16("-0.400003", 8, 0, 16, ParseErrorKind::Overflow);
    ok_i16("-0.400002", 8, 0, 16, -0x8000);
    ok_i16("-0.377776", 8, 0, 16, -0x8000);
    ok_i16("+0.377775", 8, 0, 16, 0x7FFF);
    er_i16("+0.377776", 8, 0, 16, ParseErrorKind::Overflow);
    er_i16("1", 8, 0, 16, ParseErrorKind::Overflow);

    er_i16("-200.0011", 8, 8, 8, ParseErrorKind::Overflow);
    ok_i16("-200.0010", 8, 8, 8, -0x8000);
    ok_i16("-177.7770", 8, 8, 8, -0x8000);
    ok_i16("+177.7767", 8, 8, 8, 0x7FFF);
    er_i16("+177.7770", 8, 8, 8, ParseErrorKind::Overflow);

    er_i16("-100000.5", 8, 16, 0, ParseErrorKind::Overflow);
    ok_i16("-100000.4", 8, 16, 0, -0x8000);
    ok_i16("-077777.4", 8, 16, 0, -0x8000);
    ok_i16("+077777.3", 8, 16, 0, 0x7FFF);
    er_i16("+077777.4", 8, 16, 0, ParseErrorKind::Overflow);

    er_u16("-0", 8, 0, 16, ParseErrorKind::InvalidDigit);
    ok_u16("0.377775", 8, 0, 16, 0x7FFF);
    ok_u16("0.377776", 8, 0, 16, 0x8000);
    ok_u16("0.777775", 8, 0, 16, 0xFFFF);
    er_u16("0.777776", 8, 0, 16, ParseErrorKind::Overflow);
    er_u16("1", 8, 0, 16, ParseErrorKind::Overflow);

    ok_u16("177.7767", 8, 8, 8, 0x7FFF);
    ok_u16("177.7770", 8, 8, 8, 0x8000);
    ok_u16("377.7767", 8, 8, 8, 0xFFFF);
    er_u16("377.7770", 8, 8, 8, ParseErrorKind::Overflow);

    ok_u16("077777.3", 8, 16, 0, 0x7FFF);
    ok_u16("077777.4", 8, 16, 0, 0x8000);
    ok_u16("177777.3", 8, 16, 0, 0xFFFF);
    er_u16("177777.4", 8, 16, 0, ParseErrorKind::Overflow);
}

#[test]
fn check_i16_u16_from_str_hex() {
    er_i16("-1", 16, 0, 16, ParseErrorKind::Overflow);
    er_i16("-0.80009", 16, 0, 16, ParseErrorKind::Overflow);
    ok_i16("-0.80008", 16, 0, 16, -0x8000);
    ok_i16("-0.7FFF8", 16, 0, 16, -0x8000);
    ok_i16("+0.7FFF7", 16, 0, 16, 0x7FFF);
    er_i16("+0.7FFF8", 16, 0, 16, ParseErrorKind::Overflow);
    er_i16("1", 16, 0, 16, ParseErrorKind::Overflow);

    er_i16("-80.009", 16, 8, 8, ParseErrorKind::Overflow);
    ok_i16("-80.008", 16, 8, 8, -0x8000);
    ok_i16("-7F.FF8", 16, 8, 8, -0x8000);
    ok_i16("+7F.FF7", 16, 8, 8, 0x7FFF);
    er_i16("+7F.FF8", 16, 8, 8, ParseErrorKind::Overflow);

    er_i16("-8000.9", 16, 16, 0, ParseErrorKind::Overflow);
    ok_i16("-8000.8", 16, 16, 0, -0x8000);
    ok_i16("-7FFF.8", 16, 16, 0, -0x8000);
    ok_i16("+7FFF.7", 16, 16, 0, 0x7FFF);
    er_i16("+7FFF.8", 16, 16, 0, ParseErrorKind::Overflow);

    er_u16("-0", 16, 0, 16, ParseErrorKind::InvalidDigit);
    ok_u16("0.7FFF7", 16, 0, 16, 0x7FFF);
    ok_u16("0.7FFF8", 16, 0, 16, 0x8000);
    ok_u16("0.FFFF7", 16, 0, 16, 0xFFFF);
    er_u16("0.FFFF8", 16, 0, 16, ParseErrorKind::Overflow);
    er_u16("1", 16, 0, 16, ParseErrorKind::Overflow);

    ok_u16("7F.FF7", 16, 8, 8, 0x7FFF);
    ok_u16("7F.FF8", 16, 8, 8, 0x8000);
    ok_u16("FF.FF7", 16, 8, 8, 0xFFFF);
    er_u16("FF.FF8", 16, 8, 8, ParseErrorKind::Overflow);

    ok_u16("7FFF.7", 16, 16, 0, 0x7FFF);
    ok_u16("7FFF.8", 16, 16, 0, 0x8000);
    ok_u16("FFFF.7", 16, 16, 0, 0xFFFF);
    er_u16("FFFF.8", 16, 16, 0, ParseErrorKind::Overflow);
}

#[test]
fn check_i64_u64_from_str() {
    er_i64("-1", 10, 0, 64, ParseErrorKind::Overflow);
    er_i64("-0.50000000000000000003", 10, 0, 64, ParseErrorKind::Overflow);
    ok_i64("-0.50000000000000000002", 10, 0, 64, -0x8000_0000_0000_0000);
    ok_i64("0.49999999999999999997", 10, 0, 64, 0x7FFF_FFFF_FFFF_FFFF);
    er_i64("0.49999999999999999998", 10, 0, 64, ParseErrorKind::Overflow);
    er_i64("1", 10, 0, 64, ParseErrorKind::Overflow);

    er_i64("-2147483648.0000000002", 10, 32, 32, ParseErrorKind::Overflow);
    ok_i64("-2147483648.0000000001", 10, 32, 32, -0x8000_0000_0000_0000);
    ok_i64("2147483647.9999999998", 10, 32, 32, 0x7FFF_FFFF_FFFF_FFFF);
    er_i64("2147483647.9999999999", 10, 32, 32, ParseErrorKind::Overflow);

    er_i64("-9223372036854775808.50000000000000000001", 10, 64, 0, ParseErrorKind::Overflow);
    // exact tie, round up to even
    ok_i64("-9223372036854775808.5", 10, 64, 0, -0x8000_0000_0000_0000);
    ok_i64("9223372036854775807.49999999999999999999", 10, 64, 0, 0x7FFF_FFFF_FFFF_FFFF);
    // exact tie, round up to even
    er_i64("9223372036854775807.5", 10, 64, 0, ParseErrorKind::Overflow);

    er_u64("-0", 10, 0, 64, ParseErrorKind::InvalidDigit);
    ok_u64("0.49999999999999999997", 10, 0, 64, 0x7FFF_FFFF_FFFF_FFFF);
    ok_u64("0.49999999999999999998", 10, 0, 64, 0x8000_0000_0000_0000);
    ok_u64("0.99999999999999999997", 10, 0, 64, 0xFFFF_FFFF_FFFF_FFFF);
    er_u64("0.99999999999999999998", 10, 0, 64, ParseErrorKind::Overflow);
    er_u64("1", 10, 0, 64, ParseErrorKind::Overflow);

    ok_u64("2147483647.9999999998", 10, 32, 32, 0x7FFF_FFFF_FFFF_FFFF);
    ok_u64("2147483647.9999999999", 10, 32, 32, 0x8000_0000_0000_0000);
    ok_u64("4294967295.9999999998", 10, 32, 32, 0xFFFF_FFFF_FFFF_FFFF);
    er_u64("4294967295.9999999999", 10, 32, 32, ParseErrorKind::Overflow);

    ok_u64("9223372036854775807.49999999999999999999", 10, 64, 0, 0x7FFF_FFFF_FFFF_FFFF);
    // exact tie, round up to even
    ok_u64("9223372036854775807.5", 10, 64, 0, 0x8000_0000_0000_0000);
    ok_u64("18446744073709551615.49999999999999999999", 10, 64, 0, 0xFFFF_FFFF_FFFF_FFFF);
    // exact tie, round up to even
    er_u64("18446744073709551615.5", 10, 64, 0, ParseErrorKind::Overflow);
}

#[test]
fn check_i128_u128_from_str() {
    er_i128("-1", 10, 0, 128, ParseErrorKind::Overflow);
    er_i128("-0.500000000000000000000000000000000000002", 10, 0, 128, ParseErrorKind::Overflow);
    ok_i128(
        "-0.500000000000000000000000000000000000001",
        10,
        0,
        128,
        -0x8000_0000_0000_0000_0000_0000_0000_0000,
    );
    ok_i128(
        "0.499999999999999999999999999999999999998",
        10,
        0,
        128,
        0x7FFF_FFFF_FFFF_FFFF_FFFF_FFFF_FFFF_FFFF,
    );
    er_i128("0.499999999999999999999999999999999999999", 10, 0, 128, ParseErrorKind::Overflow);
    er_i128("1", 10, 0, 128, ParseErrorKind::Overflow);

    er_i128("-9223372036854775808.00000000000000000003", 10, 64, 64, ParseErrorKind::Overflow);
    ok_i128(
        "-9223372036854775808.00000000000000000002",
        10,
        64,
        64,
        -0x8000_0000_0000_0000_0000_0000_0000_0000,
    );
    ok_i128(
        "9223372036854775807.99999999999999999997",
        10,
        64,
        64,
        0x7FFF_FFFF_FFFF_FFFF_FFFF_FFFF_FFFF_FFFF,
    );
    er_i128("9223372036854775807.99999999999999999998", 10, 64, 64, ParseErrorKind::Overflow);

    // exact tie, round up to even
    er_i128(
        "-170141183460469231731687303715884105728.5000000000000000000000000000000000000001",
        10,
        128,
        0,
        ParseErrorKind::Overflow,
    );
    ok_i128(
        "-170141183460469231731687303715884105728.5",
        10,
        128,
        0,
        -0x8000_0000_0000_0000_0000_0000_0000_0000,
    );
    ok_i128(
        "170141183460469231731687303715884105727.4999999999999999999999999999999999999999",
        10,
        128,
        0,
        0x7FFF_FFFF_FFFF_FFFF_FFFF_FFFF_FFFF_FFFF,
    );
    // exact tie, round up to even
    er_i128("170141183460469231731687303715884105727.5", 10, 128, 0, ParseErrorKind::Overflow);

    er_u128("-0", 10, 0, 128, ParseErrorKind::InvalidDigit);
    ok_u128(
        "0.499999999999999999999999999999999999998",
        10,
        0,
        128,
        0x7FFF_FFFF_FFFF_FFFF_FFFF_FFFF_FFFF_FFFF,
    );
    ok_u128(
        "0.499999999999999999999999999999999999999",
        10,
        0,
        128,
        0x8000_0000_0000_0000_0000_0000_0000_0000,
    );
    ok_u128(
        "0.999999999999999999999999999999999999998",
        10,
        0,
        128,
        0xFFFF_FFFF_FFFF_FFFF_FFFF_FFFF_FFFF_FFFF,
    );
    er_u128("0.999999999999999999999999999999999999999", 10, 0, 128, ParseErrorKind::Overflow);
    er_u128("1", 10, 0, 128, ParseErrorKind::Overflow);

    ok_u128(
        "9223372036854775807.99999999999999999997",
        10,
        64,
        64,
        0x7FFF_FFFF_FFFF_FFFF_FFFF_FFFF_FFFF_FFFF,
    );
    ok_u128(
        "9223372036854775807.99999999999999999998",
        10,
        64,
        64,
        0x8000_0000_0000_0000_0000_0000_0000_0000,
    );
    ok_u128(
        "18446744073709551615.99999999999999999997",
        10,
        64,
        64,
        0xFFFF_FFFF_FFFF_FFFF_FFFF_FFFF_FFFF_FFFF,
    );
    er_u128("18446744073709551615.99999999999999999998", 10, 64, 64, ParseErrorKind::Overflow);

    ok_u128(
        "170141183460469231731687303715884105727.4999999999999999999999999999999999999999",
        10,
        128,
        0,
        0x7FFF_FFFF_FFFF_FFFF_FFFF_FFFF_FFFF_FFFF,
    );
    // exact tie, round up to even
    ok_u128(
        "170141183460469231731687303715884105727.5",
        10,
        128,
        0,
        0x8000_0000_0000_0000_0000_0000_0000_0000,
    );
    ok_u128(
        "340282366920938463463374607431768211455.4999999999999999999999999999999999999999",
        10,
        128,
        0,
        0xFFFF_FFFF_FFFF_FFFF_FFFF_FFFF_FFFF_FFFF,
    );
    // exact tie, round up to even
    er_u128("340282366920938463463374607431768211455.5", 10, 128, 0, ParseErrorKind::Overflow);
}

#[test]
fn check_i128_u128_from_str_hex() {
    er_i128("-1", 16, 0, 128, ParseErrorKind::Overflow);
    er_i128("-0.800000000000000000000000000000009", 16, 0, 128, ParseErrorKind::Overflow);
    ok_i128(
        "-0.800000000000000000000000000000008",
        16,
        0,
        128,
        -0x8000_0000_0000_0000_0000_0000_0000_0000,
    );
    ok_i128(
        "-0.7FFFFFFFFFFFFFFFFFFFFFFFFFFFFFFF8",
        16,
        0,
        128,
        -0x8000_0000_0000_0000_0000_0000_0000_0000,
    );
    ok_i128(
        "+0.7FFFFFFFFFFFFFFFFFFFFFFFFFFFFFFF7",
        16,
        0,
        128,
        0x7FFF_FFFF_FFFF_FFFF_FFFF_FFFF_FFFF_FFFF,
    );
    er_i128("+0.7FFFFFFFFFFFFFFFFFFFFFFFFFFFFFFF8", 16, 0, 128, ParseErrorKind::Overflow);
    er_i128("1", 16, 0, 128, ParseErrorKind::Overflow);

    er_i128("-8000000000000000.00000000000000009", 16, 64, 64, ParseErrorKind::Overflow);
    ok_i128(
        "-8000000000000000.00000000000000008",
        16,
        64,
        64,
        -0x8000_0000_0000_0000_0000_0000_0000_0000,
    );
    ok_i128(
        "-7FFFFFFFFFFFFFFF.FFFFFFFFFFFFFFFF8",
        16,
        64,
        64,
        -0x8000_0000_0000_0000_0000_0000_0000_0000,
    );
    ok_i128(
        "+7FFFFFFFFFFFFFFF.FFFFFFFFFFFFFFFF7",
        16,
        64,
        64,
        0x7FFF_FFFF_FFFF_FFFF_FFFF_FFFF_FFFF_FFFF,
    );
    er_i128("+7FFFFFFFFFFFFFFF.FFFFFFFFFFFFFFFF8", 16, 64, 64, ParseErrorKind::Overflow);

    er_i128("-80000000000000000000000000000000.9", 16, 128, 0, ParseErrorKind::Overflow);
    ok_i128(
        "-80000000000000000000000000000000.8",
        16,
        128,
        0,
        -0x8000_0000_0000_0000_0000_0000_0000_0000,
    );
    ok_i128(
        "-7FFFFFFFFFFFFFFFFFFFFFFFFFFFFFFF.8",
        16,
        128,
        0,
        -0x8000_0000_0000_0000_0000_0000_0000_0000,
    );
    ok_i128(
        "+7FFFFFFFFFFFFFFFFFFFFFFFFFFFFFFF.7",
        16,
        128,
        0,
        0x7FFF_FFFF_FFFF_FFFF_FFFF_FFFF_FFFF_FFFF,
    );
    er_i128("+7FFFFFFFFFFFFFFFFFFFFFFFFFFFFFFF.8", 16, 128, 0, ParseErrorKind::Overflow);

    er_u128("-0", 16, 0, 128, ParseErrorKind::InvalidDigit);
    ok_u128(
        "0.7FFFFFFFFFFFFFFFFFFFFFFFFFFFFFFF7",
        16,
        0,
        128,
        0x7FFF_FFFF_FFFF_FFFF_FFFF_FFFF_FFFF_FFFF,
    );
    ok_u128(
        "0.7FFFFFFFFFFFFFFFFFFFFFFFFFFFFFFF8",
        16,
        0,
        128,
        0x8000_0000_0000_0000_0000_0000_0000_0000,
    );
    ok_u128(
        "0.FFFFFFFFFFFFFFFFFFFFFFFFFFFFFFFF7",
        16,
        0,
        128,
        0xFFFF_FFFF_FFFF_FFFF_FFFF_FFFF_FFFF_FFFF,
    );
    er_u128("0.FFFFFFFFFFFFFFFFFFFFFFFFFFFFFFFF8", 16, 0, 128, ParseErrorKind::Overflow);
    er_u128("1", 16, 0, 128, ParseErrorKind::Overflow);

    ok_u128(
        "7FFFFFFFFFFFFFFF.FFFFFFFFFFFFFFFF7",
        16,
        64,
        64,
        0x7FFF_FFFF_FFFF_FFFF_FFFF_FFFF_FFFF_FFFF,
    );
    ok_u128(
        "7FFFFFFFFFFFFFFF.FFFFFFFFFFFFFFFF8",
        16,
        64,
        64,
        0x8000_0000_0000_0000_0000_0000_0000_0000,
    );
    ok_u128(
        "FFFFFFFFFFFFFFFF.FFFFFFFFFFFFFFFF7",
        16,
        64,
        64,
        0xFFFF_FFFF_FFFF_FFFF_FFFF_FFFF_FFFF_FFFF,
    );
    er_u128("FFFFFFFFFFFFFFFF.FFFFFFFFFFFFFFFF8", 16, 64, 64, ParseErrorKind::Overflow);

    ok_u128(
        "7FFFFFFFFFFFFFFFFFFFFFFFFFFFFFFF.7",
        16,
        128,
        0,
        0x7FFF_FFFF_FFFF_FFFF_FFFF_FFFF_FFFF_FFFF,
    );
    ok_u128(
        "7FFFFFFFFFFFFFFFFFFFFFFFFFFFFFFF.8",
        16,
        128,
        0,
        0x8000_0000_0000_0000_0000_0000_0000_0000,
    );
    ok_u128(
        "FFFFFFFFFFFFFFFFFFFFFFFFFFFFFFFF.7",
        16,
        128,
        0,
        0xFFFF_FFFF_FFFF_FFFF_FFFF_FFFF_FFFF_FFFF,
    );
    er_u128("FFFFFFFFFFFFFFFFFFFFFFFFFFFFFFFF.8", 16, 128, 0, ParseErrorKind::Overflow);
}

// For an odd prefix, e.g. eps = 0.125
// zero = 0.125
// gt_0 = 0.125000001
// max = max_int.874999999
// overflow = max_int.875
struct Fractions {
    zero: String,
    gt_0: String,
    max: String,
    over: String,
}
fn without_last(a: &str) -> &str {
    &a[..a.len() - 1]
}
fn make_fraction_strings(max_int: &str, eps_frac: &str) -> Fractions {
    let eps_frac_compl: String = eps_frac
        .chars()
        .map(|digit| (b'0' + b'9' - digit as u8) as char)
        .collect();

    let zero = String::from("0.") + eps_frac;
    let gt_0 = String::from(&zero) + "000001";
    let max = String::from(max_int) + &eps_frac_compl + "999999";
    let over = String::from(max_int) + without_last(&eps_frac_compl) + "5";
    Fractions { zero, gt_0, max, over }
}

// check that for example for four fractional bits,
//   * 0.03125 (1/32) is parsed as 0
//   * 0.03125000001 (just above 1/32) is parsed as 0.0625 (1/16)
//   * odd.96874999999 (just below 31/32) is parsed as 0.9375 (15/16)
//   * odd.96875 (31/32) is parsed as odd + 1
#[test]
fn check_exact_decimal() {
    let max_int_0 = String::from("0.");
    let max_int_4 = String::from("15.");
    let max_int_8 = format!("{}.", !0u8);
    let max_int_16 = format!("{}.", !0u16);
    let max_int_28 = format!("{}.", !0u32 >> 4);
    let max_int_32 = format!("{}.", !0u32);
    let max_int_64 = format!("{}.", !0u64);
    let max_int_124 = format!("{}.", !0u128 >> 4);
    let max_int_128 = format!("{}.", !0u128);

    // eps_0 = 0.5 >> 0 = 0.5
    // eps_4 = 0.5 >> 4 = 0.03125
    // eps_8 = 0.5 >> 8 = 0.001953125
    // etc.
    let eps_0 = "5";
    let eps_4 = "03125";
    let eps_8 = "001953125";
    let eps_16 = "00000762939453125";
    let eps_28 = "00000000186264514923095703125";
    let eps_32 = "000000000116415321826934814453125";
    let eps_64 = "00000000000000000002710505431213761085018632002174854278564453125";
    let eps_124 = "0000000000000000000000000000000000000235098870164457501593747307\
                   4444491355637331113544175043017503412556834518909454345703125";
    let eps_128 = "0000000000000000000000000000000000000014693679385278593849609206\
                   71527807097273331945965109401885939632848021574318408966064453125";

    let frac_0_8 = make_fraction_strings(&max_int_0, eps_8);
    ok_u8(&frac_0_8.zero, 10, 0, 8, 0);
    ok_u8(&frac_0_8.gt_0, 10, 0, 8, 1);
    ok_u8(&frac_0_8.max, 10, 0, 8, !0);
    er_u8(&frac_0_8.over, 10, 0, 8, ParseErrorKind::Overflow);

    let frac_4_4 = make_fraction_strings(&max_int_4, eps_4);
    ok_u8(&frac_4_4.zero, 10, 4, 4, 0);
    ok_u8(&frac_4_4.gt_0, 10, 4, 4, 1);
    ok_u8(&frac_4_4.max, 10, 4, 4, !0);
    er_u8(&frac_4_4.over, 10, 4, 4, ParseErrorKind::Overflow);

    let frac_8_0 = make_fraction_strings(&max_int_8, eps_0);
    ok_u8(&frac_8_0.zero, 10, 8, 0, 0);
    ok_u8(&frac_8_0.gt_0, 10, 8, 0, 1);
    ok_u8(&frac_8_0.max, 10, 8, 0, !0);
    er_u8(&frac_8_0.over, 10, 8, 0, ParseErrorKind::Overflow);

    let frac_0_32 = make_fraction_strings(&max_int_0, eps_32);
    ok_u32(&frac_0_32.zero, 10, 0, 32, 0);
    ok_u32(&frac_0_32.gt_0, 10, 0, 32, 1);
    ok_u32(&frac_0_32.max, 10, 0, 32, !0);
    er_u32(&frac_0_32.over, 10, 0, 32, ParseErrorKind::Overflow);

    let frac_4_28 = make_fraction_strings(&max_int_4, eps_28);
    ok_u32(&frac_4_28.zero, 10, 4, 28, 0);
    ok_u32(&frac_4_28.gt_0, 10, 4, 28, 1);
    ok_u32(&frac_4_28.max, 10, 4, 28, !0);
    er_u32(&frac_4_28.over, 10, 4, 28, ParseErrorKind::Overflow);

    let frac_16_16 = make_fraction_strings(&max_int_16, eps_16);
    ok_u32(&frac_16_16.zero, 10, 16, 16, 0);
    ok_u32(&frac_16_16.gt_0, 10, 16, 16, 1);
    ok_u32(&frac_16_16.max, 10, 16, 16, !0);
    er_u32(&frac_16_16.over, 10, 16, 16, ParseErrorKind::Overflow);

    let frac_28_4 = make_fraction_strings(&max_int_28, eps_4);
    ok_u32(&frac_28_4.zero, 10, 28, 4, 0);
    ok_u32(&frac_28_4.gt_0, 10, 28, 4, 1);
    ok_u32(&frac_28_4.max, 10, 28, 4, !0);
    er_u32(&frac_28_4.over, 10, 28, 4, ParseErrorKind::Overflow);

    let frac_32_0 = make_fraction_strings(&max_int_32, eps_0);
    ok_u32(&frac_32_0.zero, 10, 32, 0, 0);
    ok_u32(&frac_32_0.gt_0, 10, 32, 0, 1);
    ok_u32(&frac_32_0.max, 10, 32, 0, !0);
    er_u32(&frac_32_0.over, 10, 32, 0, ParseErrorKind::Overflow);

    let frac_0_128 = make_fraction_strings(&max_int_0, eps_128);
    ok_u128(&frac_0_128.zero, 10, 0, 128, 0);
    ok_u128(&frac_0_128.gt_0, 10, 0, 128, 1);
    ok_u128(&frac_0_128.max, 10, 0, 128, !0);
    er_u128(&frac_0_128.over, 10, 0, 128, ParseErrorKind::Overflow);

    let frac_4_124 = make_fraction_strings(&max_int_4, eps_124);
    ok_u128(&frac_4_124.zero, 10, 4, 124, 0);
    ok_u128(&frac_4_124.gt_0, 10, 4, 124, 1);
    ok_u128(&frac_4_124.max, 10, 4, 124, !0);
    er_u128(&frac_4_124.over, 10, 4, 124, ParseErrorKind::Overflow);

    let frac_64_64 = make_fraction_strings(&max_int_64, eps_64);
    ok_u128(&frac_64_64.zero, 10, 64, 64, 0);
    ok_u128(&frac_64_64.gt_0, 10, 64, 64, 1);
    ok_u128(&frac_64_64.max, 10, 64, 64, !0);
    er_u128(&frac_64_64.over, 10, 64, 64, ParseErrorKind::Overflow);

    let frac_124_4 = make_fraction_strings(&max_int_124, eps_4);
    ok_u128(&frac_124_4.zero, 10, 124, 4, 0);
    ok_u128(&frac_124_4.gt_0, 10, 124, 4, 1);
    ok_u128(&frac_124_4.max, 10, 124, 4, !0);
    er_u128(&frac_124_4.over, 10, 124, 4, ParseErrorKind::Overflow);

    let frac_128_0 = make_fraction_strings(&max_int_128, eps_0);
    ok_u128(&frac_128_0.zero, 10, 128, 0, 0);
    ok_u128(&frac_128_0.gt_0, 10, 128, 0, 1);
    ok_u128(&frac_128_0.max, 10, 128, 0, !0);
    er_u128(&frac_128_0.over, 10, 128, 0, ParseErrorKind::Overflow);

    // some other cases
    // 13/32 = 6.5/16, to even 6/16
    ok_u8("0.40624999999999999999999999999999999999999999999999", 10, 4, 4, 0x06);
    ok_u8("0.40625", 10, 4, 4, 0x06);
    ok_u8("0.40625000000000000000000000000000000000000000000001", 10, 4, 4, 0x07);
    // 14/32 = 7/16
    ok_u8("0.4375", 10, 4, 4, 0x07);
    // 15/32 = 7.5/16, to even 8/16
    ok_u8("0.46874999999999999999999999999999999999999999999999", 10, 4, 4, 0x07);
    ok_u8("0.46875", 10, 4, 4, 0x08);
    ok_u8("0.46875000000000000000000000000000000000000000000001", 10, 4, 4, 0x08);
    // 16/32 = 8/16
    ok_u8("0.5", 10, 4, 4, 0x08);
    // 17/32 = 8.5/16, to even 8/16
    ok_u8("0.53124999999999999999999999999999999999999999999999", 10, 4, 4, 0x08);
    ok_u8("0.53125", 10, 4, 4, 0x08);
    ok_u8("0.53125000000000000000000000000000000000000000000001", 10, 4, 4, 0x09);
    // 18/32 = 9/16
    ok_u8("0.5625", 10, 4, 4, 0x09);
}

#[test]
fn ties_round_to_even() {
    // an exact half with an even integer part stays put, an odd one rounds up
    ok_u8("127.5", 10, 8, 0, 0x80);
    ok_u8("126.5", 10, 8, 0, 0x7E);
}

#[test]
fn boundary_overflow() {
    // the raised tie at the very top of the range does not fit
    er_u8("255.5", 10, 8, 0, ParseErrorKind::Overflow);
    ok_u8("254.5", 10, 8, 0, 0xFE);
}

#[test]
fn exact_grid_values() {
    ok_u8("0.0625", 10, 4, 4, 1);
    ok_u8("0.03125", 10, 4, 4, 0);
    ok_u8("0.031250000000000000000000001", 10, 4, 4, 1);
}

#[test]
fn radix_equivalence() {
    assert_eq!(
        from_str_u8("7F.8".as_bytes(), 16, 8, 0),
        from_str_u8("127.5".as_bytes(), 10, 8, 0),
    );
    assert_eq!(
        from_str_u16("7F.8".as_bytes(), 16, 8, 8),
        from_str_u16("127.5".as_bytes(), 10, 8, 8),
    );
    assert_eq!(from_str_u16("127.5".as_bytes(), 10, 8, 8), Ok(0x7F80));
    assert_eq!(
        from_str_u16("1111111.1".as_bytes(), 2, 8, 8),
        from_str_u16("177.4".as_bytes(), 8, 8, 8),
    );
}

#[test]
fn error_kinds() {
    er_u8("1+2", 10, 4, 4, ParseErrorKind::InvalidDigit);
    er_u8("1.2.3", 10, 4, 4, ParseErrorKind::TooManyPoints);
    er_u8("+.", 10, 4, 4, ParseErrorKind::NoDigits);
    er_u8("-5", 10, 4, 4, ParseErrorKind::InvalidDigit);
    er_i8("", 10, 4, 4, ParseErrorKind::NoDigits);
    er_i8("1e5", 10, 4, 4, ParseErrorKind::InvalidDigit);
}

#[test]
fn error_messages() {
    assert_eq!(
        ParseFixedError { kind: ParseErrorKind::InvalidDigit }.message(),
        "invalid digit found in string",
    );
    assert_eq!(ParseFixedError { kind: ParseErrorKind::NoDigits }.message(), "string has no digits");
    assert_eq!(
        ParseFixedError { kind: ParseErrorKind::TooManyPoints }.message(),
        "more than one decimal point found in string",
    );
    assert_eq!(ParseFixedError { kind: ParseErrorKind::Overflow }.message(), "overflow");
}

#[test]
fn monotone_in_value() {
    // increasing real values never decrease the parsed pattern
    let inputs = ["0.4", "0.40624", "0.40625", "0.4375", "0.46875", "0.5", "7.96", "15.9"];
    let mut last = 0u8;
    for s in inputs {
        let v = from_str_u8(s.as_bytes(), 10, 4, 4).unwrap();
        assert!(v >= last, "{} fell below its predecessor", s);
        last = v;
    }
    let signed = ["-8.0", "-1.5", "-0.0625", "0", "0.0625", "3.5", "7.9"];
    let mut last = i8::MIN;
    for s in signed {
        let v = from_str_i8(s.as_bytes(), 10, 4, 4).unwrap();
        assert!(v >= last, "{} fell below its predecessor", s);
        last = v;
    }
}
