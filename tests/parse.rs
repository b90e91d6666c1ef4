use datetime_parse::parse::{u16, u16_4ne, u16_ne, u32, u32_ne, u8, u8_2ne, u8_ne};

#[test]
fn parse() {
    assert_eq!(Some(1234567890), u32("1234567890".as_bytes()));
    assert_eq!(None, u32("12345678?0".as_bytes()));

    assert_eq!(1234567890, u32_ne("1234567890".as_bytes()));

    assert_eq!(Some(65432u16), u16("65432".as_bytes()));
    assert_eq!(65432u16, u16_ne("65432".as_bytes()));

    assert_eq!(Some(255u8), u8("255".as_bytes()));
    assert_eq!(255u8, u8_ne("255".as_bytes()));

    assert_eq!(99u8, u8_2ne("99".as_bytes()));
}

#[test]
fn validating_parse_rejects_overflow() {
    assert_eq!(Some(u32::MAX), u32("4294967295".as_bytes()));
    assert_eq!(None, u32("4294967296".as_bytes()));
    assert_eq!(None, u16("65536".as_bytes()));
    assert_eq!(None, u8("256".as_bytes()));
}

#[test]
fn validating_parse_of_empty_run_is_zero() {
    assert_eq!(Some(0), u32(b""));
    assert_eq!(Some(0), u8(b""));
}

#[test]
fn validating_parse_rejects_non_digits() {
    assert_eq!(None, u16("12a4".as_bytes()));
    assert_eq!(None, u8("/1".as_bytes()));
    assert_eq!(None, u8(":".as_bytes()));
}

#[test]
fn unchecked_parse_wraps() {
    assert_eq!(0u8, u8_ne("256".as_bytes()));
    assert_eq!(0u16, u16_ne("65536".as_bytes()));
    assert_eq!(4294967295u32, u32_ne("8589934591".as_bytes()));
    // 'a' - '0' = 49, so 10 * 49 + 0 = 490, which is 234 modulo 256.
    assert_eq!(234u8, u8_2ne("a0".as_bytes()));
    // '/' - '0' wraps to 255.
    assert_eq!(255u8, u8_ne("/".as_bytes()));
}

#[test]
fn unrolled_parse_reads_leading_digits() {
    assert_eq!(1234u16, u16_4ne("1234xx".as_bytes()));
    assert_eq!(9999u16, u16_4ne("9999".as_bytes()));
    assert_eq!(42u8, u8_2ne("42-".as_bytes()));
    // 1000 * 49 + 100 * 1 + 10 * 2 + 3 = 49123
    assert_eq!(49123u16, u16_4ne("a123".as_bytes()));
}
