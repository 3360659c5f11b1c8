use rust_git::digits::{
    format_decimal, format_octal, format_octal_padded, parse_decimal, parse_octal,
};

#[test]
fn decimal_of_small_and_large_numbers() {
    assert_eq!(format_decimal(0), b"0");
    assert_eq!(format_decimal(7), b"7");
    assert_eq!(format_decimal(10), b"10");
    assert_eq!(format_decimal(12), b"12");
    assert_eq!(format_decimal(1000), b"1000");
    assert_eq!(format_decimal(usize::MAX), usize::MAX.to_string().as_bytes());
}

#[test]
fn decimal_agrees_with_std_formatting() {
    for n in [1usize, 9, 99, 100, 101, 4096, 65535, 1234567890] {
        assert_eq!(format_decimal(n), n.to_string().as_bytes());
    }
}

#[test]
fn parse_decimal_reads_digits() {
    assert_eq!(parse_decimal(b"0"), Some(0));
    assert_eq!(parse_decimal(b"12"), Some(12));
    assert_eq!(parse_decimal(b"007"), Some(7));
    assert_eq!(parse_decimal(b"1234567890"), Some(1234567890));
    assert_eq!(parse_decimal(usize::MAX.to_string().as_bytes()), Some(usize::MAX));
}

#[test]
fn parse_decimal_rejects_what_is_not_digits() {
    assert_eq!(parse_decimal(b""), None);
    assert_eq!(parse_decimal(b"+5"), None);
    assert_eq!(parse_decimal(b"-5"), None);
    assert_eq!(parse_decimal(b" 5"), None);
    assert_eq!(parse_decimal(b"5 "), None);
    assert_eq!(parse_decimal(b"1a"), None);
    assert_eq!(parse_decimal(b"12\x00"), None);
}

#[test]
fn parse_decimal_saturates() {
    let too_large = format!("{}0", usize::MAX);
    assert_eq!(parse_decimal(too_large.as_bytes()), Some(usize::MAX));
    let one_more = "18446744073709551616";
    assert_eq!(parse_decimal(one_more.as_bytes()), Some(usize::MAX));
    assert_eq!(parse_decimal(b"99999999999999999999999999999999999999"), Some(usize::MAX));
    assert_eq!(parse_decimal(b"9999999999999999999999999999x"), None);
}

#[test]
fn octal_of_the_modes() {
    assert_eq!(format_octal(0o100644), b"100644");
    assert_eq!(format_octal(0o40000), b"40000");
    assert_eq!(format_octal(0), b"0");
    assert_eq!(format_octal(7), b"7");
    assert_eq!(format_octal(8), b"10");
    assert_eq!(format_octal(u32::MAX), b"37777777777");
}

#[test]
fn padded_octal_fills_to_six_digits() {
    assert_eq!(format_octal_padded(0o100644), b"100644");
    assert_eq!(format_octal_padded(0o40000), b"040000");
    assert_eq!(format_octal_padded(0), b"000000");
    assert_eq!(format_octal_padded(0o755), b"000755");
    assert_eq!(format_octal_padded(0o1234567), b"1234567");
    assert_eq!(format_octal_padded(u32::MAX), b"37777777777");
}

#[test]
fn parse_octal_reads_digits() {
    assert_eq!(parse_octal(b"100644"), Some(0o100644));
    assert_eq!(parse_octal(b"40000"), Some(0o40000));
    assert_eq!(parse_octal(b"040000"), Some(0o40000));
    assert_eq!(parse_octal(b"0"), Some(0));
    assert_eq!(parse_octal(b"37777777777"), Some(u32::MAX));
}

#[test]
fn parse_octal_rejects_other_text_and_overflow() {
    assert_eq!(parse_octal(b""), None);
    assert_eq!(parse_octal(b"8"), None);
    assert_eq!(parse_octal(b"10064x"), None);
    assert_eq!(parse_octal(b"+7"), None);
    assert_eq!(parse_octal(b"40000000000"), None);
    assert_eq!(parse_octal(b"777777777777777777777777"), None);
}

#[test]
fn octal_round_trip() {
    for n in [0u32, 1, 7, 8, 63, 64, 0o644, 0o100644, 0o40000, 0o120000, u32::MAX] {
        assert_eq!(parse_octal(&format_octal(n)), Some(n));
        assert_eq!(parse_octal(&format_octal_padded(n)), Some(n));
    }
}

#[test]
fn decimal_round_trip() {
    for n in [0usize, 1, 9, 10, 11, 12345, usize::MAX - 1, usize::MAX] {
        assert_eq!(parse_decimal(&format_decimal(n)), Some(n));
    }
}
