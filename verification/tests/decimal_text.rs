use tubular::decimal::{parse_i32, parse_u16, push_decimal, push_signed_decimal};

#[test]
fn parse_u16_accepts_plain_and_plus_signed_numbers() {
    assert_eq!(parse_u16(b"443"), Some(443));
    assert_eq!(parse_u16(b"+8080"), Some(8080));
    assert_eq!(parse_u16(b"0"), Some(0));
    assert_eq!(parse_u16(b"00080"), Some(80));
    assert_eq!(parse_u16(b"65535"), Some(65535));
}

#[test]
fn parse_u16_refuses_what_str_parse_refuses() {
    for text in ["", "+", "-1", "65536", "12a", " 80", "80 ", "++1", "99999999999999999999"] {
        assert_eq!(parse_u16(text.as_bytes()), text.parse::<u16>().ok(), "{text:?}");
        assert_eq!(parse_u16(text.as_bytes()), None, "{text:?}");
    }
}

#[test]
fn parse_i32_matches_str_parse() {
    for text in [
        "0", "7", "-7", "+7", "-", "+", "", "2147483647", "2147483648", "-2147483648",
        "-2147483649", "--1", "3/4", "0012", "-0",
    ] {
        assert_eq!(parse_i32(text.as_bytes()), text.parse::<i32>().ok(), "{text:?}");
    }
    assert_eq!(parse_i32(b"-2147483648"), Some(i32::MIN));
}

#[test]
fn decimal_formatting_matches_display() {
    for n in [0u64, 9, 10, 443, 65535, u64::MAX] {
        let mut out = b"x".to_vec();
        push_decimal(&mut out, n);
        assert_eq!(out, format!("x{}", n).into_bytes());
    }
    for v in [0i32, -1, 5, i32::MIN, i32::MAX] {
        let mut out = Vec::new();
        push_signed_decimal(&mut out, v);
        assert_eq!(out, v.to_string().into_bytes());
    }
}

#[test]
fn decimal_text_reads_back() {
    for p in [0u16, 1, 80, 443, 65535] {
        let mut out = Vec::new();
        push_decimal(&mut out, p as u64);
        assert_eq!(parse_u16(&out), Some(p));
    }
    for v in [i32::MIN, -12, 0, 12, i32::MAX] {
        let mut out = Vec::new();
        push_signed_decimal(&mut out, v);
        assert_eq!(parse_i32(&out), Some(v));
    }
}
