use knn_ocr::numbers::{parse_i32, parse_u16, parse_usize, push_decimal, IntErrorKind};

#[test]
fn parses_like_str_parse() {
    for s in ["0", "42", "+7", "007", "65535", "65536", "", "+", "-", "-1", "1x", "x1", " 1", "99999999999999999999999"] {
        let expected = s.parse::<usize>().map_err(|e| e.kind().clone());
        let got = parse_usize(s).map_err(|k| k);
        match (expected, got) {
            (Ok(a), Ok(b)) => assert_eq!(a, b),
            (Err(_), Err(_)) => {}
            (a, b) => panic!("{s:?}: {a:?} vs {b:?}"),
        }
    }
}

#[test]
fn usize_errors_have_std_kinds() {
    assert_eq!(parse_usize(""), Err(IntErrorKind::Empty));
    assert_eq!(parse_usize("+"), Err(IntErrorKind::InvalidDigit));
    assert_eq!(parse_usize("-3"), Err(IntErrorKind::InvalidDigit));
    assert_eq!(parse_usize("12a"), Err(IntErrorKind::InvalidDigit));
    assert_eq!(parse_usize("99999999999999999999999"), Err(IntErrorKind::PosOverflow));
    assert_eq!(parse_usize("99999999999999999999999x"), Err(IntErrorKind::PosOverflow));
    assert_eq!(parse_usize("+15"), Ok(15));
}

#[test]
fn u16_bounds() {
    assert_eq!(parse_u16("65535"), Ok(65535));
    assert_eq!(parse_u16("65536"), Err(IntErrorKind::PosOverflow));
    assert_eq!(parse_u16("8080"), Ok(8080));
}

#[test]
fn i32_bounds_and_signs() {
    assert_eq!(parse_i32("-2147483648"), Ok(i32::MIN));
    assert_eq!(parse_i32("2147483647"), Ok(i32::MAX));
    assert_eq!(parse_i32("2147483648"), Err(IntErrorKind::PosOverflow));
    assert_eq!(parse_i32("-2147483649"), Err(IntErrorKind::NegOverflow));
    assert_eq!(parse_i32("-"), Err(IntErrorKind::InvalidDigit));
    assert_eq!(parse_i32("-12"), Ok(-12));
    assert_eq!(parse_i32("+12"), Ok(12));
    assert_eq!(parse_i32("--1"), Err(IntErrorKind::InvalidDigit));
}

#[test]
fn i32_agrees_with_std() {
    for s in ["-0", "0", "-1", "10", "+-1", "2147483648", "-2147483649", "1_000", "١"] {
        match (s.parse::<i32>(), parse_i32(s)) {
            (Ok(a), Ok(b)) => assert_eq!(a, b),
            (Err(_), Err(_)) => {}
            (a, b) => panic!("{s:?}: {a:?} vs {b:?}"),
        }
    }
}

#[test]
fn push_decimal_writes_digits() {
    let mut out = b"n=".to_vec();
    push_decimal(&mut out, 0);
    assert_eq!(out, b"n=0");
    let mut out = Vec::new();
    push_decimal(&mut out, 1234509);
    assert_eq!(out, b"1234509");
}

#[test]
fn decimal_round_trip() {
    for n in [0usize, 7, 10, 99, 100, 65535, usize::MAX] {
        let mut out = Vec::new();
        push_decimal(&mut out, n);
        let text = String::from_utf8(out).unwrap();
        assert_eq!(text, n.to_string());
        assert_eq!(parse_usize(&text), Ok(n));
    }
}
