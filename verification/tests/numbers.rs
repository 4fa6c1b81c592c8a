use du_app::number::{decimal_text, parse_signed_text, parse_unsigned_text, signed_decimal_text};

const I32_MIN: i128 = i32::MIN as i128;
const I32_MAX: i128 = i32::MAX as i128;

#[test]
fn unsigned_parsing() {
    assert_eq!(parse_unsigned_text("0", 255), Some(0));
    assert_eq!(parse_unsigned_text("+5", 255), Some(5));
    assert_eq!(parse_unsigned_text("007", 255), Some(7));
    assert_eq!(parse_unsigned_text("255", 255), Some(255));
    assert_eq!(parse_unsigned_text("256", 255), None);
    assert_eq!(parse_unsigned_text("", 255), None);
    assert_eq!(parse_unsigned_text("+", 255), None);
    assert_eq!(parse_unsigned_text("-1", 255), None);
    assert_eq!(parse_unsigned_text("1 ", 255), None);
    assert_eq!(parse_unsigned_text("1.0", 255), None);
    assert_eq!(
        parse_unsigned_text("340282366920938463463374607431768211455", u128::MAX),
        Some(u128::MAX)
    );
    assert_eq!(parse_unsigned_text("340282366920938463463374607431768211456", u128::MAX), None);
    assert_eq!(parse_unsigned_text("99999999999999999999999999999999999999999x", u128::MAX), None);
}

#[test]
fn unsigned_parsing_agrees_with_std() {
    for s in ["0", "+5", "00", "65535", "65536", "+", "", "-0", "12a", "٣"] {
        assert_eq!(parse_unsigned_text(s, u16::MAX as u128), s.parse::<u16>().ok().map(|v| v as u128));
    }
}

#[test]
fn signed_parsing() {
    assert_eq!(parse_signed_text("-2147483648", I32_MIN, I32_MAX), Some(-2147483648));
    assert_eq!(parse_signed_text("-2147483649", I32_MIN, I32_MAX), None);
    assert_eq!(parse_signed_text("2147483647", I32_MIN, I32_MAX), Some(2147483647));
    assert_eq!(parse_signed_text("2147483648", I32_MIN, I32_MAX), None);
    assert_eq!(parse_signed_text("-0", I32_MIN, I32_MAX), Some(0));
    assert_eq!(parse_signed_text("+12", I32_MIN, I32_MAX), Some(12));
    assert_eq!(parse_signed_text("+-1", I32_MIN, I32_MAX), None);
    assert_eq!(parse_signed_text("-+1", I32_MIN, I32_MAX), None);
    assert_eq!(parse_signed_text("-", I32_MIN, I32_MAX), None);
    for s in ["-17", "17", "-", "--1", "2147483648", "-2147483648", "+0"] {
        assert_eq!(parse_signed_text(s, I32_MIN, I32_MAX), s.parse::<i32>().ok().map(|v| v as i128));
    }
}

#[test]
fn decimal_formatting() {
    assert_eq!(decimal_text(0), "0");
    assert_eq!(decimal_text(10), "10");
    assert_eq!(decimal_text(1700000000000), "1700000000000");
    assert_eq!(decimal_text(u128::MAX), u128::MAX.to_string());
    assert_eq!(signed_decimal_text(-5), "-5");
    assert_eq!(signed_decimal_text(0), "0");
    assert_eq!(signed_decimal_text(i128::MIN), i128::MIN.to_string());
    assert_eq!(signed_decimal_text(i32::MIN as i128), "-2147483648");
}

#[test]
fn written_numbers_read_back() {
    for n in [0u128, 7, 255, 65535, 1010123456002, u128::MAX] {
        assert_eq!(parse_unsigned_text(&decimal_text(n), u128::MAX), Some(n));
    }
    for v in [0i128, -1, 42, I32_MIN, I32_MAX] {
        assert_eq!(parse_signed_text(&signed_decimal_text(v), I32_MIN, I32_MAX), Some(v));
    }
}
