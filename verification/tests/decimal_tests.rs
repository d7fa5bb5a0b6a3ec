use akshar::decimal::Decimal;
use akshar::decimal::parse_decimal;
use akshar::decimal::parse_i32;
use akshar::decimal::parse_u32;

#[test]
fn parse_decimal_plain() {
    assert_eq!(parse_decimal("3.05"), Some(Decimal { mantissa: 305, scale: 2 }));
    assert_eq!(parse_decimal("42"), Some(Decimal { mantissa: 42, scale: 0 }));
    assert_eq!(parse_decimal("0"), Some(Decimal { mantissa: 0, scale: 0 }));
}

#[test]
fn parse_decimal_signs() {
    assert_eq!(parse_decimal("-2.5"), Some(Decimal { mantissa: -25, scale: 1 }));
    assert_eq!(parse_decimal("+4"), Some(Decimal { mantissa: 4, scale: 0 }));
    assert_eq!(parse_decimal("-0"), Some(Decimal { mantissa: 0, scale: 0 }));
}

#[test]
fn parse_decimal_point_at_either_end() {
    assert_eq!(parse_decimal("5."), Some(Decimal { mantissa: 5, scale: 0 }));
    assert_eq!(parse_decimal(".5"), Some(Decimal { mantissa: 5, scale: 1 }));
}

#[test]
fn parse_decimal_leading_zeros() {
    assert_eq!(parse_decimal("007"), Some(Decimal { mantissa: 7, scale: 0 }));
    assert_eq!(parse_decimal("0.05"), Some(Decimal { mantissa: 5, scale: 2 }));
}

#[test]
fn parse_decimal_rejects_malformed() {
    assert_eq!(parse_decimal(""), None);
    assert_eq!(parse_decimal("."), None);
    assert_eq!(parse_decimal("-"), None);
    assert_eq!(parse_decimal("+."), None);
    assert_eq!(parse_decimal("1.2.3"), None);
    assert_eq!(parse_decimal("abc"), None);
    assert_eq!(parse_decimal("--1"), None);
    assert_eq!(parse_decimal("1e5"), None);
    assert_eq!(parse_decimal("inf"), None);
    assert_eq!(parse_decimal(" 5"), None);
    assert_eq!(parse_decimal("5 "), None);
}

#[test]
fn parse_decimal_capacity() {
    // 19 digits overflow the mantissa bound of 10^18
    assert_eq!(parse_decimal("9999999999999999999"), None);
    assert_eq!(parse_decimal("999999999999999999"), Some(Decimal {
        mantissa: 999_999_999_999_999_999,
        scale: 0,
    }));
    // at most 9 fraction digits
    assert_eq!(parse_decimal("0.0000000001"), None);
    assert_eq!(parse_decimal("0.000000001"), Some(Decimal { mantissa: 1, scale: 9 }));
}

#[test]
fn parse_i32_values() {
    assert_eq!(parse_i32("42"), Some(42));
    assert_eq!(parse_i32("-42"), Some(-42));
    assert_eq!(parse_i32("+42"), Some(42));
    assert_eq!(parse_i32("2147483647"), Some(i32::MAX));
    assert_eq!(parse_i32("-2147483648"), Some(i32::MIN));
    assert_eq!(parse_i32("0042"), Some(42));
}

#[test]
fn parse_i32_rejects() {
    assert_eq!(parse_i32("2147483648"), None);
    assert_eq!(parse_i32("-2147483649"), None);
    assert_eq!(parse_i32("4.2"), None);
    assert_eq!(parse_i32(""), None);
    assert_eq!(parse_i32("-"), None);
    assert_eq!(parse_i32("12a"), None);
}

#[test]
fn parse_u32_values() {
    assert_eq!(parse_u32("0"), Some(0));
    assert_eq!(parse_u32("+7"), Some(7));
    assert_eq!(parse_u32("4294967295"), Some(u32::MAX));
}

#[test]
fn parse_u32_rejects() {
    assert_eq!(parse_u32("4294967296"), None);
    assert_eq!(parse_u32("-1"), None);
    assert_eq!(parse_u32("-0"), None);
    assert_eq!(parse_u32("1.0"), None);
    assert_eq!(parse_u32(""), None);
}

#[test]
fn comparisons_are_exact() {
    let half = Decimal { mantissa: 5, scale: 1 };
    let half_long = Decimal { mantissa: 500, scale: 3 };
    let third_ish = Decimal { mantissa: 333, scale: 3 };
    assert!(half.le(&half_long));
    assert!(half_long.le(&half));
    assert!(!half.lt(&half_long));
    assert!(third_ish.lt(&half));
    assert!(!half.lt(&third_ish));
    let neg = Decimal { mantissa: -25, scale: 1 };
    assert!(neg.lt(&half));
    assert!(!half.lt(&neg));
}

#[test]
fn within_is_strict() {
    let eq = Decimal { mantissa: 30, scale: 1 };
    let precision = Decimal { mantissa: 1, scale: 1 };
    let close = Decimal { mantissa: 305, scale: 2 };
    let boundary = Decimal { mantissa: 31, scale: 1 };
    let far = Decimal { mantissa: 32, scale: 1 };
    assert!(close.within(&eq, &precision));
    assert!(!boundary.within(&eq, &precision));
    assert!(!far.within(&eq, &precision));
}

#[test]
fn to_text_renders() {
    assert_eq!(Decimal { mantissa: 305, scale: 2 }.to_text(), "3.05");
    assert_eq!(Decimal { mantissa: -305, scale: 2 }.to_text(), "-3.05");
    assert_eq!(Decimal { mantissa: 5, scale: 1 }.to_text(), "0.5");
    assert_eq!(Decimal { mantissa: 5, scale: 0 }.to_text(), "5");
    assert_eq!(Decimal { mantissa: 5000, scale: 3 }.to_text(), "5.000");
    assert_eq!(Decimal { mantissa: -7, scale: 0 }.to_text(), "-7");
    assert_eq!(Decimal { mantissa: 0, scale: 1 }.to_text(), "0.0");
}

#[test]
fn new_checks_bounds() {
    assert!(Decimal::new(305, 2).is_some());
    assert!(Decimal::new(1_000_000_000_000_000_000, 0).is_none());
    assert!(Decimal::new(0, 10).is_none());
}
