use naihe::text::{
    chars_of, find_str, i64_to_decimal, parse_u16, trim_str, u64_to_decimal,
};

#[test]
fn trimming_unicode_whitespace() {
    assert_eq!(trim_str("\u{3000} a b \u{a0}\n"), "a b");
    assert_eq!(trim_str(""), "");
    assert_eq!(trim_str(" \t "), "");
    assert_eq!(trim_str("x"), "x");
}

#[test]
fn decimal_formatting() {
    assert_eq!(u64_to_decimal(0), "0");
    assert_eq!(u64_to_decimal(3777), "3777");
    assert_eq!(u64_to_decimal(u64::MAX), "18446744073709551615");
    assert_eq!(i64_to_decimal(-12), "-12");
    assert_eq!(i64_to_decimal(i64::MIN), "-9223372036854775808");
}

#[test]
fn port_parsing() {
    let p = |s: &str| parse_u16(&chars_of(s));
    assert_eq!(p("0"), Some(0));
    assert_eq!(p("+443"), Some(443));
    assert_eq!(p("65535"), Some(65535));
    assert_eq!(p("65536"), None);
    assert_eq!(p("99999999999999999999"), None);
    assert_eq!(p(""), None);
    assert_eq!(p("+"), None);
    assert_eq!(p("-0"), None);
    assert_eq!(p(" 1"), None);
}

#[test]
fn substring_search() {
    assert_eq!(find_str(&chars_of("abcabc"), &chars_of("ca")), Some(2));
    assert_eq!(find_str(&chars_of("abc"), &chars_of("d")), None);
    assert_eq!(find_str(&chars_of("abc"), &chars_of("")), Some(0));
}
