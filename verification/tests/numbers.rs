use streak_codec::decimal::{read_signed, read_unsigned, write_signed, write_unsigned};

fn unsigned(s: &str) -> Option<u64> {
    let buf: Vec<char> = s.chars().collect();
    read_unsigned(&buf, 0, buf.len())
}

fn signed(s: &str) -> Option<i64> {
    let buf: Vec<char> = s.chars().collect();
    read_signed(&buf, 0, buf.len())
}

#[test]
fn reads_unsigned_numerals() {
    assert_eq!(unsigned("0"), Some(0));
    assert_eq!(unsigned("7"), Some(7));
    assert_eq!(unsigned("007"), Some(7));
    assert_eq!(unsigned("160518747713437696"), Some(160518747713437696));
    assert_eq!(unsigned("18446744073709551615"), Some(u64::MAX));
    assert_eq!(unsigned("00018446744073709551615"), Some(u64::MAX));
}

#[test]
fn unsigned_numerals_that_do_not_fit_are_refused() {
    assert_eq!(unsigned("18446744073709551616"), None);
    assert_eq!(unsigned("18446744073709551620"), None);
    assert_eq!(unsigned("99999999999999999999"), None);
    assert_eq!(unsigned("184467440737095516150"), None);
}

#[test]
fn unsigned_numerals_hold_digits_only() {
    assert_eq!(unsigned(""), None);
    assert_eq!(unsigned("+1"), None);
    assert_eq!(unsigned("-1"), None);
    assert_eq!(unsigned("-0"), None);
    assert_eq!(unsigned("12a"), None);
    assert_eq!(unsigned("a12"), None);
    assert_eq!(unsigned(" 12"), None);
    assert_eq!(unsigned("1_2"), None);
    assert_eq!(unsigned("1.5"), None);
    assert_eq!(unsigned("/"), None);
    assert_eq!(unsigned(":"), None);
    assert_eq!(unsigned("\u{661}"), None);
}

#[test]
fn reads_signed_numerals() {
    assert_eq!(signed("0"), Some(0));
    assert_eq!(signed("-0"), Some(0));
    assert_eq!(signed("+0"), Some(0));
    assert_eq!(signed("1685653778"), Some(1685653778));
    assert_eq!(signed("+7"), Some(7));
    assert_eq!(signed("-7"), Some(-7));
    assert_eq!(signed("-007"), Some(-7));
    assert_eq!(signed("9223372036854775807"), Some(i64::MAX));
    assert_eq!(signed("+9223372036854775807"), Some(i64::MAX));
    assert_eq!(signed("-9223372036854775808"), Some(i64::MIN));
    assert_eq!(signed("-9223372036854775807"), Some(i64::MIN + 1));
}

#[test]
fn signed_numerals_that_do_not_fit_are_refused() {
    assert_eq!(signed("9223372036854775808"), None);
    assert_eq!(signed("+9223372036854775808"), None);
    assert_eq!(signed("-9223372036854775809"), None);
    assert_eq!(signed("18446744073709551615"), None);
    assert_eq!(signed("-18446744073709551616"), None);
}

#[test]
fn signed_numerals_hold_one_sign_at_most_and_digits() {
    assert_eq!(signed(""), None);
    assert_eq!(signed("-"), None);
    assert_eq!(signed("+"), None);
    assert_eq!(signed("--1"), None);
    assert_eq!(signed("+-1"), None);
    assert_eq!(signed("1-"), None);
    assert_eq!(signed("1+1"), None);
    assert_eq!(signed("abc"), None);
    assert_eq!(signed("- 1"), None);
}

#[test]
fn reads_a_numeral_inside_a_buffer() {
    let buf: Vec<char> = "ab-123cd".chars().collect();
    assert_eq!(read_signed(&buf, 2, 6), Some(-123));
    assert_eq!(read_unsigned(&buf, 3, 6), Some(123));
    assert_eq!(read_unsigned(&buf, 2, 6), None);
    assert_eq!(read_unsigned(&buf, 3, 7), None);
    assert_eq!(read_unsigned(&buf, 4, 4), None);
    assert_eq!(read_signed(&buf, 8, 8), None);
}

#[test]
fn agrees_with_the_standard_parser_on_digits_and_minus() {
    let samples = ["0", "00", "5", "42", "-42", "-", "", "x", "4x", "9223372036854775807", "9223372036854775808", "-9223372036854775808", "-9223372036854775809", "18446744073709551615", "18446744073709551616"];
    for s in samples {
        assert_eq!(unsigned(s), s.parse::<u64>().ok());
        assert_eq!(signed(s), s.parse::<i64>().ok());
    }
}

#[test]
fn writes_unsigned_numerals() {
    let mut out = String::new();
    write_unsigned(&mut out, 0);
    assert_eq!(out, "0");
    let mut out = String::new();
    write_unsigned(&mut out, 9);
    assert_eq!(out, "9");
    let mut out = String::new();
    write_unsigned(&mut out, 10);
    assert_eq!(out, "10");
    let mut out = String::new();
    write_unsigned(&mut out, 160518747713437696);
    assert_eq!(out, "160518747713437696");
    let mut out = String::new();
    write_unsigned(&mut out, u64::MAX);
    assert_eq!(out, "18446744073709551615");
}

#[test]
fn writes_signed_numerals() {
    let mut out = String::new();
    write_signed(&mut out, 0);
    assert_eq!(out, "0");
    let mut out = String::new();
    write_signed(&mut out, -1);
    assert_eq!(out, "-1");
    let mut out = String::new();
    write_signed(&mut out, 1685653778);
    assert_eq!(out, "1685653778");
    let mut out = String::new();
    write_signed(&mut out, i64::MAX);
    assert_eq!(out, "9223372036854775807");
    let mut out = String::new();
    write_signed(&mut out, i64::MIN);
    assert_eq!(out, "-9223372036854775808");
}

#[test]
fn writing_appends_to_what_is_there() {
    let mut out = String::from("a=");
    write_unsigned(&mut out, 12);
    out.push(',');
    write_signed(&mut out, -34);
    assert_eq!(out, "a=12,-34");
}

#[test]
fn reading_gives_back_what_writing_wrote() {
    for v in [0u64, 1, 9, 10, 99, 100, 12345, u64::MAX - 1, u64::MAX] {
        let mut out = String::new();
        write_unsigned(&mut out, v);
        assert_eq!(unsigned(&out), Some(v));
    }
    for v in [i64::MIN, i64::MIN + 1, -100, -10, -9, -1, 0, 1, 9, 10, i64::MAX - 1, i64::MAX] {
        let mut out = String::new();
        write_signed(&mut out, v);
        assert_eq!(signed(&out), Some(v));
    }
}
