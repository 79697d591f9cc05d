//! Numbers as text, and text as numbers.
use litebox::fs::text::{
    decimal_text, into_bytes, is_text, parse_canonical_decimal, parse_pid, put_hex_byte, put_in_base,
    put_right_aligned, signed_text,
};

#[test]
fn decimals_read_back() {
    for value in [0u64, 1, 9, 10, 99, 100, 12345, u64::MAX] {
        let text = decimal_text(value);
        assert_eq!(text, value.to_string());
        assert_eq!(parse_canonical_decimal(&text), Some(value));
    }
}

#[test]
fn only_the_canonical_spelling_is_read() {
    for name in ["", "00", "01", "+1", "-1", "1a", " 1", "1 ", "18446744073709551616", "\u{663}"] {
        assert_eq!(parse_canonical_decimal(name), None);
    }
    assert_eq!(parse_canonical_decimal("0"), Some(0));
}

#[test]
fn pids_are_positive_and_fit() {
    assert_eq!(parse_pid("1"), Some(1));
    assert_eq!(parse_pid("2147483647"), Some(i32::MAX));
    assert_eq!(parse_pid("2147483648"), None);
    assert_eq!(parse_pid("0"), None);
    assert_eq!(parse_pid("self"), None);
}

#[test]
fn signed_numbers_carry_their_sign() {
    assert_eq!(signed_text(-17), "-17");
    assert_eq!(signed_text(i32::MIN), "-2147483648");
    assert_eq!(signed_text(42), "42");
}

#[test]
fn other_bases_and_widths() {
    let mut out = String::from("x");
    put_in_base(&mut out, 0o755, 8);
    put_in_base(&mut out, 0xbeef, 16);
    assert_eq!(out, "x755beef");
    let mut out = String::new();
    put_right_aligned(&mut out, 42, 5);
    put_right_aligned(&mut out, 123456, 3);
    assert_eq!(out, "   42123456");
    let mut out = String::new();
    put_hex_byte(&mut out, 0x0a);
    put_hex_byte(&mut out, 0xff);
    assert_eq!(out, "0AFF");
}

#[test]
fn texts_are_compared_and_turned_into_bytes() {
    assert!(is_text("proc", "proc"));
    assert!(!is_text("proc", "proc "));
    assert_eq!(into_bytes(String::from("a\u{e9}")), vec![b'a', 0xc3, 0xa9]);
}
