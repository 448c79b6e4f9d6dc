use zoxide::text::{decimal_string, digit_str, has_line_break, joined, parse_u64, same_text};

#[test]
fn digits_are_written_out() {
    let all: Vec<&str> = (0..10).map(digit_str).collect();
    assert_eq!(all, vec!["0", "1", "2", "3", "4", "5", "6", "7", "8", "9"]);
}

#[test]
fn numbers_are_written_out_in_decimal() {
    assert_eq!(decimal_string(0), "0");
    assert_eq!(decimal_string(7), "7");
    assert_eq!(decimal_string(10), "10");
    assert_eq!(decimal_string(9_999), "9999");
    assert_eq!(decimal_string(1_002_003), "1002003");
    assert_eq!(decimal_string(u64::MAX), "18446744073709551615");
    for n in [1u64, 9, 11, 99, 100, 101, 12_345, 1 << 40] {
        assert_eq!(decimal_string(n), n.to_string());
    }
}

#[test]
fn numbers_are_read_as_the_standard_library_reads_them() {
    let texts = [
        "0", "1", "+1", "-1", "", "+", "-", "007", "+007", "12a", "a12", "1 2", " 12", "12 ", "1_000",
        "18446744073709551615", "18446744073709551616", "+18446744073709551615", "99999999999999999999",
        "184467440737095516150", "1e3", "0x10", "\u{661}", "1\u{e9}", "++1", "+-1", "123456789",
        "000000000000000000000000000001",
    ];
    for text in texts {
        assert_eq!(parse_u64(text), text.parse::<u64>().ok(), "{:?}", text);
    }
    assert_eq!(parse_u64("+42"), Some(42));
    assert_eq!(parse_u64("18446744073709551615"), Some(u64::MAX));
    assert_eq!(parse_u64("18446744073709551616"), None);
    assert_eq!(parse_u64(""), None);
}

#[test]
fn texts_are_compared_byte_by_byte() {
    assert!(same_text("", ""));
    assert!(same_text("/home/\u{e9}", "/home/\u{e9}"));
    assert!(!same_text("/home/a", "/home/A"));
    assert!(!same_text("/home/a", "/home/a/"));
    assert!(!same_text("/home/a/", "/home/a"));
    assert!(!same_text("e\u{301}", "\u{e9}"));
}

#[test]
fn line_breaks_are_found() {
    assert!(has_line_break("a\nb"));
    assert!(has_line_break("a\r"));
    assert!(has_line_break("\r\n"));
    assert!(!has_line_break(""));
    assert!(!has_line_break("/home/a b\t\u{b}\u{c}\u{85}\u{2028}"));
    assert!(!has_line_break("\u{10a}\u{10d}"));
}

#[test]
fn texts_are_joined() {
    assert_eq!(joined("ab", "cd"), "abcd");
    assert_eq!(joined("", "\u{e9}"), "\u{e9}");
    assert_eq!(joined("x", ""), "x");
}
