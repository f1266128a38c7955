use csvim::buffer::Buffer;
use csvim::text::{bytes_eq, bytes_start_with, decimal_string, parse_decimal, str_eq, text_of_bytes};
use csvim::xlsx::base26_letters_to_int;

fn text(buffer: &Buffer) -> String {
    buffer.as_str().unwrap()
}

#[test]
fn decimal_numbers() {
    let mut buffer = Buffer::new();
    assert_eq!(text(&buffer), "");
    buffer.write_u32(0, true);
    assert_eq!(text(&buffer), "0");
    buffer.write_u32(7, true);
    assert_eq!(text(&buffer), "7");
    buffer.write_u32(10, true);
    assert_eq!(text(&buffer), "10");
    buffer.write_u32(1234, true);
    assert_eq!(text(&buffer), "1234");
    buffer.write_u32(u32::MAX, true);
    assert_eq!(text(&buffer), "4294967295");
    assert_eq!(buffer.len(), 10);
}

#[test]
fn a_number_after_what_is_there() {
    let mut buffer = Buffer::new();
    buffer.write_letters_base26(27);
    buffer.write_u32(12, false);
    assert_eq!(text(&buffer), "AB12");
    buffer.write_u32(305, false);
    assert_eq!(text(&buffer), "AB12305");
}

#[test]
fn letters_of_columns() {
    let mut buffer = Buffer::new();
    for (index, name) in [
        (0, "A"),
        (25, "Z"),
        (26, "AA"),
        (51, "AZ"),
        (52, "BA"),
        (701, "ZZ"),
        (702, "AAA"),
        (16383, "XFD"),
        (u32::MAX, "MWLQKWV"),
    ] {
        buffer.write_letters_base26(index);
        assert_eq!(text(&buffer), name);
    }
}

#[test]
fn decoding_the_letters_of_a_column_gives_the_column() {
    let mut buffer = Buffer::new();
    for index in (0..2000).chain([17575, 17576, 456975, 456976, 1 << 31, u32::MAX]) {
        buffer.write_letters_base26(index);
        assert_eq!(base26_letters_to_int(&text(&buffer)), Some(index));
    }
}

#[test]
fn texts_are_cut_at_the_capacity() {
    let mut buffer = Buffer::new();
    buffer.write_str("hello");
    assert_eq!(text(&buffer), "hello");
    buffer.write_str("");
    assert_eq!(text(&buffer), "");
    let long = "x".repeat(100);
    buffer.write_str(&long);
    assert_eq!(buffer.len(), 64);
    assert_eq!(text(&buffer), "x".repeat(64));
    // a character of two bytes that is cut in the middle leaves no text
    let cut = format!("{}\u{e9}", "x".repeat(63));
    buffer.write_str(&cut);
    assert_eq!(buffer.as_str(), None);
}

#[test]
fn comparing_and_converting_text() {
    assert!(bytes_eq(b"abc", b"abc"));
    assert!(!bytes_eq(b"abc", b"abd"));
    assert!(!bytes_eq(b"abc", b"ab"));
    assert!(str_eq("", ""));
    assert!(str_eq("\u{e9}", "\u{e9}"));
    assert!(!str_eq("a", "A"));
    assert!(bytes_start_with(b"abc", b"ab"));
    assert!(bytes_start_with(b"abc", b""));
    assert!(!bytes_start_with(b"abc", b"abcd"));
    assert!(!bytes_start_with(b"abc", b"bc"));
    assert_eq!(text_of_bytes(vec![0xc3, 0xa9]), Some("\u{e9}".to_string()));
    assert_eq!(text_of_bytes(vec![0xc3]), None);
    assert_eq!(text_of_bytes(vec![]), Some(String::new()));
}

#[test]
fn decimal_text() {
    assert_eq!(parse_decimal("0"), Some(0));
    assert_eq!(parse_decimal("007"), Some(7));
    assert_eq!(parse_decimal("4294967295"), Some(u32::MAX));
    assert_eq!(parse_decimal("4294967296"), None);
    assert_eq!(parse_decimal("99999999999999999999"), None);
    assert_eq!(parse_decimal(""), None);
    assert_eq!(parse_decimal("+1"), None);
    assert_eq!(parse_decimal("1a"), None);
    assert_eq!(parse_decimal("\u{661}"), None);
    assert_eq!(decimal_string(0), "0");
    assert_eq!(decimal_string(90210), "90210");
    assert_eq!(decimal_string(usize::MAX), usize::MAX.to_string());
}
