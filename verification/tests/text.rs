use laptop_cooler::bounded::{bounded, BoundedText};
use laptop_cooler::numbers::{
    append_signed, append_unsigned, parse_i32, parse_u32, parse_u8, parse_unsigned, parse_usize,
};
use laptop_cooler::text::{
    ends_with, same_text_ignoring_ascii_case, split, split_crlf, split_once, split_words,
    starts_with, trim,
};

#[test]
fn text_is_cut_like_the_standard_library_does() {
    for text in ["", " ", "a", " a b ", "\u{a0}x\u{3000}\u{2003}", "\u{200b}x", "a\tb\r\n", "\u{85}=\u{1680}"] {
        assert_eq!(trim(text), text.trim(), "{text:?}");
        assert_eq!(split_words(text), text.split_ascii_whitespace().collect::<Vec<_>>(), "{text:?}");
    }
    for text in ["", ",", "a,b,,c", ",a", "a,", "\u{e9},\u{1f600}"] {
        assert_eq!(split(text, ','), text.split(',').collect::<Vec<_>>(), "{text:?}");
        assert_eq!(split_once(text, ','), text.split_once(','), "{text:?}");
    }
    for text in ["", "\r\n", "a\r\nb", "a\rb\n", "a\r\r\nb\r\n\r\n", "\n\r"] {
        assert_eq!(split_crlf(text), text.split("\r\n").collect::<Vec<_>>(), "{text:?}");
    }
    for text in ["", "temp", "temp1_input", "_input", "input", "tem"] {
        assert_eq!(starts_with(text, "temp"), text.starts_with("temp"), "{text:?}");
        assert_eq!(ends_with(text, "_input"), text.ends_with("_input"), "{text:?}");
    }
    for text in ["content-length", "Content-Length", "CONTENT-LENGTH", "content\u{2010}length", "content"] {
        assert_eq!(
            same_text_ignoring_ascii_case(text, "content-length"),
            text.eq_ignore_ascii_case("content-length"),
            "{text:?}"
        );
    }
    assert!(!same_text_ignoring_ascii_case("\u{212a}", "k"));
}

#[test]
fn numbers_are_read_like_the_standard_library_does() {
    for text in [
        "", "+", "-", "0", "-0", "+0", "007", "255", "256", "-1", "2147483647", "2147483648",
        "-2147483648", "-2147483649", "4294967295", "4294967296", "18446744073709551615",
        "18446744073709551616", " 1", "1 ", "1_0", "0x1", "\u{661}", "99999999999999999999999",
    ] {
        assert_eq!(parse_u8(text), text.parse::<u8>().ok(), "{text:?}");
        assert_eq!(parse_u32(text), text.parse::<u32>().ok(), "{text:?}");
        assert_eq!(parse_unsigned(text, u64::MAX), text.parse::<u64>().ok(), "{text:?}");
        assert_eq!(parse_usize(text), text.parse::<usize>().ok(), "{text:?}");
        assert_eq!(parse_i32(text), text.parse::<i32>().ok(), "{text:?}");
    }
}

#[test]
fn numbers_are_written_and_read_back() {
    for value in [0_u64, 9, 10, 42_110, u64::MAX] {
        let mut text = "n=".to_string();
        append_unsigned(&mut text, value);
        assert_eq!(text, format!("n={value}"));
        assert_eq!(parse_unsigned(&text[2..], u64::MAX), Some(value));
    }
    for value in [0_i32, -1, 7, i32::MIN, i32::MAX] {
        let mut text = String::new();
        append_signed(&mut text, value);
        assert_eq!(text, value.to_string());
        assert_eq!(parse_i32(&text), Some(value));
    }
}

#[test]
fn bounded_texts_hold_what_fits() {
    let short: Option<heapless::String<32>> = bounded("network");
    assert_eq!(short.unwrap().as_text(), "network");
    let full: Option<heapless::String<32>> = bounded(&"\u{e9}".repeat(16));
    assert_eq!(full.unwrap().as_text(), "\u{e9}".repeat(16));
    let long: Option<heapless::String<32>> = bounded(&"a".repeat(33));
    assert_eq!(long, None);
    let full: Option<heapless::String<64>> = bounded(&"a".repeat(64));
    let mut full = full.unwrap();
    assert_eq!(full.append(""), Ok(()));
    assert_eq!(full.append("b"), Err(()));
    assert_eq!(full.as_text(), "a".repeat(64));
    let long: Option<heapless::String<64>> = bounded(&"a".repeat(65));
    assert_eq!(long, None);
}
