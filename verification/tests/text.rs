use xhf::text::{
    contains_text, decimal_text, escape_control, hexadecimal_text, is_ordered, join_texts,
    lower_text, parse_number, split_once, split_text, strip_prefix, trim_text, trim_trailing,
    zero_pad, NumberError,
};

#[test]
fn preserves_printable_text_and_escapes_controls() {
    assert_eq!(escape_control("name\n\u{1b}[31m"), "name\\n\\u{1b}[31m");
    assert_eq!(escape_control("cafe"), "cafe");
}

#[test]
fn escapes_every_kind_of_control_character() {
    assert_eq!(escape_control("\t\r\n"), "\\t\\r\\n");
    assert_eq!(escape_control("\u{0}\u{7f}\u{85}"), "\\u{0}\\u{7f}\\u{85}");
    assert_eq!(escape_control("caf\u{e9}"), "caf\u{e9}");
}

#[test]
fn writes_numbers() {
    assert_eq!(decimal_text(0), "0");
    assert_eq!(decimal_text(u64::MAX), "18446744073709551615");
    assert_eq!(hexadecimal_text(0), "0");
    assert_eq!(hexadecimal_text(0xaf63dc4c8601ec8c), "af63dc4c8601ec8c");
    assert_eq!(zero_pad("1f", 4), "001f");
    assert_eq!(zero_pad("12345", 4), "12345");
}

#[test]
fn reads_numbers_as_the_standard_library_does() {
    assert_eq!(parse_number("0012", u64::MAX), Ok(12));
    assert_eq!(parse_number("+7", u64::MAX), Ok(7));
    assert_eq!(parse_number("", u64::MAX), Err(NumberError::Empty));
    assert_eq!(parse_number("-1", u64::MAX), Err(NumberError::InvalidDigit));
    assert_eq!(parse_number("+", u64::MAX), Err(NumberError::InvalidDigit));
    assert_eq!(
        parse_number("18446744073709551616", u64::MAX),
        Err(NumberError::Overflow)
    );
    for text in ["", "+", "-", "x", "1x", "99999999999999999999", "+5", "007"] {
        let expected = text.parse::<u64>();
        match parse_number(text, u64::MAX) {
            Ok(number) => assert_eq!(Ok(number), expected),
            Err(error) => assert_eq!(error.describe(), expected.unwrap_err().to_string()),
        }
    }
}

#[test]
fn splits_and_joins() {
    assert_eq!(split_text("a/b//c", '/'), ["a", "b", "", "c"]);
    assert_eq!(split_text("", '/'), [""]);
    assert_eq!(join_texts(&split_text("a/b//c", '/'), "/"), "a/b//c");
    assert_eq!(
        split_once("a-b-c", '-'),
        Some(("a".to_owned(), "b-c".to_owned()))
    );
    assert_eq!(split_once("abc", '-'), None);
    assert_eq!(strip_prefix("./a", "./"), Some("a".to_owned()));
    assert_eq!(strip_prefix("a", "./"), None);
    assert_eq!(trim_trailing("a//", '/'), "a");
}

#[test]
fn trims_lowers_and_searches() {
    assert_eq!(trim_text(" \t\u{3000}token\u{a0}\n"), "token");
    assert_eq!(lower_text("Gated REPO \u{c9}"), "gated repo \u{c9}");
    assert!(contains_text("abcabd", "abd"));
    assert!(!contains_text("abcab", "abd"));
    assert!(contains_text("", ""));
}

#[test]
fn orders_texts_as_their_bytes() {
    let texts = ["", "a", "a.bin", "a/b", "b", "\u{e9}", "\u{ffff}", "\u{10000}"];
    for left in texts {
        for right in texts {
            assert_eq!(is_ordered(left, right), left <= right);
        }
    }
}
