use json_parser::{Cursor, ErrorKind, ParseError};

#[test]
fn a_new_cursor_is_at_the_start() {
    let cursor = Cursor::new("abc");
    assert_eq!(cursor.position(), 0);
    assert!(!cursor.is_exhausted());
    assert!(Cursor::new("").is_exhausted());
}

#[test]
fn peek_looks_without_consuming() {
    let mut cursor = Cursor::new("a\u{e9}\u{1f600}");
    assert_eq!(cursor.peek(), Some('a'));
    assert_eq!(cursor.position(), 0);
    cursor.matches("a").unwrap();
    assert_eq!(cursor.peek(), Some('\u{e9}'));
    cursor.matches("\u{e9}").unwrap();
    assert_eq!(cursor.position(), 3);
    assert_eq!(cursor.peek(), Some('\u{1f600}'));
    cursor.matches("\u{1f600}").unwrap();
    assert_eq!(cursor.peek(), None);
    assert!(cursor.is_exhausted());
}

#[test]
fn matches_consumes_the_literal_or_nothing() {
    let mut cursor = Cursor::new("nullx");
    assert_eq!(cursor.matches("null"), Ok(()));
    assert_eq!(cursor.position(), 4);
    assert_eq!(
        cursor.matches("null"),
        Err(ParseError { kind: ErrorKind::LiteralMismatch, offset: 4 })
    );
    assert_eq!(cursor.position(), 4);
    assert_eq!(cursor.matches("x"), Ok(()));
    assert_eq!(
        cursor.matches("x"),
        Err(ParseError { kind: ErrorKind::UnexpectedEnd, offset: 5 })
    );
    assert_eq!(cursor.matches(""), Ok(()));
    assert_eq!(cursor.position(), 5);
}

#[test]
fn matches_is_case_sensitive() {
    let mut cursor = Cursor::new("Null");
    assert!(cursor.matches("null").is_err());
    assert_eq!(cursor.position(), 0);
}

#[test]
fn take_digits_takes_the_longest_run() {
    let mut cursor = Cursor::new("12345abc");
    assert_eq!(cursor.take_digits(), Ok("12345"));
    assert_eq!(cursor.position(), 5);
    assert_eq!(
        cursor.take_digits(),
        Err(ParseError { kind: ErrorKind::EmptyDigitRun, offset: 5 })
    );
    assert_eq!(cursor.position(), 5);
}

#[test]
fn take_digits_fails_at_the_end_of_input() {
    let mut cursor = Cursor::new("");
    assert_eq!(
        cursor.take_digits(),
        Err(ParseError { kind: ErrorKind::EmptyDigitRun, offset: 0 })
    );
}

#[test]
fn take_until_stops_before_the_delimiter() {
    let mut cursor = Cursor::new("GET /index HTTP/1.1");
    assert_eq!(cursor.take_until(" "), Ok("GET"));
    assert_eq!(cursor.position(), 3);
    assert_eq!(cursor.take_until(" "), Ok(""));
    assert_eq!(cursor.position(), 3);
    cursor.matches(" ").unwrap();
    assert_eq!(cursor.take_until(" HTTP"), Ok("/index"));
    assert_eq!(cursor.position(), 10);
}

#[test]
fn take_until_fails_at_the_end_when_the_delimiter_is_missing() {
    let mut cursor = Cursor::new("abc def");
    cursor.matches("abc").unwrap();
    assert_eq!(
        cursor.take_until("\""),
        Err(ParseError { kind: ErrorKind::UnexpectedEnd, offset: 7 })
    );
    assert_eq!(cursor.position(), 3);
}

#[test]
fn take_until_works_on_text_that_is_not_ascii() {
    let mut cursor = Cursor::new("\u{e9}t\u{e9}\u{2192}fin");
    assert_eq!(cursor.take_until("\u{2192}"), Ok("\u{e9}t\u{e9}"));
    assert_eq!(cursor.position(), 5);
    assert_eq!(cursor.peek(), Some('\u{2192}'));
}

#[test]
fn take_until_with_an_empty_delimiter_takes_nothing() {
    let mut cursor = Cursor::new("abc");
    assert_eq!(cursor.take_until(""), Ok(""));
    assert_eq!(cursor.position(), 0);
}

#[test]
fn skip_whitespace_skips_spaces_tabs_and_line_ends() {
    let mut cursor = Cursor::new(" \t\r\n x ");
    cursor.skip_whitespace();
    assert_eq!(cursor.position(), 5);
    cursor.skip_whitespace();
    assert_eq!(cursor.position(), 5);
    cursor.matches("x").unwrap();
    cursor.skip_whitespace();
    assert!(cursor.is_exhausted());
}

#[test]
fn skip_whitespace_leaves_other_blank_characters() {
    let mut cursor = Cursor::new("\u{a0}x");
    cursor.skip_whitespace();
    assert_eq!(cursor.position(), 0);
    let mut cursor = Cursor::new("\u{b}x");
    cursor.skip_whitespace();
    assert_eq!(cursor.position(), 0);
}

#[test]
fn a_cursor_can_be_copied_to_try_again() {
    let mut cursor = Cursor::new("12ab");
    let saved = cursor;
    cursor.take_digits().unwrap();
    assert_eq!(cursor.position(), 2);
    cursor = saved;
    assert_eq!(cursor.position(), 0);
    assert_eq!(cursor.take_digits(), Ok("12"));
}

#[test]
fn the_fields_of_a_log_line_can_be_taken_with_the_primitives() {
    let line = "304 0 \"-\" \"Debian APT-HTTP/1.3\"";
    let mut cursor = Cursor::new(line);
    assert_eq!(cursor.take_digits(), Ok("304"));
    cursor.skip_whitespace();
    assert_eq!(cursor.take_digits(), Ok("0"));
    cursor.skip_whitespace();
    assert_eq!(json_parser::parse_string(&mut cursor), Ok("-".to_string()));
    cursor.skip_whitespace();
    assert_eq!(json_parser::parse_string(&mut cursor), Ok("Debian APT-HTTP/1.3".to_string()));
    assert!(cursor.is_exhausted());
}

#[test]
fn an_error_says_what_was_expected_and_where() {
    let e = ParseError::new(ErrorKind::UnterminatedString, 17);
    assert_eq!(e.message(), "expected closing quote at offset 17");
    assert_eq!(ErrorKind::EmptyDigitRun.expectation(), "expected a digit");
    assert_eq!(
        ParseError::new(ErrorKind::NoAlternativeMatched, 0).message(),
        "no value could be parsed at offset 0"
    );
    assert_eq!(
        ParseError::new(ErrorKind::UnexpectedEnd, 1234567890).message(),
        "unexpected end of input at offset 1234567890"
    );
    assert_eq!(
        ParseError::new(ErrorKind::LiteralMismatch, 9).message(),
        "expected keyword or character not found at offset 9"
    );
    assert_eq!(
        ParseError::new(ErrorKind::TrailingContent, 10).message(),
        "unexpected content after the value at offset 10"
    );
    assert_eq!(
        ParseError::new(ErrorKind::NumberOutOfRange, 3).message(),
        "integer out of range at offset 3"
    );
    assert_eq!(
        ParseError::new(ErrorKind::DepthLimitExceeded, 128).message(),
        "nesting too deep at offset 128"
    );
}
