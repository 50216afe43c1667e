use json_parser::{
    parse_bool, parse_null, parse_num, parse_string, Cursor, Decimal, ErrorKind, Num, ParseError,
};

fn as_f64(n: &Num) -> f64 {
    match n {
        Num::Int(i) => *i as f64,
        Num::Float(d) => d.to_text().parse().unwrap(),
    }
}

fn decimal(negative: bool, integer: &[u8], fraction: &[u8]) -> Num {
    Num::Float(Decimal::new(negative, integer.to_vec(), fraction.to_vec()).unwrap())
}

#[test]
fn test_parse_null() {
    let s = "null";
    let mut input = Cursor::new(s);
    parse_null(&mut input).unwrap();
    assert!(input.is_exhausted());
}

#[test]
fn test_parse_bool() {
    let s = "true";
    let mut input = Cursor::new(s);
    let result = parse_bool(&mut input).unwrap();
    assert!(result);

    let s = "false";
    let mut input = Cursor::new(s);
    let result = parse_bool(&mut input).unwrap();
    assert!(!result);
}

#[test]
fn test_parse_num() {
    let s = "123";
    let mut input = Cursor::new(s);
    let result = parse_num(&mut input).unwrap();
    assert_eq!(result, Num::Int(123));

    let s = "-123";
    let mut input = Cursor::new(s);
    let result = parse_num(&mut input).unwrap();
    assert_eq!(result, Num::Int(-123));

    let s = "123.45";
    let mut input = Cursor::new(s);
    let result = parse_num(&mut input).unwrap();
    assert_eq!(result, decimal(false, &[1, 2, 3], &[4, 5]));
    assert_eq!(as_f64(&result), 123.45);

    let s = "-123.45";
    let mut input = Cursor::new(s);
    let result = parse_num(&mut input).unwrap();
    assert_eq!(result, decimal(true, &[1, 2, 3], &[4, 5]));
    assert_eq!(as_f64(&result), -123.45);
}

#[test]
fn test_parse_string() {
    let s = r#""hello""#;
    let mut input = Cursor::new(s);
    let result = parse_string(&mut input).unwrap();
    assert_eq!(result, "hello".to_string());
}

#[test]
fn bool_literals_are_consumed_whole() {
    for (text, value) in [("true", true), ("false", false)] {
        let mut input = Cursor::new(text);
        assert_eq!(parse_bool(&mut input), Ok(value));
        assert!(input.is_exhausted());
        assert_eq!(input.position(), text.len());
    }
}

#[test]
fn keywords_are_case_sensitive() {
    let mut input = Cursor::new("True");
    assert_eq!(
        parse_bool(&mut input),
        Err(ParseError { kind: ErrorKind::LiteralMismatch, offset: 0 })
    );
    let mut input = Cursor::new("NULL");
    assert_eq!(
        parse_null(&mut input),
        Err(ParseError { kind: ErrorKind::LiteralMismatch, offset: 0 })
    );
}

#[test]
fn a_keyword_cut_short_is_a_mismatch_and_leaves_the_offset() {
    let mut input = Cursor::new("xx nul");
    input.matches("xx ").unwrap();
    assert_eq!(
        parse_null(&mut input),
        Err(ParseError { kind: ErrorKind::LiteralMismatch, offset: 3 })
    );
    assert_eq!(input.position(), 3);
}

#[test]
fn a_keyword_at_the_end_of_input_is_an_unexpected_end() {
    let mut input = Cursor::new("");
    assert_eq!(
        parse_null(&mut input),
        Err(ParseError { kind: ErrorKind::UnexpectedEnd, offset: 0 })
    );
    assert_eq!(
        parse_bool(&mut input),
        Err(ParseError { kind: ErrorKind::UnexpectedEnd, offset: 0 })
    );
}

#[test]
fn a_point_makes_a_decimal_even_with_a_zero_fraction() {
    let mut input = Cursor::new("1.0");
    assert_eq!(parse_num(&mut input), Ok(decimal(false, &[1], &[0])));
    let mut input = Cursor::new("1");
    assert_eq!(parse_num(&mut input), Ok(Num::Int(1)));
}

#[test]
fn a_decimal_keeps_its_digits_as_written() {
    let mut input = Cursor::new("1.05");
    let n = parse_num(&mut input).unwrap();
    assert_eq!(n, decimal(false, &[1], &[0, 5]));
    assert_eq!(as_f64(&n), 1.05);

    let mut input = Cursor::new("007.50");
    let n = parse_num(&mut input).unwrap();
    assert_eq!(n, decimal(false, &[0, 0, 7], &[5, 0]));
    assert_eq!(as_f64(&n), 7.5);

    let mut input = Cursor::new("-0.0");
    let n = parse_num(&mut input).unwrap();
    assert_eq!(n, decimal(true, &[0], &[0]));
    assert!(as_f64(&n).is_sign_negative());
}

#[test]
fn a_decimal_may_have_more_digits_than_an_integer_could() {
    let mut input = Cursor::new("123456789012345678901234567890.123456789012345678901234567890");
    let n = parse_num(&mut input).unwrap();
    assert!(input.is_exhausted());
    assert_eq!(as_f64(&n), 123456789012345678901234567890.123456789012345678901234567890);
}

#[test]
fn integers_reach_the_largest_magnitude_and_no_further() {
    let mut input = Cursor::new("9223372036854775807");
    assert_eq!(parse_num(&mut input), Ok(Num::Int(i64::MAX)));
    let mut input = Cursor::new("-9223372036854775807");
    assert_eq!(parse_num(&mut input), Ok(Num::Int(-i64::MAX)));
    let mut input = Cursor::new("9223372036854775808");
    assert_eq!(
        parse_num(&mut input),
        Err(ParseError { kind: ErrorKind::NumberOutOfRange, offset: 0 })
    );
    assert_eq!(input.position(), 0);
    let mut input = Cursor::new("-9223372036854775808");
    assert_eq!(
        parse_num(&mut input),
        Err(ParseError { kind: ErrorKind::NumberOutOfRange, offset: 0 })
    );
    let mut input = Cursor::new("00000000000000000000000000042");
    assert_eq!(parse_num(&mut input), Ok(Num::Int(42)));
}

#[test]
fn minus_zero_is_the_integer_zero() {
    let mut input = Cursor::new("-0");
    assert_eq!(parse_num(&mut input), Ok(Num::Int(0)));
}

#[test]
fn a_sign_without_digits_fails_after_the_sign() {
    let mut input = Cursor::new("-");
    assert_eq!(
        parse_num(&mut input),
        Err(ParseError { kind: ErrorKind::EmptyDigitRun, offset: 1 })
    );
    assert_eq!(input.position(), 0);
    let mut input = Cursor::new("-x");
    assert_eq!(
        parse_num(&mut input),
        Err(ParseError { kind: ErrorKind::EmptyDigitRun, offset: 1 })
    );
    assert_eq!(input.position(), 0);
}

#[test]
fn a_point_without_digits_fails_after_the_point() {
    let mut input = Cursor::new("12.");
    assert_eq!(
        parse_num(&mut input),
        Err(ParseError { kind: ErrorKind::EmptyDigitRun, offset: 3 })
    );
    assert_eq!(input.position(), 0);
    let mut input = Cursor::new("12.x");
    assert_eq!(
        parse_num(&mut input),
        Err(ParseError { kind: ErrorKind::EmptyDigitRun, offset: 3 })
    );
}

#[test]
fn no_digit_at_all_is_an_empty_run_at_the_offset() {
    let mut input = Cursor::new("abc");
    assert_eq!(
        parse_num(&mut input),
        Err(ParseError { kind: ErrorKind::EmptyDigitRun, offset: 0 })
    );
    let mut input = Cursor::new(".5");
    assert_eq!(
        parse_num(&mut input),
        Err(ParseError { kind: ErrorKind::EmptyDigitRun, offset: 0 })
    );
}

#[test]
fn an_exponent_is_left_unconsumed() {
    let mut input = Cursor::new("1e5");
    assert_eq!(parse_num(&mut input), Ok(Num::Int(1)));
    assert_eq!(input.position(), 1);
    let mut input = Cursor::new("1.5E3");
    assert_eq!(parse_num(&mut input), Ok(decimal(false, &[1], &[5])));
    assert_eq!(input.position(), 3);
}

#[test]
fn a_second_point_is_left_unconsumed() {
    let mut input = Cursor::new("1.2.3");
    assert_eq!(parse_num(&mut input), Ok(decimal(false, &[1], &[2])));
    assert_eq!(input.position(), 3);
}

#[test]
fn a_string_is_taken_as_it_stands() {
    let mut input = Cursor::new(r#""a\nb""#);
    assert_eq!(parse_string(&mut input), Ok("a\\nb".to_string()));
    assert!(input.is_exhausted());
}

#[test]
fn a_backslash_does_not_protect_a_quote() {
    let mut input = Cursor::new(r#""say \"hi\"""#);
    assert_eq!(parse_string(&mut input), Ok("say \\".to_string()));
    assert_eq!(input.position(), 7);
}

#[test]
fn an_empty_string_parses() {
    let mut input = Cursor::new(r#""""#);
    assert_eq!(parse_string(&mut input), Ok(String::new()));
    assert!(input.is_exhausted());
}

#[test]
fn a_string_may_hold_any_characters_but_a_quote() {
    let text = "\"h\u{e9}llo \u{4e16}\u{754c} \u{1f600} [1, 2] {}\"";
    let mut input = Cursor::new(text);
    assert_eq!(
        parse_string(&mut input),
        Ok("h\u{e9}llo \u{4e16}\u{754c} \u{1f600} [1, 2] {}".to_string())
    );
    assert!(input.is_exhausted());
}

#[test]
fn a_string_without_a_closing_quote_is_unterminated() {
    let mut input = Cursor::new("  \"abc");
    input.skip_whitespace();
    assert_eq!(
        parse_string(&mut input),
        Err(ParseError { kind: ErrorKind::UnterminatedString, offset: 2 })
    );
    assert_eq!(input.position(), 2);
}

#[test]
fn a_string_needs_an_opening_quote() {
    let mut input = Cursor::new("abc\"");
    assert_eq!(
        parse_string(&mut input),
        Err(ParseError { kind: ErrorKind::LiteralMismatch, offset: 0 })
    );
    let mut input = Cursor::new("");
    assert_eq!(
        parse_string(&mut input),
        Err(ParseError { kind: ErrorKind::UnexpectedEnd, offset: 0 })
    );
}

#[test]
fn a_decimal_is_made_of_digits_on_both_sides() {
    assert!(Decimal::new(false, vec![1], vec![2]).is_some());
    assert!(Decimal::new(false, vec![], vec![2]).is_none());
    assert!(Decimal::new(false, vec![1], vec![]).is_none());
    assert!(Decimal::new(false, vec![10], vec![2]).is_none());
    assert!(Decimal::new(true, vec![1], vec![2, 255]).is_none());
    let d = Decimal::new(true, vec![1, 2], vec![0, 5]).unwrap();
    assert!(d.is_negative());
    assert_eq!(d.integer_digits(), &vec![1, 2]);
    assert_eq!(d.fraction_digits(), &vec![0, 5]);
    assert_eq!(d.to_text(), "-12.05");
    assert_eq!(d.clone(), d);
}
