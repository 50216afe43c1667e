use json_parser::{
    parse_array, parse_json, parse_member, parse_object, parse_value, Cursor, Decimal, ErrorKind,
    JsonValue, Member, Num, ParseError, MAX_DEPTH,
};

fn integer(i: i64) -> JsonValue {
    JsonValue::Number(Num::Int(i))
}

fn text(s: &str) -> JsonValue {
    JsonValue::String(s.to_string())
}

fn member(key: &str, value: JsonValue) -> Member {
    Member { key: key.to_string(), value }
}

fn failure(kind: ErrorKind, offset: usize) -> Result<JsonValue, ParseError> {
    Err(ParseError { kind, offset })
}

#[test]
fn test_parse_array() {
    let s = r#"[1, 2, 3]"#;
    let mut input = Cursor::new(s);
    let result = parse_array(&mut input, MAX_DEPTH).unwrap();

    assert_eq!(
        result,
        vec![
            JsonValue::Number(Num::Int(1)),
            JsonValue::Number(Num::Int(2)),
            JsonValue::Number(Num::Int(3))
        ]
    );
}

#[test]
fn test_parse_object() {
    let s = r#"{"name": "John Doe", "age": 43}"#;
    let mut input = Cursor::new(s);
    let result = JsonValue::Object(parse_object(&mut input, MAX_DEPTH).unwrap());
    assert_eq!(result.get("name"), Some(&JsonValue::String("John Doe".to_string())));
    assert_eq!(result.get("age"), Some(&JsonValue::Number(Num::Int(43))));
    match &result {
        JsonValue::Object(members) => assert_eq!(members.len(), 2),
        _ => unreachable!(),
    }
}

#[test]
fn test_parse_value() {
    let s = r#""hello""#;
    let mut input = Cursor::new(s);
    let result = parse_value(&mut input, MAX_DEPTH).unwrap();
    assert_eq!(result, JsonValue::String("hello".to_string()));
}

#[test]
fn an_array_reads_the_same_with_and_without_whitespace() {
    let spaced = parse_json("[1, 2, 3]").unwrap();
    let compact = parse_json("[1,2,3]").unwrap();
    let airy = parse_json("[\n\t1 ,\r\n 2 , 3\n]").unwrap();
    assert_eq!(spaced, JsonValue::Array(vec![integer(1), integer(2), integer(3)]));
    assert_eq!(compact, spaced);
    assert_eq!(airy, spaced);
}

#[test]
fn an_object_reads_the_same_with_and_without_whitespace() {
    let spaced = parse_json("{ \"a\" : 1 , \"b\" : [ true , null ] }").unwrap();
    let compact = parse_json("{\"a\":1,\"b\":[true,null]}").unwrap();
    assert_eq!(compact, spaced);
    assert_eq!(
        compact,
        JsonValue::Object(vec![
            member("a", integer(1)),
            member("b", JsonValue::Array(vec![JsonValue::Bool(true), JsonValue::Null])),
        ])
    );
}

#[test]
fn empty_arrays_and_objects_are_rejected() {
    assert_eq!(parse_json("[]"), failure(ErrorKind::NoAlternativeMatched, 1));
    assert_eq!(parse_json("{}"), failure(ErrorKind::LiteralMismatch, 1));
    assert_eq!(parse_json("[ ]"), failure(ErrorKind::NoAlternativeMatched, 2));
    assert_eq!(parse_json("{ }"), failure(ErrorKind::LiteralMismatch, 2));
    let mut input = Cursor::new("[]");
    assert!(parse_array(&mut input, MAX_DEPTH).is_err());
    assert_eq!(input.position(), 0);
    let mut input = Cursor::new("{}");
    assert!(parse_object(&mut input, MAX_DEPTH).is_err());
    assert_eq!(input.position(), 0);
}

#[test]
fn a_missing_value_fails_where_it_is_missing() {
    let s = r#"{"a": }"#;
    assert_eq!(s.find('}'), Some(6));
    assert_eq!(parse_json(s), failure(ErrorKind::NoAlternativeMatched, 6));
    let mut input = Cursor::new(s);
    assert_eq!(
        parse_value(&mut input, MAX_DEPTH),
        failure(ErrorKind::NoAlternativeMatched, 6)
    );
    assert_eq!(input.position(), 0);
}

#[test]
fn nothing_that_begins_a_value_is_no_alternative() {
    assert_eq!(parse_json(""), failure(ErrorKind::NoAlternativeMatched, 0));
    assert_eq!(parse_json("?"), failure(ErrorKind::NoAlternativeMatched, 0));
    assert_eq!(parse_json("nul"), failure(ErrorKind::NoAlternativeMatched, 0));
    assert_eq!(parse_json("[1, ?]"), failure(ErrorKind::NoAlternativeMatched, 4));
}

#[test]
fn leading_whitespace_is_no_part_of_a_value() {
    assert_eq!(parse_json(" 1"), failure(ErrorKind::NoAlternativeMatched, 0));
    assert_eq!(parse_json("\n[1]"), failure(ErrorKind::NoAlternativeMatched, 0));
}

#[test]
fn trailing_whitespace_is_accepted_and_other_content_is_not() {
    assert_eq!(parse_json("[1] \n\t"), Ok(JsonValue::Array(vec![integer(1)])));
    assert_eq!(parse_json("true  "), Ok(JsonValue::Bool(true)));
    assert_eq!(parse_json("[1] x"), failure(ErrorKind::TrailingContent, 4));
    assert_eq!(parse_json("1e5"), failure(ErrorKind::TrailingContent, 1));
    assert_eq!(parse_json("nullnull"), failure(ErrorKind::TrailingContent, 4));
    assert_eq!(parse_json("1 2"), failure(ErrorKind::TrailingContent, 2));
}

#[test]
fn parse_value_stops_after_the_value() {
    let mut input = Cursor::new("[1, 2] rest");
    assert_eq!(parse_value(&mut input, MAX_DEPTH), Ok(JsonValue::Array(vec![integer(1), integer(2)])));
    assert_eq!(input.position(), 6);
}

#[test]
fn a_failure_inside_a_value_is_reported_as_it_is() {
    assert_eq!(parse_json("[1, -]"), failure(ErrorKind::EmptyDigitRun, 5));
    assert_eq!(parse_json("[1, 2.]"), failure(ErrorKind::EmptyDigitRun, 6));
    assert_eq!(parse_json("[\"abc]"), failure(ErrorKind::UnterminatedString, 1));
    assert_eq!(parse_json("[99999999999999999999]"), failure(ErrorKind::NumberOutOfRange, 1));
    assert_eq!(parse_json("-"), failure(ErrorKind::EmptyDigitRun, 1));
    assert_eq!(parse_json("\"abc"), failure(ErrorKind::UnterminatedString, 0));
}

#[test]
fn an_array_that_is_not_closed_fails_where_the_bracket_is_due() {
    assert_eq!(parse_json("[1, 2"), failure(ErrorKind::UnexpectedEnd, 5));
    assert_eq!(parse_json("[1 2]"), failure(ErrorKind::LiteralMismatch, 3));
    assert_eq!(parse_json("[1,"), failure(ErrorKind::NoAlternativeMatched, 3));
    assert_eq!(parse_json("[1,]"), failure(ErrorKind::NoAlternativeMatched, 3));
    assert_eq!(parse_json("["), failure(ErrorKind::NoAlternativeMatched, 1));
}

#[test]
fn an_object_fails_where_its_next_token_is_due() {
    assert_eq!(parse_json("{\"a\" 1}"), failure(ErrorKind::LiteralMismatch, 5));
    assert_eq!(parse_json("{\"a\""), failure(ErrorKind::UnexpectedEnd, 4));
    assert_eq!(parse_json("{\"a\": 1"), failure(ErrorKind::UnexpectedEnd, 7));
    assert_eq!(parse_json("{\"a\": 1 \"b\": 2}"), failure(ErrorKind::LiteralMismatch, 8));
    assert_eq!(parse_json("{\"a\": 1,}"), failure(ErrorKind::LiteralMismatch, 8));
    assert_eq!(parse_json("{1: 2}"), failure(ErrorKind::LiteralMismatch, 1));
    assert_eq!(parse_json("{\"a: 1}"), failure(ErrorKind::UnterminatedString, 1));
    assert_eq!(parse_json("{"), failure(ErrorKind::UnexpectedEnd, 1));
}

#[test]
fn keys_are_strings_only() {
    assert!(parse_json("{null: 1}").is_err());
    assert!(parse_json("{[1]: 1}").is_err());
}

#[test]
fn of_two_members_with_one_key_the_later_gives_the_value() {
    let v = parse_json(r#"{"a": 1, "b": 2, "a": 3}"#).unwrap();
    assert_eq!(v, JsonValue::Object(vec![member("a", integer(3)), member("b", integer(2))]));
    assert_eq!(v.get("a"), Some(&integer(3)));
    assert_eq!(v.get("b"), Some(&integer(2)));
    assert_eq!(v.get("c"), None);
}

#[test]
fn get_finds_nothing_in_what_is_no_object() {
    assert_eq!(integer(1).get("a"), None);
    assert_eq!(JsonValue::Array(vec![text("a")]).get("a"), None);
    assert_eq!(JsonValue::Null.get(""), None);
}

#[test]
fn get_compares_keys_exactly() {
    let v = parse_json("{\"\u{e9}\": 1, \"\": 2, \"A\": 3}").unwrap();
    assert_eq!(v.get("\u{e9}"), Some(&integer(1)));
    assert_eq!(v.get(""), Some(&integer(2)));
    assert_eq!(v.get("A"), Some(&integer(3)));
    assert_eq!(v.get("a"), None);
    assert_eq!(v.get("e"), None);
}

#[test]
fn a_member_is_a_key_a_colon_and_a_value() {
    let mut input = Cursor::new("\"k\" :\t[1]!");
    assert_eq!(
        parse_member(&mut input, MAX_DEPTH),
        Ok(member("k", JsonValue::Array(vec![integer(1)])))
    );
    assert_eq!(input.position(), 9);
    let mut input = Cursor::new("\"k\" 1");
    assert_eq!(
        parse_member(&mut input, MAX_DEPTH),
        Err(ParseError { kind: ErrorKind::LiteralMismatch, offset: 4 })
    );
    assert_eq!(input.position(), 0);
}

#[test]
fn the_sample_document_parses() {
    let s = r#"{
        "name": "John Doe",
        "age": 43,
        "is_student": false,
        "marks": [87.0, 90, -45.7, 67.9],
        "address": {
            "city": "New York",
            "zip": 10001
        }
    }"#;
    let v = parse_json(s).unwrap();
    assert_eq!(v.get("name"), Some(&text("John Doe")));
    assert_eq!(v.get("age"), Some(&integer(43)));
    assert_eq!(v.get("is_student"), Some(&JsonValue::Bool(false)));
    let marks = JsonValue::Array(vec![
        JsonValue::Number(Num::Float(Decimal::new(false, vec![8, 7], vec![0]).unwrap())),
        integer(90),
        JsonValue::Number(Num::Float(Decimal::new(true, vec![4, 5], vec![7]).unwrap())),
        JsonValue::Number(Num::Float(Decimal::new(false, vec![6, 7], vec![9]).unwrap())),
    ]);
    assert_eq!(v.get("marks"), Some(&marks));
    let address = v.get("address").unwrap();
    assert_eq!(address.get("city"), Some(&text("New York")));
    assert_eq!(address.get("zip"), Some(&integer(10001)));
}

#[test]
fn nesting_is_accepted_up_to_the_limit() {
    let deep = format!("{}1{}", "[".repeat(MAX_DEPTH), "]".repeat(MAX_DEPTH));
    let mut v = &parse_json(&deep).unwrap();
    let mut levels = 0;
    while let JsonValue::Array(items) = v {
        assert_eq!(items.len(), 1);
        v = &items[0];
        levels += 1;
    }
    assert_eq!(levels, MAX_DEPTH);
    assert_eq!(v, &integer(1));
}

#[test]
fn nesting_beyond_the_limit_is_an_error_at_the_bracket_too_many() {
    let deep = format!("{}1{}", "[".repeat(MAX_DEPTH + 1), "]".repeat(MAX_DEPTH + 1));
    assert_eq!(parse_json(&deep), failure(ErrorKind::DepthLimitExceeded, MAX_DEPTH));
    let deep = "[".repeat(100_000);
    assert_eq!(parse_json(&deep), failure(ErrorKind::DepthLimitExceeded, MAX_DEPTH));
    let deep = "{\"a\":".repeat(MAX_DEPTH + 1);
    assert_eq!(parse_json(&deep), failure(ErrorKind::DepthLimitExceeded, 5 * MAX_DEPTH));
}

#[test]
fn the_depth_is_a_budget_for_arrays_and_objects_only() {
    let mut input = Cursor::new("[1]");
    assert_eq!(
        parse_value(&mut input, 0),
        failure(ErrorKind::DepthLimitExceeded, 0)
    );
    assert_eq!(input.position(), 0);
    let mut input = Cursor::new("17");
    assert_eq!(parse_value(&mut input, 0), Ok(integer(17)));
    let mut input = Cursor::new("[[1]]");
    assert_eq!(
        parse_value(&mut input, 1),
        failure(ErrorKind::DepthLimitExceeded, 1)
    );
    let mut input = Cursor::new("[{\"a\": 1}]");
    assert_eq!(
        parse_array(&mut input, 1),
        Err(ParseError { kind: ErrorKind::DepthLimitExceeded, offset: 1 })
    );
    let mut input = Cursor::new("[{\"a\": 1}]");
    assert!(parse_array(&mut input, 2).is_ok());
}

#[test]
fn an_array_needs_its_bracket_and_an_object_its_brace() {
    let mut input = Cursor::new("{\"a\": 1}");
    assert_eq!(
        parse_array(&mut input, MAX_DEPTH),
        Err(ParseError { kind: ErrorKind::LiteralMismatch, offset: 0 })
    );
    let mut input = Cursor::new("[1]");
    assert_eq!(
        parse_object(&mut input, MAX_DEPTH),
        Err(ParseError { kind: ErrorKind::LiteralMismatch, offset: 0 })
    );
    let mut input = Cursor::new("");
    assert_eq!(
        parse_array(&mut input, MAX_DEPTH),
        Err(ParseError { kind: ErrorKind::UnexpectedEnd, offset: 0 })
    );
}

#[test]
fn a_clone_equals_what_it_copies() {
    let v = parse_json(r#"{"a": [1, 2.5, "x", null, true], "b": {"c": -7}}"#).unwrap();
    assert_eq!(v.clone(), v);
    let m = member("k", v.clone());
    assert_eq!(m.clone(), m);
    assert_eq!(Num::Int(3).clone(), Num::Int(3));
}

#[test]
fn objects_are_the_same_whatever_the_order_of_their_members() {
    let one = parse_json(r#"{"a": 1, "b": [true, {"x": "y", "z": null}]}"#).unwrap();
    let other = parse_json(r#"{"b": [true, {"z": null, "x": "y"}], "a": 1}"#).unwrap();
    assert_eq!(one, other);
    assert_eq!(other, one);
    assert_ne!(one.to_text(), other.to_text());
    assert_eq!(Ok(one), parse_json(&other.to_text()));
}

#[test]
fn values_that_differ_are_not_the_same() {
    let base = parse_json(r#"{"a": 1, "b": 2}"#).unwrap();
    for different in [
        r#"{"a": 1}"#,
        r#"{"a": 1, "b": 2, "c": 3}"#,
        r#"{"a": 1, "b": 3}"#,
        r#"{"a": 1, "c": 2}"#,
        r#"{"a": 2, "b": 1}"#,
        r#"[1, 2]"#,
        r#"null"#,
    ] {
        let other = parse_json(different).unwrap();
        assert_ne!(base, other, "{}", different);
        assert_ne!(other, base, "{}", different);
    }
    assert_ne!(parse_json("[1, 2]"), parse_json("[2, 1]"));
    assert_ne!(parse_json("[1, 2]"), parse_json("[1, 2, 3]"));
    assert_ne!(parse_json("[1, 2, 3]"), parse_json("[1, 2]"));
    assert_ne!(parse_json("1"), parse_json("1.0"));
    assert_ne!(parse_json("1.0"), parse_json("1.00"));
    assert_ne!(parse_json("1.5"), parse_json("-1.5"));
    assert_ne!(parse_json("\"a\""), parse_json("\"b\""));
    assert_ne!(parse_json("true"), parse_json("false"));
    assert_ne!(parse_json("null"), parse_json("false"));
    assert_eq!(parse_json("-0"), parse_json("0"));
    assert_eq!(parse_json("1.50"), parse_json("1.50"));
}

#[test]
fn where_a_key_stands_twice_the_first_member_counts() {
    let twice = JsonValue::Object(vec![member("a", integer(1)), member("a", integer(2))]);
    let once = JsonValue::Object(vec![member("a", integer(1))]);
    assert_eq!(twice.get("a"), Some(&integer(1)));
    assert_eq!(twice, once);
    assert_eq!(once, twice);
}
