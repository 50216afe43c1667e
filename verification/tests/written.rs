use json_parser::{parse_json, Decimal, ErrorKind, JsonValue, Member, Num, MAX_DEPTH};

fn integer(i: i64) -> JsonValue {
    JsonValue::Number(Num::Int(i))
}

fn member(key: &str, value: JsonValue) -> Member {
    Member { key: key.to_string(), value }
}

#[test]
fn scalars_are_written_in_their_shortest_form() {
    assert_eq!(JsonValue::Null.to_text(), "null");
    assert_eq!(JsonValue::Bool(true).to_text(), "true");
    assert_eq!(JsonValue::Bool(false).to_text(), "false");
    assert_eq!(integer(0).to_text(), "0");
    assert_eq!(integer(7).to_text(), "7");
    assert_eq!(integer(10).to_text(), "10");
    assert_eq!(integer(-123).to_text(), "-123");
    assert_eq!(integer(i64::MAX).to_text(), "9223372036854775807");
    assert_eq!(integer(i64::MIN).to_text(), "-9223372036854775808");
    assert_eq!(JsonValue::String("hello".to_string()).to_text(), "\"hello\"");
    assert_eq!(JsonValue::String(String::new()).to_text(), "\"\"");
    assert_eq!(
        JsonValue::String("h\u{e9} \u{1f600}".to_string()).to_text(),
        "\"h\u{e9} \u{1f600}\""
    );
}

#[test]
fn decimals_are_written_as_they_were_read() {
    let d = Decimal::new(true, vec![0, 1, 2], vec![5, 0]).unwrap();
    assert_eq!(JsonValue::Number(Num::Float(d)).to_text(), "-012.50");
    let d = Decimal::new(false, vec![3], vec![1, 4]).unwrap();
    assert_eq!(d.to_text(), "3.14");
}

#[test]
fn arrays_and_objects_are_written_without_whitespace() {
    let v = JsonValue::Array(vec![integer(1), integer(2), integer(3)]);
    assert_eq!(v.to_text(), "[1,2,3]");
    let v = JsonValue::Array(vec![JsonValue::Null]);
    assert_eq!(v.to_text(), "[null]");
    let v = JsonValue::Object(vec![
        member("name", JsonValue::String("John Doe".to_string())),
        member("age", integer(43)),
        member("tags", JsonValue::Array(vec![JsonValue::Bool(true), JsonValue::Array(vec![integer(-1)])])),
    ]);
    assert_eq!(v.to_text(), "{\"name\":\"John Doe\",\"age\":43,\"tags\":[true,[-1]]}");
    assert_eq!(JsonValue::Array(vec![]).to_text(), "[]");
    assert_eq!(JsonValue::Object(vec![]).to_text(), "{}");
}

#[test]
fn what_was_parsed_and_written_parses_to_the_same_value() {
    let documents = [
        "null",
        "true",
        "false",
        "0",
        "-0",
        "007",
        "-9223372036854775807",
        "1.50",
        "-0.0",
        "\"\"",
        "\"hello, w\u{f6}rld\"",
        "[1, 2, 3]",
        "[[[\"x\"]], {\"a\": [null]}]",
        "{\"name\": \"John Doe\", \"age\": 43}",
        "{\"a\": 1, \"b\": {\"a\": 2, \"c\": [1.5, -2, \"s\"]}, \"a\": 3}  ",
        "{ \"k\" :\n[ true ,\tfalse ] }",
    ];
    for document in documents {
        let value = parse_json(document).unwrap();
        let written = value.to_text();
        assert_eq!(parse_json(&written), Ok(value), "{}", document);
    }
}

#[test]
fn compact_text_is_written_back_unchanged() {
    for document in ["[1,2,3]", "{\"a\":[true,null,\"x\"],\"b\":-1.25}", "\"s\"", "12"] {
        assert_eq!(parse_json(document).unwrap().to_text(), document);
    }
}

#[test]
fn a_deeply_nested_value_comes_back() {
    let deep = format!("{}{{\"k\":0.5}}{}", "[".repeat(MAX_DEPTH - 1), "]".repeat(MAX_DEPTH - 1));
    let value = parse_json(&deep).unwrap();
    assert_eq!(value.to_text(), deep);
    assert_eq!(parse_json(&value.to_text()), Ok(value));
}

#[test]
fn values_that_the_grammar_cannot_express_do_not_come_back() {
    let quoted = JsonValue::String("a\"b".to_string());
    assert_eq!(quoted.to_text(), "\"a\"b\"");
    assert_ne!(parse_json(&quoted.to_text()), Ok(quoted));
    let empty = JsonValue::Array(vec![]);
    assert!(parse_json(&empty.to_text()).is_err());
    let least = integer(i64::MIN);
    assert_eq!(
        parse_json(&least.to_text()).unwrap_err().kind,
        ErrorKind::NumberOutOfRange
    );
    let twice = JsonValue::Object(vec![member("a", integer(1)), member("a", integer(2))]);
    assert_eq!(
        parse_json(&twice.to_text()),
        Ok(JsonValue::Object(vec![member("a", integer(2))]))
    );
}

#[test]
fn whitespace_where_the_grammar_allows_it_changes_nothing() {
    let compact = "{\"a\":[1,2.5,\"x y\"],\"b\":{\"c\":null},\"d\":[[true]]}";
    let value = parse_json(compact).unwrap();
    for gap in ["", " ", "\n", "\t", "\r\n", " \n\t \r"] {
        let spaced = format!(
            "{{{g}\"a\"{g}:{g}[{g}1{g},{g}2.5{g},{g}\"x y\"{g}]{g},{g}\"b\"{g}:{g}{{{g}\"c\"{g}:{g}null{g}}}{g},{g}\"d\"{g}:{g}[{g}[{g}true{g}]{g}]{g}}}{g}",
            g = gap
        );
        assert_eq!(parse_json(&spaced), Ok(value.clone()), "{:?}", gap);
    }
}

#[test]
fn whitespace_inside_a_token_is_not_allowed() {
    assert!(parse_json("tr ue").is_err());
    assert!(parse_json("- 1").is_err());
    assert!(parse_json("1 .5").is_err());
    assert!(parse_json("1. 5").is_err());
    assert_eq!(
        parse_json("\" a \""),
        Ok(JsonValue::String(" a ".to_string()))
    );
}
