use json_parser::{
    parse_array, parse_bool, parse_json, parse_null, parse_num, parse_object, parse_string,
    parse_value, Cursor, JsonValue, Member, Num, MAX_DEPTH,
};

fn number(v: &JsonValue) -> f64 {
    match v {
        JsonValue::Number(Num::Int(i)) => *i as f64,
        JsonValue::Number(Num::Float(d)) => d.to_text().parse().unwrap(),
        other => panic!("not a number: {:?}", other),
    }
}

#[test]
fn pest_parse_null_should_work() {
    let s = "null";
    let mut input = Cursor::new(s);
    parse_null(&mut input).unwrap();
    assert!(input.is_exhausted());
    let value = parse_json(s).unwrap();
    assert_eq!(JsonValue::Null, value);
}

#[test]
fn pest_parse_bool_should_work() {
    let s = "true";
    let mut input = Cursor::new(s);
    let value = JsonValue::Bool(parse_bool(&mut input).unwrap());
    assert_eq!(JsonValue::Bool(true), value);

    let s = "false";
    let mut input = Cursor::new(s);
    let value = JsonValue::Bool(parse_bool(&mut input).unwrap());
    assert_eq!(JsonValue::Bool(false), value);
}

#[test]
fn pest_parse_number_should_work() {
    let s = "123";
    let mut input = Cursor::new(s);
    let value = JsonValue::Number(parse_num(&mut input).unwrap());
    assert_eq!(123.0, number(&value));

    let s = "-123";
    let mut input = Cursor::new(s);
    let value = JsonValue::Number(parse_num(&mut input).unwrap());
    assert_eq!(-123.0, number(&value));

    let s = "123.45";
    let mut input = Cursor::new(s);
    let value = JsonValue::Number(parse_num(&mut input).unwrap());
    assert_eq!(123.45, number(&value));

    let s = "-123.45";
    let mut input = Cursor::new(s);
    let value = JsonValue::Number(parse_num(&mut input).unwrap());
    assert_eq!(-123.45, number(&value));
}

#[test]
fn pest_parse_string_should_work() {
    let s = r#""hello""#;
    let mut input = Cursor::new(s);
    let value = JsonValue::String(parse_string(&mut input).unwrap());
    assert_eq!(JsonValue::String("hello".to_string()), value);
}

#[test]
fn pest_parse_array_should_work() {
    let s = r#"[1, 2, 3]"#;
    let mut input = Cursor::new(s);
    let value = JsonValue::Array(parse_array(&mut input, MAX_DEPTH).unwrap());
    match &value {
        JsonValue::Array(items) => {
            assert_eq!(items.len(), 3);
            assert_eq!(number(&items[0]), 1.0);
            assert_eq!(number(&items[1]), 2.0);
            assert_eq!(number(&items[2]), 3.0);
        },
        _ => unreachable!(),
    }
}

#[test]
fn pest_parse_object_should_work() {
    let input = r#"{"a": 1, "b": 2, "c": 3}"#;
    let mut cursor = Cursor::new(input);
    let result = JsonValue::Object(parse_object(&mut cursor, MAX_DEPTH).unwrap());
    let expected: Vec<(String, f64)> =
        vec![("a".to_string(), 1.0), ("b".to_string(), 2.0), ("c".to_string(), 3.0)];
    match &result {
        JsonValue::Object(members) => assert_eq!(members.len(), expected.len()),
        _ => unreachable!(),
    }
    for (key, value) in expected {
        assert_eq!(number(result.get(&key).unwrap()), value);
    }
}

#[test]
fn pest_parse_rule_should_work() {
    let input = r#"{ "hello": "world" }"#;
    let mut cursor = Cursor::new(input);
    cursor.matches("{").unwrap();
    cursor.skip_whitespace();
    let pair_start = cursor.position();
    assert_eq!(pair_start, 2);
    let key = parse_string(&mut cursor).unwrap();
    assert_eq!((pair_start + 1, cursor.position() - 1), (3, 8));
    assert_eq!(key, &input[3..8]);
    cursor.skip_whitespace();
    cursor.matches(":").unwrap();
    cursor.skip_whitespace();
    let value_start = cursor.position();
    let value = parse_value(&mut cursor, MAX_DEPTH).unwrap();
    assert_eq!((value_start, cursor.position()), (11, 18));
    assert_eq!(value, JsonValue::String(input[12..17].to_string()));
    cursor.skip_whitespace();
    cursor.matches("}").unwrap();
    assert_eq!(cursor.position(), 20);
    assert!(cursor.is_exhausted());

    let mut whole = Cursor::new(input);
    let members = parse_object(&mut whole, MAX_DEPTH).unwrap();
    assert_eq!((0, whole.position()), (0, 20));
    assert_eq!(
        members,
        vec![Member { key: "hello".to_string(), value: JsonValue::String("world".to_string()) }]
    );
}
