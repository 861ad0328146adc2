use jsonl_peek::json::{parse, Value};

fn assert_parses(input: &str) -> Value {
    match parse(input) {
        Ok(v) => v,
        Err(e) => panic!("expected {input:?} to parse, got error: {}", e.to_string()),
    }
}

fn assert_rejected(input: &str) {
    assert!(parse(input).is_err(), "expected {input:?} to be rejected");
}

/// The `f64` a `Float` stands for.
fn float_of(v: Value) -> f64 {
    match v {
        Value::Float(text) => text.parse::<f64>().expect("a float literal"),
        other => panic!("expected a float, got {other:?}"),
    }
}

fn string(s: &str) -> Value {
    Value::String(s.to_string())
}

#[test]
fn accepts_literals() {
    assert_eq!(assert_parses("null"), Value::Null);
    assert_eq!(assert_parses("true"), Value::Bool(true));
    assert_eq!(assert_parses("false"), Value::Bool(false));
}

#[test]
fn accepts_numbers() {
    assert_eq!(assert_parses("0"), Value::Int(0));
    assert_eq!(assert_parses("-0"), Value::Int(0));
    assert_eq!(assert_parses("123"), Value::Int(123));
    assert_eq!(assert_parses("-45"), Value::Int(-45));
    assert_eq!(float_of(assert_parses("0.5")), 0.5);
    assert_eq!(float_of(assert_parses("1e10")), 1e10);
    assert_eq!(float_of(assert_parses("1.5E-3")), 1.5e-3);
    match assert_parses("99999999999999999999") {
        Value::Float(_) => {}
        other => panic!("expected an overflowing integer literal to become a float, got {other:?}"),
    }
}

#[test]
fn accepts_strings_with_escapes() {
    assert_eq!(assert_parses(r#""hi""#), string("hi"));
    assert_eq!(assert_parses(r#""a\nb""#), string("a\nb"));
    assert_eq!(assert_parses("\"\\u0041\""), string("A"));
    assert_eq!(assert_parses(r#""😀""#), string("\u{1F600}"));
    let surrogate_pair_escape = "\"\\ud83d\\ude00\"";
    assert_eq!(assert_parses(surrogate_pair_escape), string("\u{1F600}"));
}

#[test]
fn accepts_arrays_and_objects() {
    assert_eq!(assert_parses("[]"), Value::Array(vec![]));
    assert_eq!(
        assert_parses("[1, 2, 3]"),
        Value::Array(vec![Value::Int(1), Value::Int(2), Value::Int(3)])
    );
    assert_eq!(assert_parses("{}"), Value::Object(vec![]));
    assert_eq!(
        assert_parses(r#" { "a" : 1 } "#),
        Value::Object(vec![("a".to_string(), Value::Int(1))])
    );
}

#[test]
fn rejects_near_json() {
    assert_rejected("");
    assert_rejected(r#"{'a': 1}"#);
    assert_rejected("[1, 2,]");
    assert_rejected(r#"{"a": 1,}"#);
    assert_rejected("1.");
    assert_rejected("1e");
    assert_rejected("NaN");
    assert_rejected("Infinity");
    assert_rejected(r#""unterminated"#);
    assert_rejected(r#""bad escape \x""#);
    assert_rejected("{1: 2}");
    assert_rejected("[1 2]");
    assert_rejected(r#"{"a":1 "b":2}"#);
    assert_rejected("123 456");
    assert_rejected("truee");
}

#[test]
fn rejects_lone_surrogates() {
    assert_rejected(r#""\ud800""#);
    assert_rejected(r#""\udc00""#);
    assert_rejected(r#""\ud800A""#);
}

#[test]
fn rejects_raw_control_characters() {
    assert_rejected("\"a\u{9}b\"");
    assert_rejected("\"a\u{0}b\"");
}

#[test]
fn reports_line_and_column_of_the_failure() {
    let err = parse("{\n  \"a\": 1,\n  \"b\": ,\n}").unwrap_err();
    assert_eq!(err.line, 3);
    assert_eq!(err.column, 8);
}

#[test]
fn error_messages_name_the_problem() {
    assert_eq!(parse("").unwrap_err().message, "unexpected end of input");
    assert_eq!(parse("x").unwrap_err().message, "unexpected character 'x'");
    assert_eq!(parse("tru").unwrap_err().message, "expected 'true'");
    assert_eq!(parse("-").unwrap_err().message, "invalid number");
    assert_eq!(parse("1.x").unwrap_err().message, "expected digit after decimal point");
    assert_eq!(parse("1e+").unwrap_err().message, "expected digit in exponent");
    assert_eq!(parse("\"abc").unwrap_err().message, "unterminated string");
    assert_eq!(parse("\"\\").unwrap_err().message, "unterminated escape sequence");
    assert_eq!(parse("\"\\q\"").unwrap_err().message, "invalid escape sequence");
    assert_eq!(parse("\"\\u12g4\"").unwrap_err().message, "invalid unicode escape");
    assert_eq!(parse("\"\\udc00\"").unwrap_err().message, "lone UTF-16 surrogate");
    assert_eq!(parse("\"\u{1}\"").unwrap_err().message, "control character must be escaped");
    assert_eq!(parse("[1}").unwrap_err().message, "expected ',' or ']'");
    assert_eq!(parse("{1:2}").unwrap_err().message, "expected string key");
    assert_eq!(parse("{\"a\" 2}").unwrap_err().message, "expected ':' after object key");
    assert_eq!(parse("{\"a\":2]").unwrap_err().message, "expected ',' or '}'");
    assert_eq!(parse("1 2").unwrap_err().message, "trailing characters after value");
}

#[test]
fn error_positions_are_one_based_lines_and_columns() {
    let e = parse("[1,\n 2,\n x]").unwrap_err();
    assert_eq!((e.line, e.column), (3, 2));
    let e = parse("  \"abc").unwrap_err();
    // An unterminated string is reported at its opening quote.
    assert_eq!((e.line, e.column), (1, 3));
    let e = parse("\"\\ud800x\"").unwrap_err();
    // A lone surrogate is reported where its hex digits start.
    assert_eq!((e.line, e.column), (1, 4));
    assert_eq!(e.to_string(), "line 1 col 4: lone UTF-16 surrogate");
}

#[test]
fn integer_range_edges() {
    assert_eq!(assert_parses("9223372036854775807"), Value::Int(i64::MAX));
    assert_eq!(assert_parses("-9223372036854775808"), Value::Int(i64::MIN));
    assert_eq!(float_of(assert_parses("9223372036854775808")), 9223372036854775808.0);
    assert_eq!(float_of(assert_parses("1.0")), 1.0);
    assert_eq!(assert_parses("-0.0"), Value::Float("-0.0".to_string()));
}

#[test]
fn keeps_duplicate_keys_in_order() {
    assert_eq!(
        assert_parses(r#"{"a":1,"a":[true,null]}"#),
        Value::Object(vec![
            ("a".to_string(), Value::Int(1)),
            ("a".to_string(), Value::Array(vec![Value::Bool(true), Value::Null])),
        ])
    );
}

#[test]
fn a_clone_is_the_same_value() {
    let value = parse("{\"a\":[1,2.5,\"x\",null,true,{\"b\":[]}],\"a\":-3}").unwrap();
    let copy = value.clone();
    assert_eq!(copy, value);
}

#[test]
fn surrounding_whitespace_changes_nothing() {
    for text in ["{\"a\":[1,2.5,\"x\"]}", "12", "-0.5e3", "\"s\"", "true", "null", "[]"] {
        let bare = parse(text).unwrap();
        let padded = format!(" \t\r\n{text}\n \t");
        assert_eq!(parse(&padded).unwrap(), bare);
    }
}

#[test]
fn text_after_a_closed_value_is_rejected() {
    for text in ["{}", "[1]", "\"s\"", "true", "false", "null"] {
        for tail in ["x", " 5", "\n{}", "  ,"] {
            let err = parse(&format!("{text}{tail}")).unwrap_err();
            assert_eq!(err.message, "trailing characters after value");
        }
    }
}
