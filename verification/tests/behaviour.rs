//! Further checks of the library on concrete values: the round trips that
//! the proofs state, every error message with its position, the float rule
//! hook, lookups, and the parser's building blocks.

use json::{Number, ParseError, Parser, Value, MAX_DEPTH};

fn float_text(lex: &str) -> Option<String> {
    let f: f64 = lex.parse().ok()?;
    if !f.is_finite() {
        return None;
    }
    Some(json::with_fraction(&f.to_string()))
}

fn parse(text: &str) -> Result<Value, ParseError> {
    json::parse(text, &float_text)
}

fn err(text: &str) -> (usize, usize, &'static str) {
    let e = parse(text).unwrap_err();
    (e.line, e.col, e.msg)
}

fn s(t: &str) -> Value {
    Value::String(t.to_string())
}

fn sample() -> Value {
    Value::Object(vec![
        ("name".to_string(), s("ada \"lovelace\"\n\t\u{1}\u{1f}\u{8}\u{c}/é😀")),
        (
            "nums".to_string(),
            Value::Array(vec![
                Value::Number(Number::Int(i64::MIN)),
                Value::Number(Number::Int(i64::MAX)),
                Value::Number(Number::Int(0)),
                Value::Number(Number::Float("-250.0".to_string())),
                Value::Number(Number::Float("0.001".to_string())),
            ]),
        ),
        ("empty_a".to_string(), Value::Array(vec![])),
        ("empty_o".to_string(), Value::Object(vec![])),
        (
            "nested".to_string(),
            Value::Array(vec![Value::Array(vec![Value::Object(vec![(
                "k".to_string(),
                Value::Null,
            )])])]),
        ),
        ("dup".to_string(), Value::Bool(true)),
        ("dup".to_string(), Value::Bool(false)),
    ])
}

#[test]
fn compact_text_parses_back_to_the_value() {
    let v = sample();
    assert_eq!(parse(&v.to_string()).unwrap(), v);
}

#[test]
fn compact_text_has_no_control_characters() {
    let text = sample().to_string();
    assert!(text.chars().all(|c| (c as u32) >= 0x20), "{text:?}");
    assert!(!text.contains('\n') && !text.contains('\t') && !text.contains('\r'));
}

#[test]
fn pretty_text_parses_back_to_the_value() {
    let v = sample();
    for indent in [0, 1, 2, 4] {
        assert_eq!(parse(&v.pretty(indent)).unwrap(), v);
    }
}

#[test]
fn reparse_of_serialized_value_is_a_fixpoint() {
    let v = parse("[1e2, -0.0, 12345678901234567890, \"\\u00e9\", {\"a\": [ ]}]").unwrap();
    let text = v.to_string();
    assert_eq!(text, "[100.0,-0.0,12345678901234567000.0,\"\u{e9}\",{\"a\":[]}]");
    let again = parse(&text).unwrap();
    assert_eq!(again, v);
    assert_eq!(again.to_string(), text);
}

#[test]
fn compact_and_pretty_exact_text() {
    let v = parse("{\"a\":[1,{\"b\":null}],\"c\":\"x\"}").unwrap();
    assert_eq!(v.to_string(), "{\"a\":[1,{\"b\":null}],\"c\":\"x\"}");
    assert_eq!(
        v.pretty(1),
        "{\n \"a\": [\n  1,\n  {\n   \"b\": null\n  }\n ],\n \"c\": \"x\"\n}"
    );
    assert_eq!(v.pretty(0), "{\n\"a\": [\n1,\n{\n\"b\": null\n}\n],\n\"c\": \"x\"\n}");
}

#[test]
fn string_escapes_cover_every_control_character() {
    let v = s("\u{0}\u{8}\t\n\u{b}\u{c}\r\u{1f} \u{7f}");
    assert_eq!(
        v.to_string(),
        "\"\\u0000\\b\\t\\n\\u000b\\f\\r\\u001f \u{7f}\""
    );
    assert_eq!(parse(&v.to_string()).unwrap(), v);
}

#[test]
fn integers_serialize_in_decimal() {
    assert_eq!(Value::Number(Number::Int(i64::MIN)).to_string(), "-9223372036854775808");
    assert_eq!(Value::Number(Number::Int(-7)).to_string(), "-7");
    assert_eq!(Value::Number(Number::Int(0)).to_string(), "0");
    assert_eq!(Value::Number(Number::Int(1000)).to_string(), "1000");
}

#[test]
fn every_error_message_at_its_position() {
    assert_eq!(err("x"), (1, 1, "expected a value"));
    assert_eq!(err("[,1]"), (1, 2, "expected a value"));
    assert_eq!(err("tru"), (1, 1, "invalid literal"));
    assert_eq!(err("[nulx]"), (1, 2, "invalid literal"));
    assert_eq!(err("-"), (1, 1, "invalid number"));
    assert_eq!(err(" 1."), (1, 2, "invalid number"));
    assert_eq!(err("[1e+]"), (1, 2, "invalid number"));
    assert_eq!(err("1e999"), (1, 1, "number out of range"));
    assert_eq!(err("[1, -1e999]"), (1, 5, "number out of range"));
    assert_eq!(err("\"abc"), (1, 5, "unterminated string"));
    assert_eq!(err("\"a\\"), (1, 4, "unterminated string"));
    assert_eq!(err("\"a\tb\""), (1, 3, "control character in string"));
    assert_eq!(err("\"\\x\""), (1, 3, "invalid escape"));
    assert_eq!(err("\"\\u12g4\""), (1, 6, "invalid \\u escape"));
    assert_eq!(err("\"\\ud800\""), (1, 8, "unpaired surrogate"));
    assert_eq!(err("\"\\ud800\\u0041\""), (1, 14, "unpaired surrogate"));
    assert_eq!(err("\"\\udc00\""), (1, 8, "unpaired surrogate"));
    assert_eq!(err("[1 2]"), (1, 4, "expected ',' or ']'"));
    assert_eq!(err("{\"a\":1 \"b\":2}"), (1, 8, "expected ',' or '}'"));
    assert_eq!(err("{a:1}"), (1, 2, "expected a string key"));
    assert_eq!(err("{\"a\":1,}"), (1, 8, "expected a string key"));
    assert_eq!(err("{\"a\" 1}"), (1, 6, "expected ':'"));
    assert_eq!(err("1 2"), (1, 3, "unexpected trailing characters"));
}

#[test]
fn first_failure_in_document_order_is_reported() {
    assert_eq!(err("[1e999, x]"), (1, 2, "number out of range"));
    assert_eq!(err("[x, 1e999]"), (1, 2, "expected a value"));
}

#[test]
fn columns_count_bytes_and_lines_count_line_feeds() {
    assert_eq!(err("\"\u{e9}\" x"), (1, 6, "unexpected trailing characters"));
    assert_eq!(err("\n\n  x"), (3, 3, "expected a value"));
    assert_eq!(err("[\r\n1,\r\n\u{1F600}]"), (3, 1, "expected a value"));
    assert_eq!(err("\u{feff}x"), (1, 1, "expected a value"));
    assert_eq!(err("\u{feff}\u{feff}1"), (1, 1, "expected a value"));
}

#[test]
fn error_text_names_line_column_and_message() {
    let e = parse("[\n1,\n ]").unwrap_err();
    assert_eq!(e.to_string(), "line 3, column 2: expected a value");
}

#[test]
fn depth_limit_is_exact() {
    assert_eq!(MAX_DEPTH, 128);
    let ok = format!("{}{}", "[".repeat(128), "]".repeat(128));
    assert!(parse(&ok).is_ok());
    let deep = format!("{}{}", "[".repeat(129), "]".repeat(129));
    assert_eq!(err(&deep), (1, 129, "nesting too deep"));
    let objects = format!("{}1{}", "{\"a\":".repeat(129), "}".repeat(129));
    assert_eq!(parse(&objects).unwrap_err().msg, "nesting too deep");
}

#[test]
fn float_rule_decides_float_text_and_range() {
    let keep = |lex: &str| Some(lex.to_string());
    let v = json::parse("[1.50, 2E3, 99999999999999999999]", &keep).unwrap();
    assert_eq!(v.to_string(), "[1.50,2E3,99999999999999999999]");
    let zero = |_: &str| Some("0.0".to_string());
    assert_eq!(json::parse("1.5", &zero).unwrap().to_string(), "0.0");
    assert_eq!(json::parse("15", &zero).unwrap().to_string(), "15");
    let none = |_: &str| None;
    let e = json::parse("[7, 1.5]", &none).unwrap_err();
    assert_eq!((e.line, e.col, e.msg), (1, 5, "number out of range"));
}

#[test]
fn get_finds_last_member_of_that_name() {
    let v = parse("{\"a\":1,\"b\":{\"c\":3},\"a\":2}").unwrap();
    assert_eq!(v.get("a"), Some(&Value::Number(Number::Int(2))));
    assert_eq!(v.get("b").and_then(|b| b.get("c")).and_then(Value::as_i64), Some(3));
    assert_eq!(v.get("z"), None);
    assert_eq!(parse("\"a\"").unwrap().get("a"), None);
}

#[test]
fn accessors_on_matching_types() {
    assert_eq!(parse("true").unwrap().as_bool(), Some(true));
    assert_eq!(parse("\"hi\"").unwrap().as_str(), Some("hi"));
    assert_eq!(parse("-3").unwrap().as_i64(), Some(-3));
    let a = parse("[1,2]").unwrap();
    assert_eq!(a.as_array().map(|x| x.len()), Some(2));
    let o = parse("{\"k\":null}").unwrap();
    assert_eq!(o.as_object().map(|x| x[0].0.as_str()), Some("k"));
}

#[test]
fn readme_example() {
    let v = parse(r#"{"name": "ada", "tags": [1, 2]}"#).unwrap();
    assert_eq!(v.get("name").and_then(|v| v.as_str()), Some("ada"));
    assert_eq!(v.to_string(), r#"{"name":"ada","tags":[1,2]}"#);
}

#[test]
fn clone_is_deep_and_equal() {
    let v = sample();
    let c = v.clone();
    assert_eq!(c, v);
    assert_eq!(c.to_string(), v.to_string());
}

#[test]
fn parser_building_blocks() {
    let mut p = Parser::new("  \"a\\u0042\" tail", &float_text);
    assert_eq!(p.bytes().len(), 16);
    p.skip_ws();
    assert_eq!(p.peek(), Some('"'));
    assert_eq!(p.parse_string().unwrap(), "aB");
    p.skip_ws();
    assert_eq!(p.peek(), Some('t'));
    let e = p.err("here");
    assert_eq!((e.line, e.col, e.msg), (1, 13, "here"));

    let mut q = Parser::new("00fF", &float_text);
    assert_eq!(q.hex4().unwrap(), 0xff);
    let mut r = Parser::new("n", &float_text);
    let mut out = String::new();
    r.parse_escape(&mut out).unwrap();
    assert_eq!(out, "\n");
}

#[test]
fn fraction_is_kept_on_integral_floats() {
    assert_eq!(json::with_fraction("100"), "100.0");
    assert_eq!(json::with_fraction("-0"), "-0.0");
    assert_eq!(json::with_fraction("0.25"), "0.25");
    assert_eq!(json::with_fraction(""), ".0");
}

#[test]
fn failed_steps_leave_buffer_and_position_as_stated() {
    let mut p = Parser::new("u\u{0}", &float_text);
    let mut kept = String::from("k");
    assert_eq!(p.parse_escape(&mut kept).unwrap_err().msg, "invalid \\u escape");
    assert_eq!(kept, "k");
    let mut q = Parser::new("x", &float_text);
    let mut out = String::from("x");
    assert_eq!(q.parse_escape(&mut out).unwrap_err().msg, "invalid escape");
    assert_eq!(out, "x");
    assert_eq!(q.peek(), Some('x'));

    let mut h = Parser::new("12g4", &float_text);
    let e = h.hex4().unwrap_err();
    assert_eq!((e.col, e.msg), (3, "invalid \\u escape"));
    assert_eq!(h.peek(), Some('g'));

    let mut l = Parser::new("tru", &float_text);
    let e = l.literal(&['t', 'r', 'u', 'e'], Value::Bool(true)).unwrap_err();
    assert_eq!((e.col, e.msg), (1, "invalid literal"));
    assert_eq!(l.peek(), Some('t'));

    let mut v = Parser::new("+1", &float_text);
    assert_eq!(v.parse_value().unwrap_err().msg, "expected a value");
    assert_eq!(v.peek(), Some('+'));

    let mut d = Parser::new("[", &float_text);
    for _ in 0..MAX_DEPTH {
        d.enter().unwrap();
    }
    let e = d.parse_array().unwrap_err();
    assert_eq!((e.col, e.msg), (1, "nesting too deep"));
    assert_eq!(d.peek(), Some('['));
}

#[test]
fn error_positions_past_the_end_count_from_the_end() {
    let p = Parser::new("ab\ncd", &float_text);
    let e = p.err_at(10, "m");
    assert_eq!((e.line, e.col, e.msg), (2, 8, "m"));
    let e = p.err_at(5, "m");
    assert_eq!((e.line, e.col), (2, 3));
}

#[test]
fn one_leading_bom_changes_nothing() {
    for text in ["[1, 2]", "{\"a\":x}", "", " 7 "] {
        let with_bom = format!("\u{feff}{text}");
        assert_eq!(parse(&with_bom), parse(text));
        assert!(parse(&format!("\u{feff}\u{feff}{text}")).is_err());
    }
}

#[test]
fn float_equality_compares_texts() {
    assert_ne!(parse("-0.0").unwrap(), parse("0.0").unwrap());
    assert_eq!(parse("1e2").unwrap(), parse("100.0").unwrap());
}
