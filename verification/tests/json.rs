use jsonl_peek::json::grammar::{ErrorKind, MAX_DEPTH};
use jsonl_peek::json::{escape_into, parse, Value};

fn text(s: &str) -> Value {
    Value::Str(s.to_string())
}

fn error(input: &str) -> (ErrorKind, usize) {
    let error = parse(input).unwrap_err();
    (error.kind, error.offset)
}

#[test]
fn reads_every_type() {
    assert_eq!(parse("null").unwrap(), Value::Null);
    assert_eq!(parse(" true ").unwrap(), Value::Bool(true));
    assert_eq!(parse("false").unwrap(), Value::Bool(false));
    assert_eq!(parse("-12").unwrap(), Value::Int(-12));
    assert_eq!(parse("1.5e+3").unwrap(), Value::Float("1.5e+3".to_string()));
    assert_eq!(parse("\"x\"").unwrap(), text("x"));
    assert_eq!(parse("[1, [ ]]").unwrap(), Value::Array(vec![Value::Int(1), Value::Array(vec![])]));
    assert_eq!(
        parse("{\"a\" : 1,\"a\":{}}").unwrap(),
        Value::Object(vec![
            ("a".to_string(), Value::Int(1)),
            ("a".to_string(), Value::Object(vec![])),
        ])
    );
}

#[test]
fn types_have_names() {
    let names: Vec<&str> = ["null", "true", "1", "1.0", "\"\"", "[]", "{}"]
        .iter()
        .map(|input| parse(input).unwrap().kind().name())
        .collect();
    assert_eq!(names, ["null", "bool", "int", "float", "string", "array", "object"]);
}

#[test]
fn integers_that_fit_64_bits_are_integers() {
    assert_eq!(parse("9223372036854775807").unwrap(), Value::Int(i64::MAX));
    assert_eq!(parse("-9223372036854775808").unwrap(), Value::Int(i64::MIN));
    assert_eq!(
        parse("9223372036854775808").unwrap(),
        Value::Float("9223372036854775808".to_string())
    );
    assert_eq!(
        parse("-9223372036854775809").unwrap(),
        Value::Float("-9223372036854775809".to_string())
    );
    assert_eq!(parse("-0").unwrap(), Value::Int(0));
    assert_eq!(parse("0").unwrap(), Value::Int(0));
}

#[test]
fn reads_escapes() {
    assert_eq!(
        parse(r#""\"\\\/\b\f\n\r\t\u0041\u00e9\ud83d\ude00""#).unwrap(),
        text("\"\\/\u{8}\u{c}\n\r\tAé😀")
    );
    assert_eq!(parse("\"é€😀\"").unwrap(), text("é€😀"));
}

#[test]
fn every_error_has_a_kind_and_a_place() {
    assert_eq!(error(""), (ErrorKind::UnexpectedEnd, 0));
    assert_eq!(error("[1"), (ErrorKind::UnexpectedEnd, 2));
    assert_eq!(error("nul"), (ErrorKind::ExpectedValue, 0));
    assert_eq!(error("{1}"), (ErrorKind::ExpectedKey, 1));
    assert_eq!(error("{\"a\":1,}"), (ErrorKind::ExpectedKey, 7));
    assert_eq!(error("{\"a\" 1}"), (ErrorKind::ExpectedColon, 5));
    assert_eq!(error("{\"a\":1 \"b\"}"), (ErrorKind::ExpectedCommaOrBrace, 7));
    assert_eq!(error("[1 2]"), (ErrorKind::ExpectedCommaOrBracket, 3));
    assert_eq!(error("[1,]"), (ErrorKind::ExpectedValue, 3));
    assert_eq!(error("-x"), (ErrorKind::ExpectedDigit, 1));
    assert_eq!(error("1.x"), (ErrorKind::ExpectedDigit, 2));
    assert_eq!(error("1e+"), (ErrorKind::UnexpectedEnd, 3));
    assert_eq!(error("\"a\tb\""), (ErrorKind::ControlCharacter, 2));
    assert_eq!(error("\"\\x\""), (ErrorKind::InvalidEscape, 1));
    assert_eq!(error("\"\\u12g4\""), (ErrorKind::InvalidEscape, 1));
    assert_eq!(error("\"\\ud800\""), (ErrorKind::UnpairedSurrogate, 1));
    assert_eq!(error("\"\\ud800\\u0041\""), (ErrorKind::UnpairedSurrogate, 1));
    assert_eq!(error("\"\\udc00\""), (ErrorKind::UnpairedSurrogate, 1));
    assert_eq!(error("1 x"), (ErrorKind::TrailingCharacters, 2));
    assert_eq!(error("01"), (ErrorKind::TrailingCharacters, 1));
}

#[test]
fn errors_describe_themselves() {
    assert_eq!(ErrorKind::ExpectedKey.message(), "expected a quoted object key");
    assert_eq!(ErrorKind::UnexpectedEnd.message(), "unexpected end of input");
}

#[test]
fn nesting_is_bounded() {
    let nested = |depth: usize| format!("{}{}", "[".repeat(depth), "]".repeat(depth));
    assert!(parse(&nested(MAX_DEPTH)).is_ok());
    assert_eq!(error(&nested(MAX_DEPTH + 1)), (ErrorKind::TooDeep, MAX_DEPTH));
}

#[test]
fn looks_into_values() {
    let record = parse("{\"a\":[1],\"b\":\"x\",\"a\":2}").unwrap();
    assert_eq!(record.get("a").unwrap().as_array().unwrap().len(), 1);
    assert_eq!(record.get("b").unwrap().as_str(), Some("x"));
    assert!(record.get("c").is_none());
    assert!(record.as_array().is_none());
    assert!(record.as_str().is_none());
    assert!(Value::Null.get("a").is_none());
}

#[test]
fn encodes_compactly() {
    let input = " { \"a\" : [ 1 , -2.50 , null ] , \"b\" : { } , \"\" : [ ] , \"c\" : true } ";
    assert_eq!(
        parse(input).unwrap().to_json(),
        "{\"a\":[1,-2.50,null],\"b\":{},\"\":[],\"c\":true}"
    );
    assert_eq!(Value::Int(i64::MIN).to_json(), "-9223372036854775808");
    assert_eq!(Value::Bool(false).to_json(), "false");
}

#[test]
fn escapes_what_has_to_be_escaped() {
    let mut out = String::from("x");
    escape_into("a\"\\\u{8}\u{c}\n\r\t\u{1}\u{1f}/é😀", &mut out);
    assert_eq!(out, "x\"a\\\"\\\\\\b\\f\\n\\r\\t\\u0001\\u001f/é😀\"");
}

#[test]
fn what_is_written_is_read_back() {
    for input in [
        "[]",
        "{\"k\\u0000\":[1,2.5,\"\\n\",{\"x\":[null,true,false]}],\"k\":-7}",
        "\"\\ud83d\\ude00 \\u007f\"",
        "1e5",
    ] {
        let value = parse(input).unwrap();
        assert_eq!(parse(&value.to_json()).unwrap(), value);
    }
}

#[test]
fn different_values_have_different_encodings() {
    let texts = ["1", "\"1\"", "1.0", "[1]", "{\"1\":1}", "[[1]]", "[1,1]", "\"1,1\"", "null"];
    for a in texts {
        for b in texts {
            let same = parse(a).unwrap().to_json() == parse(b).unwrap().to_json();
            assert_eq!(same, a == b);
        }
    }
    assert_eq!(parse("[ 1 ]").unwrap().to_json(), parse("[1]").unwrap().to_json());
}

fn size(value: &Value) -> usize {
    match value {
        Value::Array(items) => 1 + items.iter().map(size).sum::<usize>(),
        Value::Object(members) => 1 + members.iter().map(|(_, v)| size(v)).sum::<usize>(),
        _ => 1,
    }
}

#[test]
fn a_text_holds_no_more_values_than_bytes() {
    for input in ["1", "[1,2,3]", "{\"\":[]}", "[[[[]]]]"] {
        assert!(size(&parse(input).unwrap()) <= input.len());
    }
}
