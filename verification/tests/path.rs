use jsonl_peek::json::{parse as parse_json, Value};
use jsonl_peek::path::{FieldPath, PathError, Segment};

#[test]
fn parses_a_bare_key() {
    let path = FieldPath::parse("role").unwrap();
    assert_eq!(path.segments(), [Segment::Key("role".to_string())]);
}

#[test]
fn parses_a_dotted_path() {
    let path = FieldPath::parse("meta.source").unwrap();
    assert_eq!(
        path.segments(),
        [
            Segment::Key("meta".to_string()),
            Segment::Key("source".to_string()),
        ]
    );
}

#[test]
fn parses_an_index() {
    let path = FieldPath::parse("messages[0].content").unwrap();
    assert_eq!(
        path.segments(),
        [
            Segment::Key("messages".to_string()),
            Segment::Index(0),
            Segment::Key("content".to_string()),
        ]
    );
}

#[test]
fn parses_a_negative_index() {
    let path = FieldPath::parse("messages[-1].content").unwrap();
    assert_eq!(
        path.segments(),
        [
            Segment::Key("messages".to_string()),
            Segment::Index(-1),
            Segment::Key("content".to_string()),
        ]
    );
}

#[test]
fn parses_a_wildcard() {
    let path = FieldPath::parse("messages[].role").unwrap();
    assert_eq!(
        path.segments(),
        [
            Segment::Key("messages".to_string()),
            Segment::Wildcard,
            Segment::Key("role".to_string()),
        ]
    );
}

#[test]
fn parses_a_leading_index() {
    let path = FieldPath::parse("[0].id").unwrap();
    assert_eq!(
        path.segments(),
        [Segment::Index(0), Segment::Key("id".to_string())]
    );
}

#[test]
fn display_returns_the_original_text() {
    assert_eq!(FieldPath::parse("messages[].role").unwrap().as_text(), "messages[].role");
}

#[test]
fn rejects_empty_path() {
    assert_eq!(FieldPath::parse("").unwrap_err().message, "empty field path");
}

#[test]
fn rejects_trailing_dot() {
    let e = FieldPath::parse("meta.").unwrap_err();
    assert_eq!(e.message, "trailing '.'");
    assert_eq!(e.position, 5);
}

#[test]
fn rejects_double_dot() {
    let e = FieldPath::parse("a..b").unwrap_err();
    assert_eq!(e.message, "empty path segment");
    assert_eq!(e.position, 2);
}

#[test]
fn rejects_unterminated_bracket() {
    let e = FieldPath::parse("messages[0").unwrap_err();
    assert_eq!(e.message, "unterminated '['");
}

#[test]
fn rejects_non_numeric_index() {
    let e = FieldPath::parse("messages[x]").unwrap_err();
    assert_eq!(e.message, "invalid array index 'x'");
}

#[test]
fn rejects_stray_close_bracket() {
    let e = FieldPath::parse("a]").unwrap_err();
    assert_eq!(e.message, "unexpected ']'");
    assert_eq!(e.position, 1);
}

#[test]
fn resolves_a_simple_key() {
    let record = parse_json(r#"{"role":"user"}"#).unwrap();
    let path = FieldPath::parse("role").unwrap();
    assert_eq!(path.resolve(&record), [&Value::Str("user".to_string())]);
}

#[test]
fn resolves_through_nested_objects() {
    let record = parse_json(r#"{"meta":{"source":"web"}}"#).unwrap();
    let path = FieldPath::parse("meta.source").unwrap();
    assert_eq!(path.resolve(&record), [&Value::Str("web".to_string())]);
}

#[test]
fn resolves_a_wildcard_to_every_element() {
    let record = parse_json(r#"{"messages":[{"role":"user"},{"role":"assistant"}]}"#).unwrap();
    let path = FieldPath::parse("messages[].role").unwrap();
    let values: Vec<&str> = path.resolve(&record).iter().filter_map(|v| v.as_str()).collect();
    assert_eq!(values, ["user", "assistant"]);
}

#[test]
fn resolves_negative_index_from_the_end() {
    let record = parse_json(r#"{"messages":[{"role":"user"},{"role":"assistant"}]}"#).unwrap();
    let path = FieldPath::parse("messages[-1].role").unwrap();
    assert_eq!(path.resolve(&record), [&Value::Str("assistant".to_string())]);
}

#[test]
fn out_of_range_index_resolves_to_nothing() {
    let record = parse_json(r#"{"messages":[1,2]}"#).unwrap();
    assert!(FieldPath::parse("messages[5]").unwrap().resolve(&record).is_empty());
    assert!(FieldPath::parse("messages[-5]").unwrap().resolve(&record).is_empty());
}

#[test]
fn missing_key_resolves_to_nothing() {
    let record = parse_json(r#"{"a":1}"#).unwrap();
    assert!(FieldPath::parse("b").unwrap().resolve(&record).is_empty());
}

#[test]
fn index_into_non_array_resolves_to_nothing() {
    let record = parse_json(r#"{"a":1}"#).unwrap();
    assert!(FieldPath::parse("a[0]").unwrap().resolve(&record).is_empty());
}

#[test]
fn resolves_a_leading_index() {
    let record = parse_json(r#"[{"id":1},{"id":2}]"#).unwrap();
    let path = FieldPath::parse("[1].id").unwrap();
    assert_eq!(path.resolve(&record), [&Value::Int(2)]);
}

fn error(input: &str) -> PathError {
    FieldPath::parse(input).unwrap_err()
}

#[test]
fn errors_know_their_position() {
    assert_eq!(error("").position, 0);
    assert_eq!(error("ab[0").position, 2);
    assert_eq!(error("ab[x]").position, 3);
    assert_eq!(error("ab[1.5]").message, "invalid array index '1.5'");
    assert_eq!(error("ab[9223372036854775808]").position, 3);
    assert_eq!(error("a[0]é").message, "unexpected 'é'");
    assert_eq!(error("a[0]é").position, 4);
    assert_eq!(error("]").message, "empty field path");
    assert_eq!(error(".a").message, "empty field path");
    assert_eq!(error("a.[0]").message, "empty path segment");
    assert_eq!(error("a.[0]").position, 2);
}

#[test]
fn an_error_is_one_line_of_text() {
    assert_eq!(error("a..b").to_text(), "at position 2: empty path segment");
}

#[test]
fn indices_span_all_of_64_bits() {
    let path = FieldPath::parse("[9223372036854775807][-9223372036854775808][+7]").unwrap();
    assert_eq!(
        path.segments(),
        [Segment::Index(i64::MAX), Segment::Index(i64::MIN), Segment::Index(7)]
    );
}

#[test]
fn written_paths_parse_back() {
    let path = FieldPath::parse("[0][-3].naïve key[].b[]").unwrap();
    assert_eq!(
        path.segments(),
        [
            Segment::Index(0),
            Segment::Index(-3),
            Segment::Key("naïve key".to_string()),
            Segment::Wildcard,
            Segment::Key("b".to_string()),
            Segment::Wildcard,
        ]
    );
    assert_eq!(path.clone(), path);
}

#[test]
fn the_first_of_repeated_keys_is_found() {
    let record = parse_json(r#"{"a":1,"a":2}"#).unwrap();
    let path = FieldPath::parse("a").unwrap();
    assert_eq!(path.resolve(&record), [&Value::Int(1)]);
}

#[test]
fn wildcards_fan_out_in_order() {
    let record = parse_json("[[1,2],3,[],[4]]").unwrap();
    let path = FieldPath::parse("[][]").unwrap();
    assert_eq!(path.resolve(&record), [&Value::Int(1), &Value::Int(2), &Value::Int(4)]);
}

#[test]
fn negative_indices_reach_back_to_the_first_element() {
    let record = parse_json("[1,2,3]").unwrap();
    let at = |text: &str| FieldPath::parse(text).unwrap().resolve(&record).len();
    assert_eq!(FieldPath::parse("[-3]").unwrap().resolve(&record), [&Value::Int(1)]);
    assert_eq!(at("[-4]"), 0);
    assert_eq!(at("[3]"), 0);
}

#[test]
fn only_wildcards_reach_more_than_one_value() {
    let record = parse_json(r#"{"a":[[1,2],[3]],"a":0}"#).unwrap();
    let count = |text: &str| FieldPath::parse(text).unwrap().resolve(&record).len();
    assert_eq!(count("a"), 1);
    assert_eq!(count("a[0][1]"), 1);
    assert_eq!(count("a[0]"), 1);
    assert_eq!(count("a[]"), 2);
    assert_eq!(count("a[][]"), 3);
}

#[test]
fn parsed_paths_have_steps_that_can_be_written() {
    for text in ["a", "a.b", "[0]", "[]", "[-1].x", "a[].b[2][].c", "\u{e9}t\u{e9}[3]", "a b", "[]x", "a.[0]"] {
        if let Ok(path) = FieldPath::parse(text) {
            assert!(!path.segments().is_empty());
            for segment in path.segments() {
                if let Segment::Key(key) = segment {
                    assert!(!key.is_empty());
                    assert!(!key.contains(['.', '[', ']']));
                }
            }
        }
    }
    assert!(FieldPath::parse("a[].b[2][].c").is_ok());
    assert!(FieldPath::parse("a..b").is_err());
    assert!(FieldPath::parse(".").is_err());
}
