use std::collections::HashMap;

use jsonl_peek::lines::LineFramer;
use jsonl_peek::path::FieldPath;
use jsonl_peek::stats::{Stats, StatsOptions, MAX_FIELD_VALUES, MAX_KEYS};

fn run(data: &str, options: StatsOptions) -> Stats {
    Stats::from_reader(data.as_bytes(), options)
}

#[test]
fn counts_lines_blank_valid_and_invalid() {
    let stats = run("{\"a\":1}\n\nnot json\n{\"a\":2}\n", StatsOptions::default());
    assert_eq!(stats.lines, 4);
    assert_eq!(stats.blank, 1);
    assert_eq!(stats.valid, 2);
    assert_eq!(stats.invalid(), 1);
    assert_eq!(stats.bytes, "{\"a\":1}\n\nnot json\n{\"a\":2}\n".len() as u64);
}

#[test]
fn records_parse_issues_with_line_and_column() {
    let stats = run("{\"a\":1}\n{\"a\":1,}\n", StatsOptions::default());
    assert_eq!(stats.issues.len(), 1);
    assert_eq!(stats.issues[0].line, 2);
    assert_eq!(stats.issues[0].column, 8);
    assert_eq!(stats.issues[0].reason, "expected a quoted object key");
}

#[test]
fn records_invalid_utf8_as_an_issue() {
    let mut data = b"{\"a\":1}\n".to_vec();
    data.extend_from_slice(&[0xFF, 0xFE, b'\n']);
    let stats = Stats::from_reader(&data[..], StatsOptions::default());
    assert_eq!(stats.invalid(), 1);
    assert_eq!(stats.issues[0].line, 2);
    assert_eq!(stats.issues[0].reason, "invalid UTF-8");
}

#[test]
fn truncates_issues_past_max_errors() {
    let data = "bad\n".repeat(5);
    let options = StatsOptions {
        max_errors: 2,
        ..StatsOptions::default()
    };
    let stats = run(&data, options);
    assert_eq!(stats.invalid(), 5);
    assert_eq!(stats.issues.len(), 2);
    assert_eq!(stats.issues_truncated, 3);
}

#[test]
fn tracks_top_level_types() {
    let stats = run("1\n\"s\"\n[1]\n{}\n", StatsOptions::default());
    let types: HashMap<_, _> = stats.top_level_types.iter().into_iter().collect();
    assert_eq!(types.get("int"), Some(&1));
    assert_eq!(types.get("string"), Some(&1));
    assert_eq!(types.get("array"), Some(&1));
    assert_eq!(types.get("object"), Some(&1));
}

#[test]
fn tracks_key_presence_and_types() {
    let stats = run(
        "{\"id\":1,\"tags\":[1,2]}\n{\"id\":2}\n{\"id\":\"x\"}\n",
        StatsOptions::default(),
    );
    let keys = stats.keys();
    let id = keys.iter().find(|k| k.key == "id").unwrap();
    assert_eq!(id.count, 3);
    let id_types: HashMap<_, _> = id.types.iter().into_iter().collect();
    assert_eq!(id_types.get("int"), Some(&2));
    assert_eq!(id_types.get("string"), Some(&1));

    let tags = keys.iter().find(|k| k.key == "tags").unwrap();
    assert_eq!(tags.count, 1);
    assert!(!stats.keys_capped);
}

#[test]
fn caps_the_key_table_and_says_so() {
    let mut record = String::from("{");
    for i in 0..(MAX_KEYS + 10) {
        if i > 0 {
            record.push(',');
        }
        record.push_str(&format!("\"k{i}\":1"));
    }
    record.push_str("}\n");
    let stats = run(&record, StatsOptions::default());
    assert_eq!(stats.keys().len(), MAX_KEYS);
    assert!(stats.keys_capped);
}

#[test]
fn profiles_a_field_path_present_and_missing() {
    let data = "{\"meta\":{\"source\":\"web\"}}\n{\"meta\":{\"source\":\"code\"}}\n{\"other\":1}\n";
    let options = StatsOptions {
        fields: vec![FieldPath::parse("meta.source").unwrap()],
        ..StatsOptions::default()
    };
    let stats = run(data, options);
    let field = &stats.fields[0];
    assert_eq!(field.present, 2);
    assert_eq!(field.values, 2);
    assert_eq!(field.distinct(), 2);
    let top = field.top(10);
    assert!(top.contains(&("\"web\"".to_string(), 1)));
    assert!(top.contains(&("\"code\"".to_string(), 1)));
}

#[test]
fn profiles_a_wildcard_field_and_ranks_top_values() {
    let data = "{\"messages\":[{\"role\":\"user\"},{\"role\":\"assistant\"}]}\n\
                {\"messages\":[{\"role\":\"user\"}]}\n";
    let options = StatsOptions {
        fields: vec![FieldPath::parse("messages[].role").unwrap()],
        ..StatsOptions::default()
    };
    let stats = run(data, options);
    let field = &stats.fields[0];
    assert_eq!(field.present, 2);
    assert_eq!(field.values, 3);
    assert_eq!(field.top(1), vec![("\"user\"".to_string(), 2)]);
}

#[test]
fn caps_field_value_tracking_and_says_so() {
    let mut array = String::from("[");
    for i in 0..(MAX_FIELD_VALUES + 5) {
        if i > 0 {
            array.push(',');
        }
        array.push_str(&i.to_string());
    }
    array.push(']');
    let data = format!("{array}\n");
    let options = StatsOptions {
        fields: vec![FieldPath::parse("[]").unwrap()],
        ..StatsOptions::default()
    };
    let stats = run(&data, options);
    let field = &stats.fields[0];
    assert_eq!(field.values, (MAX_FIELD_VALUES + 5) as u64);
    assert_eq!(field.distinct(), MAX_FIELD_VALUES);
    assert!(field.values_capped);
}

#[test]
fn line_length_histogram_matches_min_and_max() {
    let stats = run("{\"a\":1}\n{}\n", StatsOptions::default());
    assert_eq!(stats.line_length.min(), Some(2));
    assert_eq!(stats.line_length.max(), Some(7));
}

#[test]
fn reads_the_first_example() {
    let data = b"{\"role\":\"user\"}\n{\"role\":\"bot\"}\n{,}\n";
    let stats = Stats::from_reader(&data[..], StatsOptions::default());
    assert_eq!(stats.lines, 3);
    assert_eq!(stats.valid, 2);
    assert_eq!(stats.invalid(), 1);
    assert_eq!(stats.issues[0].reason, "expected a quoted object key");
}

#[test]
fn invalid_utf8_comes_with_its_column() {
    let stats = Stats::from_reader(&b"\"ab\xFF\"\n"[..], StatsOptions::default());
    assert_eq!(stats.issues[0].column, 4);
}

#[test]
fn a_key_that_an_object_repeats_counts_once_for_it() {
    let stats = run("{\"a\":1,\"a\":\"x\"}\n{\"a\":2}\n", StatsOptions::default());
    let keys = stats.keys();
    assert_eq!(keys.len(), 1);
    assert_eq!(keys[0].count, 2);
    assert_eq!(keys[0].types.iter(), [("int", 2), ("string", 1)]);
    assert_eq!(keys[0].types.total(), 3);
}

#[test]
fn keys_are_ranked_by_count_and_then_by_name() {
    let stats = run("{\"b\":1,\"c\":1,\"a\":1}\n{\"c\":1,\"é\":1}\n", StatsOptions::default());
    let names: Vec<&str> = stats.keys().iter().map(|k| k.key.as_str()).collect();
    assert_eq!(names, ["c", "a", "b", "é"]);
}

#[test]
fn tops_are_ranked_by_count_and_then_by_encoding() {
    let options = StatsOptions {
        fields: vec![FieldPath::parse("[]").unwrap()],
        ..StatsOptions::default()
    };
    let stats = run("[\"b\",\"a\",2,10,\"b\",[1, {\"k\": null}],true,1.50]\n", options);
    let field = &stats.fields[0];
    assert_eq!(
        field.top(100),
        vec![
            ("\"b\"".to_string(), 2),
            ("\"a\"".to_string(), 1),
            ("1.50".to_string(), 1),
            ("10".to_string(), 1),
            ("2".to_string(), 1),
            ("[1,{\"k\":null}]".to_string(), 1),
            ("true".to_string(), 1),
        ]
    );
    assert_eq!(field.top(2).len(), 2);
    assert_eq!(field.top(0).len(), 0);
    assert_eq!(
        field.types.iter(),
        [("string", 3), ("int", 2), ("array", 1), ("bool", 1), ("float", 1)]
    );
}

#[test]
fn every_line_is_accounted_for() {
    let options = StatsOptions { max_errors: 1, ..StatsOptions::default() };
    let stats = run("1\n\n  \nx\ny\n[]\n{", options);
    assert_eq!(stats.lines, 7);
    assert_eq!(stats.blank + stats.valid + stats.invalid(), stats.lines);
    assert_eq!(stats.issues.len() as u64 + stats.issues_truncated, stats.invalid());
    assert_eq!(stats.top_level_types.total(), stats.valid);
    assert_eq!(stats.line_length.count(), stats.valid + stats.invalid());
}

#[test]
fn taking_in_lines_one_by_one_gives_the_same() {
    let data: [&[u8]; 3] = [b"{\"a\":[1]}\n", b"oops\n", b"{\"b\":null}"];
    let mut stats = Stats::new(&StatsOptions::default());
    let mut framer = LineFramer::new();
    for raw in data {
        stats.add_line(&framer.frame(raw));
    }
    let whole = run("{\"a\":[1]}\noops\n{\"b\":null}", StatsOptions::default());
    assert_eq!(stats.lines, whole.lines);
    assert_eq!(stats.bytes, whole.bytes);
    assert_eq!(stats.issues, whole.issues);
    assert_eq!(stats.keys().len(), whole.keys().len());
}

#[test]
fn presence_and_distinct_values_of_fields() {
    let options = StatsOptions {
        fields: vec![FieldPath::parse("a").unwrap(), FieldPath::parse("b[]").unwrap()],
        ..StatsOptions::default()
    };
    let stats = run(
        "{\"a\":1,\"b\":[1,\"1\",1.0,1]}\n{\"a\":1}\n{\"b\":[]}\n{\"a\":\"1\"}\n",
        options,
    );
    let (a, b) = (&stats.fields[0], &stats.fields[1]);
    assert_eq!((a.present, a.values, a.distinct()), (3, 3, 2));
    assert_eq!((b.present, b.values, b.distinct()), (1, 4, 3));
    assert!(a.present <= stats.valid && b.present <= b.values);
    assert_eq!(b.types.total(), b.values);
}

#[test]
fn a_lower_limit_keeps_the_first_issues() {
    let data = "bad\n{\"a\":1}\n{,}\n\n[1\nnull\n\"x\n";
    let limited = |max_errors| {
        let fields = vec![FieldPath::parse("a").unwrap()];
        run(data, StatsOptions { fields, max_errors })
    };
    let full = limited(usize::MAX);
    assert_eq!(full.issues_truncated, 0);
    let lines: Vec<u64> = full.issues.iter().map(|issue| issue.line).collect();
    assert_eq!(lines, [1, 3, 5, 7]);
    for m in 0..6 {
        let stats = limited(m);
        let k = m.min(4);
        assert_eq!(stats.issues, full.issues[..k]);
        assert_eq!(stats.issues_truncated, (4 - k) as u64);
        assert_eq!(
            (stats.lines, stats.blank, stats.valid, stats.bytes),
            (full.lines, full.blank, full.valid, full.bytes)
        );
        assert_eq!(stats.top_level_types.iter(), full.top_level_types.iter());
        assert_eq!(stats.line_length.mean(), full.line_length.mean());
        assert_eq!(stats.fields[0].top(5), full.fields[0].top(5));
    }
}

#[test]
fn the_statistics_of_an_input_add_up() {
    let data = "{\"a\":1}\n\n{,}\nnot json\n[2]\n  \ntrue";
    let options = StatsOptions {
        fields: vec![FieldPath::parse("a").unwrap(), FieldPath::parse("[]").unwrap()],
        max_errors: 1,
    };
    let stats = run(data, options);
    assert_eq!(stats.bytes, data.len() as u64);
    assert_eq!(stats.lines, 7);
    assert_eq!(stats.lines, stats.blank + stats.valid + stats.invalid());
    assert_eq!(stats.line_length.count(), stats.lines - stats.blank);
    assert_eq!(stats.top_level_types.total(), stats.valid);
    assert_eq!(stats.issues.len() as u64 + stats.issues_truncated, stats.invalid());
    let paths: Vec<&str> = stats.fields.iter().map(|field| field.path.as_text()).collect();
    assert_eq!(paths, ["a", "[]"]);
}

#[test]
fn listed_values_add_up_unless_some_were_turned_away() {
    let fields = || StatsOptions {
        fields: vec![FieldPath::parse("a[]").unwrap()],
        ..StatsOptions::default()
    };
    let sum = |stats: &Stats| -> u64 { stats.fields[0].top(usize::MAX).iter().map(|(_, n)| n).sum() };
    let few = run("{\"a\":[1,2,1]}\n{\"a\":[]}\n{\"a\":[3]}\n{}\n", fields());
    assert_eq!((few.fields[0].present, few.fields[0].values), (2, 4));
    assert_eq!(few.fields[0].types.total(), 4);
    assert_eq!(sum(&few), 4);
    assert!(!few.fields[0].values_capped);

    let numbers: Vec<String> = (0..MAX_FIELD_VALUES + 3).map(|i| i.to_string()).collect();
    let line = format!("{{\"a\":[{}]}}\n{{\"a\":[0]}}\n", numbers.join(","));
    let many = run(&line, fields());
    assert!(many.fields[0].values_capped);
    assert_eq!(many.fields[0].distinct(), MAX_FIELD_VALUES);
    assert_eq!(many.fields[0].values, MAX_FIELD_VALUES as u64 + 4);
    assert_eq!(sum(&many), MAX_FIELD_VALUES as u64 + 1);
}

#[test]
fn one_more_record_adds_the_values_that_it_holds() {
    let fields = vec![FieldPath::parse("a[]").unwrap()];
    let mut stats = Stats::new(&StatsOptions { fields, max_errors: 10 });
    let mut framer = LineFramer::new();
    let (mut present, mut values) = (0, 0);
    for (line, found) in [("{\"a\":[1,1]}\n", 2), ("{\"a\":[]}\n", 0), ("[]\n", 0), ("{\"a\":[2]}\n", 1)] {
        stats.add_line(&framer.frame(line.as_bytes()));
        present += u64::from(found > 0);
        values += found;
        let field = &stats.fields[0];
        assert_eq!((field.present, field.values), (present, values));
        assert_eq!(field.types.total(), values);
        assert_eq!(field.top(usize::MAX).iter().map(|(_, n)| n).sum::<u64>(), values);
        assert_eq!(field.path.as_text(), "a[]");
        assert!(!field.values_capped);
    }
    assert_eq!(stats.fields[0].top(9), [("1".to_string(), 2), ("2".to_string(), 1)]);
}
