use jsonl_peek::hist::At;
use jsonl_peek::path::FieldPath;
use jsonl_peek::report::{
    format_count, format_type_counts, json_field_stats, json_histogram, json_schema, json_stats,
    json_type_counts, opt_u64, paper_schema, paper_stats, stats_text, FieldDetail, Lengths,
};
use jsonl_peek::schema::{Schema, SchemaOptions, MAX_PATHS};
use jsonl_peek::stats::{Stats, StatsOptions};

const DATA: &str = "{\"id\":1,\"tags\":[\"a\",\"b\"]}\n\n{\"id\":\"x\"}\n{\"id\":\n";

fn stats(data: &str, fields: &[&str]) -> Stats {
    let fields = fields.iter().map(|text| FieldPath::parse(text).unwrap()).collect();
    Stats::from_reader(data.as_bytes(), StatsOptions { fields, max_errors: 10 })
}

fn lengths(stats: &Stats, mean: Option<&str>) -> Lengths {
    let count = stats.line_length.count();
    let mean = mean.map(|text| text.to_string());
    Lengths::of(&stats.line_length, At::Rank((count + 1) / 2), At::Rank(count), At::Rank(count), mean)
}

#[test]
fn counts_are_grouped_by_thousands() {
    for (n, want) in [
        (0, "0"),
        (7, "7"),
        (999, "999"),
        (1000, "1,000"),
        (1001, "1,001"),
        (12_345, "12,345"),
        (100_000, "100,000"),
        (1_000_000, "1,000,000"),
        (u64::MAX, "18,446,744,073,709,551,615"),
    ] {
        assert_eq!(format_count(n), want);
    }
    assert_eq!(opt_u64(Some(1234)), "1,234");
    assert_eq!(opt_u64(None), "-");
}

#[test]
fn types_are_listed_in_the_order_seen() {
    let stats = stats("1\n\"s\"\n2\n", &[]);
    assert_eq!(format_type_counts(&stats.top_level_types), "int:2 string:1");
    let mut out = String::from("types ");
    json_type_counts(&stats.top_level_types, &mut out);
    assert_eq!(out, "types {\"int\":2,\"string\":1}");
}

#[test]
fn lengths_of_nothing_are_null() {
    let stats = stats("", &[]);
    assert_eq!(
        json_histogram(&lengths(&stats, None)),
        "{\"count\":0,\"min\":null,\"p50\":null,\"p90\":null,\"p99\":null,\"max\":null,\"mean\":null}"
    );
}

#[test]
fn statistics_as_json() {
    let stats = stats(DATA, &["tags[]"]);
    let tops = vec![stats.fields[0].top(1)];
    assert_eq!(
        json_field_stats(&stats.fields[0], &tops[0]),
        "{\"path\":\"tags[]\",\"present\":1,\"values\":2,\"distinct\":2,\"values_capped\":false,\
         \"types\":{\"string\":2},\"top\":[{\"value\":\"a\",\"count\":1}]}"
    );
    let text = json_stats(&stats, 1, At::Rank(2), At::Rank(3), At::Rank(3), Some("13.6667".to_string()));
    assert_eq!(
        text,
        stats_text(&stats, &stats.keys(), &tops, &lengths(&stats, Some("13.6667")))
    );
    assert_eq!(
        text,
        "{\"lines\":4,\"blank\":1,\"valid\":2,\"invalid\":1,\"bytes\":45,\
         \"top_level_types\":{\"object\":2},\
         \"line_length\":{\"count\":3,\"min\":6,\"p50\":10,\"p90\":25,\"p99\":25,\"max\":25,\
         \"mean\":13.6667},\"keys_capped\":false,\
         \"keys\":[{\"key\":\"id\",\"count\":2,\"types\":{\"int\":1,\"string\":1}},\
         {\"key\":\"tags\",\"count\":1,\"types\":{\"array\":1}}],\
         \"issues_truncated\":0,\
         \"issues\":[{\"line\":4,\"column\":7,\"reason\":\"unexpected end of input\"}],\
         \"fields\":[{\"path\":\"tags[]\",\"present\":1,\"values\":2,\"distinct\":2,\
         \"values_capped\":false,\"types\":{\"string\":2},\
         \"top\":[{\"value\":\"a\",\"count\":1}]}]}"
    );
}

#[test]
fn statistics_on_paper() {
    let stats = stats(DATA, &["tags[]"]);
    let details = vec![FieldDetail {
        top: stats.fields[0].top(10),
        percent: "50.0".to_string(),
        value_percents: vec!["50.0".to_string(), "50.0".to_string()],
    }];
    let percents = vec!["100.0".to_string(), "50.0".to_string()];
    let text = paper_stats(
        &stats,
        &stats.keys(),
        &percents,
        &details,
        &lengths(&stats, Some("13.7")),
        "data.jsonl",
        "0.0",
    );
    let want = [
        "file    data.jsonl",
        "lines  4   blank 1   invalid 1   valid 2",
        "bytes  45   (0.0 KiB)",
        "top level  object:2",
        "",
        "line length in bytes",
        "  min 6   p50 10   p90 25   p99 25   max 25   mean 13.7",
        "",
        "top level keys over 2 objects",
        "  id                                2  100.0%  int:1 string:1",
        "  tags                              1   50.0%  array:1",
        "",
        "field tags[]",
        "  present in 1 of 2 records (50.0%), 2 values, types string:2",
        "  2 distinct values",
        "           1   50.0%  \"a\"",
        "           1   50.0%  \"b\"",
        "",
        "invalid lines (1 total, showing 1)",
        "  line 4 col 7: unexpected end of input",
        "",
    ];
    assert_eq!(text, want.join("\n"));
}

#[test]
fn a_schema_as_json() {
    let schema = Schema::from_reader(DATA.as_bytes(), SchemaOptions::default());
    let paths = schema.paths(0);
    let rates = vec!["1.0000".to_string(), "0.5000".to_string(), "0.5000".to_string()];
    assert_eq!(
        json_schema(&schema, &paths, &rates),
        "{\"records\":2,\"unparseable\":1,\"paths_capped\":false,\"paths\":[\
         {\"path\":\"id\",\"present\":2,\"occurrences\":2,\"rate\":1.0000,\
         \"types\":{\"int\":1,\"string\":1}},\
         {\"path\":\"tags\",\"present\":1,\"occurrences\":1,\"rate\":0.5000,\
         \"types\":{\"array\":1}},\
         {\"path\":\"tags[]\",\"present\":1,\"occurrences\":2,\"rate\":0.5000,\
         \"types\":{\"string\":2}}]}"
    );
}

#[test]
fn a_schema_on_paper() {
    let schema = Schema::from_reader(DATA.as_bytes(), SchemaOptions::default());
    let percents = vec!["100.0".to_string(), "50.0".to_string(), "50.0".to_string()];
    let want = [
        "file    -",
        "2 records, depth 3",
        "",
        "  id                                        100.0%  int:1 string:1",
        "  tags                                       50.0%  array:1",
        "  tags[]                                     50.0%  string:2",
        "",
        "1 unparseable line skipped",
        "",
    ];
    assert_eq!(paper_schema(&schema, &schema.paths(0), &percents, "-"), want.join("\n"));
}

#[test]
fn a_full_table_and_several_skipped_lines_are_mentioned() {
    let mut data = String::from("[\n]\n{");
    for i in 0..=MAX_PATHS {
        data.push_str(&format!("\"k{i}\":1,"));
    }
    data.push_str("\"é\":1}\n");
    let schema = Schema::from_reader(data.as_bytes(), SchemaOptions::default());
    let text = paper_schema(&schema, &Vec::new(), &Vec::new(), "f");
    assert_eq!(
        text,
        "file    f\n1 records, depth 3\n\n\n2 unparseable lines skipped\npath table capped at 2000\n"
    );
}

#[test]
fn wide_texts_are_not_cut_and_letters_count_once() {
    let data = format!("{{\"{}\":1,\"éé\":1}}\n", "k".repeat(30));
    let stats = stats(&data, &[]);
    let percents = vec!["100.0".to_string(), "100.0".to_string()];
    let text = paper_stats(
        &stats,
        &stats.keys(),
        &percents,
        &Vec::new(),
        &lengths(&stats, None),
        "-",
        "0.0",
    );
    assert!(text.contains(&format!("  {}          1  100.0%  int:1\n", "k".repeat(30))));
    assert!(text.contains("  éé                                1  100.0%  int:1\n"));
}

#[test]
fn the_same_lines_make_the_same_reports() {
    let (a, b) = (stats(DATA, &["tags[]"]), stats(DATA, &["tags[]"]));
    let json = |stats: &Stats, top| {
        json_stats(stats, top, At::Least, At::Rank(2), At::Greatest, Some("13.6667".to_string()))
    };
    for top in 0..4 {
        assert_eq!(json(&a, top), json(&b, top));
    }
    assert_ne!(json(&a, 1), json(&a, 2));
    let (a, b) = (
        Schema::from_reader(DATA.as_bytes(), SchemaOptions::default()),
        Schema::from_reader(DATA.as_bytes(), SchemaOptions::default()),
    );
    let shares = vec!["1".to_string()];
    assert_eq!(json_schema(&a, &a.paths(2), &shares), json_schema(&b, &b.paths(2), &shares));
    assert_eq!(
        paper_schema(&a, &a.paths(2), &shares, "-"),
        paper_schema(&b, &b.paths(2), &shares, "-")
    );
}
