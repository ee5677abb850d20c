use jsonl_peek::lines::LineFramer;
use jsonl_peek::schema::{PathStats, Schema, SchemaOptions, MAX_PATHS};
use jsonl_peek::stats::{Stats, StatsOptions};

fn run(data: &str, options: SchemaOptions) -> Schema {
    Schema::from_reader(data.as_bytes(), options)
}

fn find<'a>(schema: &'a Schema, path: &str) -> &'a PathStats {
    schema
        .paths(0)
        .into_iter()
        .find(|p| p.path == path)
        .unwrap_or_else(|| panic!("no path {path}"))
}

/// In how many records a path has to be present to reach a rate.
fn threshold(schema: &Schema, min_rate: f64) -> u64 {
    (0..=schema.records)
        .find(|&present| present as f64 / schema.records as f64 >= min_rate)
        .unwrap_or(u64::MAX)
}

#[test]
fn discovers_flat_keys() {
    let schema = run("{\"id\":1,\"role\":\"user\"}\n", SchemaOptions::default());
    assert_eq!(schema.records, 1);
    let id = find(&schema, "id");
    assert_eq!(id.present, 1);
    assert_eq!(id.occurrences, 1);
    assert_eq!(id.types.iter(), [("int", 1)]);
}

#[test]
fn descends_into_nested_objects() {
    let schema = run("{\"meta\":{\"source\":\"web\"}}\n", SchemaOptions::default());
    let meta = find(&schema, "meta");
    assert_eq!(meta.types.iter(), [("object", 1)]);
    let source = find(&schema, "meta.source");
    assert_eq!(source.present, 1);
    assert_eq!(source.types.iter(), [("string", 1)]);
}

#[test]
fn arrays_share_one_path_and_count_every_element() {
    let data = "{\"messages\":[{\"role\":\"user\"},{\"role\":\"bot\"}]}\n{\"messages\":[{\"role\":\"user\"}]}\n";
    let schema = run(data, SchemaOptions::default());
    let elements = find(&schema, "messages[]");
    assert_eq!(elements.present, 2);
    assert_eq!(elements.occurrences, 3);
    let role = find(&schema, "messages[].role");
    assert_eq!(role.present, 2);
    assert_eq!(role.occurrences, 3);
}

#[test]
fn stops_descending_past_the_depth_limit() {
    let data = "{\"a\":{\"b\":{\"c\":1}}}\n";
    let schema = run(data, SchemaOptions { depth: 2 });
    assert!(schema.paths(0).iter().any(|p| p.path == "a.b"));
    assert!(!schema.paths(0).iter().any(|p| p.path == "a.b.c"));
}

#[test]
fn zero_depth_records_nothing() {
    let schema = run("{\"a\":1}\n", SchemaOptions { depth: 0 });
    assert!(schema.paths(0).is_empty());
}

#[test]
fn min_rate_hides_sparse_paths() {
    let data = "{\"a\":1,\"tags\":1}\n{\"a\":2}\n{\"a\":3}\n{\"a\":4}\n";
    let schema = run(data, SchemaOptions { depth: 3 });
    let min_present = threshold(&schema, 0.5);
    assert!(schema.paths(min_present).iter().any(|p| p.path == "a"));
    assert!(!schema.paths(min_present).iter().any(|p| p.path == "tags"));
}

#[test]
fn counts_unparseable_lines_and_skips_blanks() {
    let schema = run("{\"a\":1}\n\n{,}\nnot json\n", SchemaOptions::default());
    assert_eq!(schema.records, 1);
    assert_eq!(schema.unparseable, 2);
}

#[test]
fn caps_the_path_table_and_says_so() {
    let mut record = String::from("{");
    for i in 0..(MAX_PATHS + 10) {
        if i > 0 {
            record.push(',');
        }
        record.push_str(&format!("\"k{i}\":1"));
    }
    record.push_str("}\n");
    let schema = run(&record, SchemaOptions::default());
    assert_eq!(schema.paths(0).len(), MAX_PATHS);
    assert!(schema.paths_capped);
}

#[test]
fn paths_are_sorted_parent_before_child() {
    let data = "{\"messages\":[{\"role\":\"user\"}],\"id\":1}\n";
    let schema = run(data, SchemaOptions::default());
    let names: Vec<&str> = schema.paths(0).iter().map(|p| p.path.as_str()).collect();
    assert_eq!(names, ["id", "messages", "messages[]", "messages[].role"]);
}

#[test]
fn reads_the_example_records() {
    let data = b"{\"role\":\"user\",\"meta\":{\"n\":1}}\n{\"role\":\"bot\"}\n{,}\n";
    let schema = Schema::from_reader(&data[..], SchemaOptions::default());
    assert_eq!(schema.records, 2);
    assert_eq!(schema.unparseable, 1);
    assert_eq!(find(&schema, "meta.n").present, 1);
}

#[test]
fn a_path_met_twice_in_a_record_is_present_once() {
    let schema = run("{\"a\":1,\"a\":\"x\"}\n[[],[]]\n", SchemaOptions::default());
    let a = find(&schema, "a");
    assert_eq!((a.present, a.occurrences), (1, 2));
    assert_eq!(a.types.iter(), [("int", 1), ("string", 1)]);
    let elements = find(&schema, "[]");
    assert_eq!((elements.present, elements.occurrences), (1, 2));
}

#[test]
fn depth_counts_keys_and_accessors() {
    let data = "{\"m\":[{\"r\":{\"x\":1}}]}\n";
    let names = |depth| -> Vec<String> {
        let schema = run(data, SchemaOptions { depth });
        schema.paths(0).iter().map(|p| p.path.clone()).collect()
    };
    assert_eq!(names(1), ["m"]);
    assert_eq!(names(2), ["m", "m[]"]);
    assert_eq!(names(3), ["m", "m[]", "m[].r"]);
    assert_eq!(names(9), ["m", "m[]", "m[].r", "m[].r.x"]);
}

#[test]
fn parents_come_before_their_children() {
    let schema = run("{\"a\":{\"b\":[1]},\"a!\":1,\"a.b\":2}\n", SchemaOptions::default());
    let names: Vec<&str> = schema.paths(0).iter().map(|p| p.path.as_str()).collect();
    assert_eq!(names, ["a", "a!", "a.b", "a.b[]"]);
}

#[test]
fn a_threshold_of_one_keeps_every_path() {
    let schema = run("{\"a\":1}\n{\"b\":1}\n", SchemaOptions::default());
    assert_eq!(schema.paths(1).len(), 2);
    assert_eq!(schema.paths(2).len(), 0);
}

#[test]
fn taking_in_lines_finds_the_same_paths() {
    let mut schema = Schema::new(&SchemaOptions::default());
    let mut framer = LineFramer::new();
    for raw in [&b"{\"a\":{\"b\":1}}\n"[..], b"\n", b"\xFF"] {
        schema.add_line(&framer.frame(raw));
    }
    assert_eq!(schema.records, 1);
    assert_eq!(schema.unparseable, 1);
    let names: Vec<&str> = schema.paths(0).iter().map(|p| p.path.as_str()).collect();
    assert_eq!(names, ["a", "a.b"]);
}

#[test]
fn a_walk_lists_the_paths_within_its_depth() {
    let data = "{\"a\":{\"b\":{\"c\":1}}}\n";
    let paths = |depth| -> Vec<String> {
        run(data, SchemaOptions { depth })
            .paths(0)
            .iter()
            .map(|p| p.path.clone())
            .collect()
    };
    assert_eq!(paths(0), Vec::<String>::new());
    assert_eq!(paths(1), ["a"]);
    assert_eq!(paths(2), ["a", "a.b"]);
    assert_eq!(paths(3), ["a", "a.b", "a.b.c"]);
    assert_eq!(paths(4), ["a", "a.b", "a.b.c"]);
}

#[test]
fn a_deeper_walk_meets_every_path_at_least_as_often() {
    let data = "{\"a.b\":1,\"a\":{\"b\":[1,{\"c\":2}]}}\n[[1],[2,3]]\n{\"a\":{\"b\":null}}\n";
    for low in 0..5 {
        for high in low..5 {
            let (lo, hi) = (run(data, SchemaOptions { depth: low }), run(data, SchemaOptions { depth: high }));
            for p in lo.paths(0) {
                let q = find(&hi, &p.path);
                assert!(q.present >= p.present);
                assert!(q.occurrences >= p.occurrences);
            }
        }
    }
    assert_eq!(find(&run(data, SchemaOptions { depth: 1 }), "a.b").occurrences, 1);
    assert_eq!(find(&run(data, SchemaOptions { depth: 2 }), "a.b").occurrences, 3);
    assert_eq!(find(&run(data, SchemaOptions { depth: 2 }), "a.b").present, 2);
}

#[test]
fn a_schema_and_statistics_agree_on_the_lines() {
    let data = "{\"a\":1}\n\n{,}\nnot json\n";
    let schema = run(data, SchemaOptions::default());
    let stats = Stats::from_reader(data.as_bytes(), StatsOptions::default());
    assert_eq!((schema.records, schema.unparseable), (1, 2));
    assert_eq!((stats.valid, stats.invalid()), (1, 2));
    assert_eq!(schema.records + schema.unparseable, stats.lines - stats.blank);
}
